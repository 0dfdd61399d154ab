use real_db::{execute_program, parse, Database, Operation, RecordId, Value};

fn float_bits(word: &str) -> u64 {
    word.parse::<f64>().map(f64::to_bits).unwrap_or(0)
}

fn run_query(db: &mut Database, text: &str) -> Result<Vec<RecordId>, String> {
    let program = parse(text.to_string(), &mut random::default(7), float_bits)?;
    execute_program(db, &program)
}

fn id(table: &str, row: u64) -> RecordId {
    RecordId::new(table.to_string(), row)
}

fn rows_of(result: &[RecordId]) -> Vec<u64> {
    result.iter().map(|r| r.row).collect()
}

#[test]
fn upsert_with_different_keys_accumulates_fields() {
    let mut db = Database::new();
    run_query(&mut db, "@t:1 \"a\" 1 set \"b\" 2 set drop").unwrap();
    let rec = db.get_record(&id("t", 1)).unwrap();
    assert_eq!(rec.len(), 3);
    assert_eq!(rec.get("a"), Some(&Value::Int(1)));
    assert_eq!(rec.get("b"), Some(&Value::Int(2)));
}

#[test]
fn upsert_with_same_key_overwrites_without_duplicating() {
    let mut db = Database::new();
    run_query(&mut db, "@t:1 \"a\" 1 set drop @t:1 \"a\" 2 set drop").unwrap();
    let rec = db.get_record(&id("t", 1)).unwrap();
    assert_eq!(rec.len(), 2);
    assert_eq!(rec.get("a"), Some(&Value::Int(2)));
}

#[test]
fn field_names_are_folded_to_lower_case() {
    let mut db = Database::new();
    run_query(&mut db, "@t:1 \"NaMe\" \"Ada\" set drop").unwrap();
    let rec = db.get_record(&id("t", 1)).unwrap();
    assert_eq!(rec.get("name"), Some(&Value::String("Ada".to_string())));
    assert_eq!(rec.get("NaMe"), None);
}

#[test]
fn identity_field_is_never_overwritten() {
    let mut db = Database::new();
    run_query(&mut db, "@t:4 \"id\" 5 set \"ID\" \"x\" set \"k\" 1 set drop").unwrap();
    let rec = db.get_record(&id("t", 4)).unwrap();
    assert_eq!(rec.get("id"), Some(&Value::Id(id("t", 4))));
    assert_eq!(rec.len(), 2);
}

#[test]
fn write_pushes_the_identity_back() {
    let mut db = Database::new();
    let result = run_query(&mut db, "@t:1 \"a\" 1 set select").unwrap();
    assert_eq!(result, vec![id("t", 1)]);
}

#[test]
fn select_unknown_table_fails() {
    let mut db = Database::new();
    let err = run_query(&mut db, "@t:999 select").unwrap_err();
    assert_eq!(err, "Table not found");
}

#[test]
fn select_unknown_row_fails() {
    let mut db = Database::new();
    run_query(&mut db, "@t:1 \"k\" 1 set drop").unwrap();
    let err = run_query(&mut db, "@t:999 select").unwrap_err();
    assert_eq!(err, "Record not found");
}

#[test]
fn select_all_is_scoped_to_its_table() {
    let mut db = Database::new();
    run_query(&mut db, "@t:1 \"k\" 5 set drop @t:2 \"k\" 6 set drop @u:3 \"k\" 7 set drop").unwrap();
    let result = run_query(&mut db, "@t:_ select_all").unwrap();
    assert_eq!(rows_of(&result), vec![1, 2]);
    assert!(result.iter().all(|r| r.table_name == "t"));
    let again = run_query(&mut db, "@t:42 select_all").unwrap();
    assert_eq!(rows_of(&again), vec![1, 2]);
}

#[test]
fn filter_keeps_exactly_the_matching_records() {
    let mut db = Database::new();
    run_query(&mut db, "@t:1 \"k\" 1 set drop @t:2 \"k\" 2 set drop @t:3 \"k\" 3 set drop").unwrap();
    let result = run_query(&mut db, "@t:_ \"k\" 2 \">=\" filter").unwrap();
    assert_eq!(result, vec![id("t", 2), id("t", 3)]);
    let eq = run_query(&mut db, "@t:_ \"K\" 2 \"==\" filter").unwrap();
    assert_eq!(rows_of(&eq), vec![2]);
    let lt = run_query(&mut db, "@t:_ \"k\" 2 \"<\" filter").unwrap();
    assert_eq!(rows_of(&lt), vec![1]);
    let le = run_query(&mut db, "@t:_ \"k\" 2 \"<=\" filter").unwrap();
    assert_eq!(rows_of(&le), vec![1, 2]);
    let gt = run_query(&mut db, "@t:_ \"k\" 2 \">\" filter").unwrap();
    assert_eq!(rows_of(&gt), vec![3]);
}

#[test]
fn filter_never_matches_values_of_another_kind() {
    let mut db = Database::new();
    run_query(&mut db, "@t:1 \"k\" 1 set drop @t:2 \"k\" \"1\" set drop").unwrap();
    let result = run_query(&mut db, "@t:_ \"k\" \"0\" \">=\" filter").unwrap();
    assert_eq!(rows_of(&result), vec![2]);
}

#[test]
fn filter_on_floats_follows_ieee_order() {
    let mut db = Database::new();
    run_query(&mut db, "@t:1 \"f\" 2.5 set drop @t:2 \"f\" -0.0 set drop @t:3 \"f\" nan set drop").unwrap();
    let gt = run_query(&mut db, "@t:_ \"f\" 2.0 \">\" filter").unwrap();
    assert_eq!(rows_of(&gt), vec![1]);
    let zero = run_query(&mut db, "@t:_ \"f\" 0.0 \"==\" filter").unwrap();
    assert_eq!(rows_of(&zero), vec![2]);
    let nan = run_query(&mut db, "@t:_ \"f\" NaN \"==\" filter").unwrap();
    assert!(nan.is_empty());
}

#[test]
fn filter_with_unknown_predicate_fails() {
    let mut db = Database::new();
    run_query(&mut db, "@t:1 \"k\" 1 set drop").unwrap();
    let err = run_query(&mut db, "@t:_ \"k\" 1 \"!=\" filter").unwrap_err();
    assert!(err.contains("Predicate"));
}

#[test]
fn range_counts_down_from_its_bound() {
    let mut db = Database::new();
    run_query(&mut db, "@t:1 \"k\" 1 set drop @t:2 \"k\" 2 set drop @t:3 \"k\" 3 set drop").unwrap();
    let result = run_query(&mut db, "range 3 do @t:_ \"k\" it \"==\" filter end").unwrap();
    assert_eq!(rows_of(&result), vec![3, 2, 1]);
}

#[test]
fn range_of_zero_skips_its_body() {
    let mut db = Database::new();
    run_query(&mut db, "@t:1 \"k\" 1 set drop").unwrap();
    let result = run_query(&mut db, "range 0 do @t:1 select end @t:1 select").unwrap();
    assert_eq!(result, vec![id("t", 1)]);
}

#[test]
fn nested_ranges_share_one_iterator() {
    let mut db = Database::new();
    run_query(&mut db, "@t:1 \"k\" 1 set drop @t:2 \"k\" 2 set drop").unwrap();
    let result = run_query(&mut db, "range 2 do range 1 do end @t:_ \"k\" it \"==\" filter end").unwrap();
    assert_eq!(rows_of(&result), vec![1, 1]);
}

#[test]
fn arithmetic_on_integers() {
    let mut db = Database::new();
    run_query(&mut db, "@t:1 \"k\" 2 3 + set drop @t:2 \"k\" 2 3 - set drop").unwrap();
    assert_eq!(db.get_record(&id("t", 1)).unwrap().get("k"), Some(&Value::Int(5)));
    assert_eq!(db.get_record(&id("t", 2)).unwrap().get("k"), Some(&Value::Int(-1)));
}

#[test]
fn arithmetic_needs_integers() {
    let mut db = Database::new();
    assert!(run_query(&mut db, "1 \"a\" +").is_err());
    assert!(run_query(&mut db, "9223372036854775807 1 +").is_err());
}

#[test]
fn drop_on_empty_stack_fails() {
    let mut db = Database::new();
    let err = run_query(&mut db, "drop").unwrap_err();
    assert_eq!(err, "Stack must have at least 1 value");
}

#[test]
fn set_with_too_few_values_fails_without_writing() {
    let mut db = Database::new();
    let err = run_query(&mut db, "@t:1 \"k\" set").unwrap_err();
    assert_eq!(err, "Stack must have at least 3 values");
    assert!(db.get_table("t").is_none());
}

#[test]
fn writes_before_an_error_stay() {
    let mut db = Database::new();
    assert!(run_query(&mut db, "@t:1 \"k\" 1 set drop drop").is_err());
    assert!(db.get_record(&id("t", 1)).is_some());
}

#[test]
fn compile_errors() {
    assert!(parse("end".to_string(), &mut random::default(1), float_bits).is_err());
    assert!(parse("it".to_string(), &mut random::default(1), float_bits).is_err());
    assert!(parse("@t:x".to_string(), &mut random::default(1), float_bits).is_err());
    assert!(parse("hello".to_string(), &mut random::default(1), float_bits).is_err());
    assert!(parse("range".to_string(), &mut random::default(1), float_bits).is_err());
    assert!(parse("range \"a\" do end".to_string(), &mut random::default(1), float_bits).is_err());
    assert!(parse("\"".to_string(), &mut random::default(1), float_bits).is_err());
}

#[test]
fn compile_resolves_loops_to_jumps() {
    let program = parse("range 2 do it end".to_string(), &mut random::default(1), float_bits).unwrap();
    assert_eq!(
        program,
        vec![
            Operation::Start,
            Operation::Range { value: 2, end: 4 },
            Operation::It,
            Operation::Jump(1),
            Operation::End,
        ]
    );
}

#[test]
fn compile_literals() {
    let program = parse("@t:12 \"a b\" -4 1.5".to_string(), &mut random::default(1), float_bits).unwrap();
    assert_eq!(
        program,
        vec![
            Operation::Start,
            Operation::Push(Value::Id(id("t", 12))),
            Operation::Push(Value::String("a b".to_string())),
            Operation::Push(Value::Int(-4)),
            Operation::Push(Value::Float(1.5f64.to_bits())),
            Operation::End,
        ]
    );
}

#[test]
fn open_range_runs_to_the_end_of_the_program() {
    let program = parse("range 0 do it".to_string(), &mut random::default(1), float_bits).unwrap();
    assert_eq!(program[1], Operation::Range { value: 0, end: 4 });
    let mut db = Database::new();
    assert_eq!(execute_program(&mut db, &program), Ok(vec![]));
}

#[test]
fn random_rows_come_from_the_generator() {
    let a = parse("@t:_ @t:_".to_string(), &mut random::default(99), float_bits).unwrap();
    let b = parse("@t:_ @t:_".to_string(), &mut random::default(99), float_bits).unwrap();
    assert_eq!(a, b);
    assert_ne!(a[1], a[2]);
    let mut shared = random::default(99);
    let first = parse("@t:_".to_string(), &mut shared, float_bits).unwrap();
    let second = parse("@t:_".to_string(), &mut shared, float_bits).unwrap();
    assert_ne!(first[1], second[1]);
}

#[test]
fn disjoint_programs_give_the_same_database_in_either_order() {
    let first = "@t:1 \"a\" 1 set drop @u:5 \"b\" 2.5 set drop";
    let second = "@t:2 \"a\" 3 set drop @t:1 \"c\" \"x\" set drop";
    let mut one = Database::new();
    run_query(&mut one, first).unwrap();
    run_query(&mut one, second).unwrap();
    let mut two = Database::new();
    run_query(&mut two, second).unwrap();
    run_query(&mut two, first).unwrap();
    for (table, row) in [("t", 1), ("t", 2), ("u", 5)] {
        let a = one.get_record(&id(table, row)).unwrap();
        let b = two.get_record(&id(table, row)).unwrap();
        assert_eq!(a.len(), b.len());
        for key in ["id", "a", "b", "c"] {
            assert_eq!(a.get(key), b.get(key));
        }
    }
}

#[test]
fn failed_select_after_a_write_keeps_the_write() {
    let mut db = Database::new();
    let err = run_query(&mut db, "@t:1 \"k\" 1 set drop @u:1 select").unwrap_err();
    assert_eq!(err, "Table not found");
    assert_eq!(db.get_record(&id("t", 1)).unwrap().get("k"), Some(&Value::Int(1)));
}

#[test]
fn unknown_word_is_named_in_the_error() {
    let err = parse("1 foo".to_string(), &mut random::default(1), float_bits).unwrap_err();
    assert_eq!(err, "Unexpected word `foo` at line 1:6");
}

#[test]
fn identity_literals_name_their_table_without_the_at_sign() {
    let program = parse("@users:5".to_string(), &mut random::default(1), float_bits).unwrap();
    assert_eq!(program[1], Operation::Push(Value::Id(id("users", 5))));
    let drawn = parse("@users:_".to_string(), &mut random::default(1), float_bits).unwrap();
    match &drawn[1] {
        Operation::Push(Value::Id(r)) => assert_eq!(r.table_name, "users"),
        other => panic!("unexpected operation {:?}", other),
    }
    for bad in ["@t:abc", "@t:-1", "@t:1:2"] {
        assert!(parse(bad.to_string(), &mut random::default(1), float_bits).is_err());
    }
}

#[test]
fn compile_errors_give_their_position() {
    let err = parse("drop\n  end".to_string(), &mut random::default(1), float_bits).unwrap_err();
    assert_eq!(err, "Unexpected end without a matching range at line 2:6");
}
