use std::collections::HashMap;
use vstd::prelude::*;

use crate::text::{lower_of, lowercase, same_text};
use crate::value::{compare_values, value_cmp, RecordId, Value, ValueView};

verus! {

broadcast use vstd::std_specs::hash::group_hash_axioms;

/// A record's fields: lower-case field name to value.
pub type RecordView = Map<Seq<char>, ValueView>;

/// A table's rows, in the order in which they were first written.
pub type TableView = Seq<(u64, RecordView)>;

/// The tables of a database, by name.
pub type DatabaseView = Map<Seq<char>, TableView>;

/// The map that a list of key/value pairs describes; a later pair wins.
pub open spec fn pairs_to_map<K, V>(s: Seq<(K, V)>) -> Map<K, V>
    decreases s.len(),
{
    if s.len() == 0 {
        Map::empty()
    } else {
        pairs_to_map(s.drop_last()).insert(s.last().0, s.last().1)
    }
}

/// No key occurs twice in a list of pairs.
pub open spec fn keys_unique<K, V>(s: Seq<(K, V)>) -> bool {
    forall|i: int, j: int| 0 <= i < j < s.len() ==> s[i].0 != s[j].0
}

pub(crate) proof fn lemma_pairs_lookup<K, V>(s: Seq<(K, V)>, i: int)
    requires
        keys_unique(s),
        0 <= i < s.len(),
    ensures
        pairs_to_map(s).contains_key(s[i].0),
        pairs_to_map(s)[s[i].0] == s[i].1,
    decreases s.len(),
{
    if i < s.len() - 1 {
        assert(keys_unique(s.drop_last()));
        lemma_pairs_lookup(s.drop_last(), i);
        assert(s.drop_last()[i] == s[i]);
    }
}

pub(crate) proof fn lemma_pairs_absent<K, V>(s: Seq<(K, V)>, k: K)
    requires
        forall|i: int| 0 <= i < s.len() ==> s[i].0 != k,
    ensures
        !pairs_to_map(s).contains_key(k),
    decreases s.len(),
{
    if s.len() > 0 {
        assert(forall|i: int| 0 <= i < s.drop_last().len() ==> s.drop_last()[i] == s[i]);
        lemma_pairs_absent(s.drop_last(), k);
    }
}

pub(crate) proof fn lemma_pairs_update<K, V>(s: Seq<(K, V)>, i: int, v: V)
    requires
        keys_unique(s),
        0 <= i < s.len(),
    ensures
        pairs_to_map(s.update(i, (s[i].0, v))) == pairs_to_map(s).insert(s[i].0, v),
    decreases s.len(),
{
    let t = s.update(i, (s[i].0, v));
    if i == s.len() - 1 {
        assert(t.drop_last() =~= s.drop_last());
        assert(pairs_to_map(t) =~= pairs_to_map(s).insert(s[i].0, v));
    } else {
        assert(keys_unique(s.drop_last()));
        lemma_pairs_update(s.drop_last(), i, v);
        assert(t.drop_last() =~= s.drop_last().update(i, (s[i].0, v)));
        assert(s[s.len() - 1].0 != s[i].0);
        assert(pairs_to_map(t) =~= pairs_to_map(s).insert(s[i].0, v));
    }
}

pub(crate) proof fn lemma_pairs_index<K, V>(s: Seq<(K, V)>, k: K) -> (i: int)
    requires
        pairs_to_map(s).contains_key(k),
    ensures
        0 <= i < s.len(),
        s[i].0 == k,
    decreases s.len(),
{
    if s.last().0 == k {
        s.len() - 1
    } else {
        let j = lemma_pairs_index(s.drop_last(), k);
        assert(s.drop_last()[j] == s[j]);
        j
    }
}

pub(crate) proof fn lemma_pairs_push<K, V>(s: Seq<(K, V)>, p: (K, V))
    ensures
        pairs_to_map(s.push(p)) == pairs_to_map(s).insert(p.0, p.1),
{
    assert(s.push(p).drop_last() =~= s);
}

/// What a write of `value` under the field name `key` makes of a record's fields:
/// the field `"id"` is never written.
pub open spec fn with_field(fields: RecordView, key: Seq<char>, value: ValueView) -> RecordView {
    if key == "id"@ {
        fields
    } else {
        fields.insert(key, value)
    }
}

/// The fields of a record created by a write: its identity, and the field written.
pub open spec fn new_record(id: (Seq<char>, u64), key: Seq<char>, value: ValueView) -> RecordView {
    with_field(map!["id"@ => ValueView::Id(id.0, id.1)], key, value)
}

/// Whether a table holds the given row.
pub open spec fn has_row(rows: TableView, row: u64) -> bool {
    exists|i: int| 0 <= i < rows.len() && rows[i].0 == row
}

/// A table after an upsert of `key -> value` into the record `id`.
pub open spec fn table_set(rows: TableView, id: (Seq<char>, u64), key: Seq<char>, value: ValueView) -> TableView {
    if has_row(rows, id.1) {
        rows.map_values(
            |p: (u64, RecordView)|
                if p.0 == id.1 {
                    (p.0, with_field(p.1, key, value))
                } else {
                    p
                },
        )
    } else {
        rows.push((id.1, new_record(id, key, value)))
    }
}

/// The rows of a table, or none for a table that does not exist.
pub open spec fn rows_of(db: DatabaseView, table: Seq<char>) -> TableView {
    if db.contains_key(table) {
        db[table]
    } else {
        Seq::empty()
    }
}

/// A database after an upsert of `key -> value` into the record `id`, whose table
/// is created when it does not exist yet. The key is folded to lower case.
pub open spec fn db_set(db: DatabaseView, id: (Seq<char>, u64), key: Seq<char>, value: ValueView) -> DatabaseView {
    db.insert(id.0, table_set(rows_of(db, id.0), id, lower_of(key), value))
}

/// The identities of every row of a table, in its order.
pub open spec fn row_ids(table: Seq<char>, rows: TableView) -> Seq<(Seq<char>, u64)> {
    rows.map_values(|p: (u64, RecordView)| (table, p.0))
}

/// The comparisons that `filter` offers.
#[derive(Debug, Clone, Copy, PartialEq, Eq, Structural)]
pub enum Predicate {
    Eq,
    Lt,
    Le,
    Gt,
    Ge,
}

impl Predicate {
    /// Whether a comparison's outcome (-1, 0, 1, or none) satisfies the predicate.
    pub open spec fn accepts(self, c: Option<int>) -> bool {
        match self {
            Predicate::Eq => c == Some(0int),
            Predicate::Lt => c == Some(-1int),
            Predicate::Le => c == Some(-1int) || c == Some(0int),
            Predicate::Gt => c == Some(1int),
            Predicate::Ge => c == Some(1int) || c == Some(0int),
        }
    }

    /// Whether `field predicate value` holds.
    pub open spec fn holds(self, field: ValueView, value: ValueView) -> bool {
        self.accepts(value_cmp(field, value))
    }

    /// Whether `field predicate value` holds.
    pub fn test(&self, field: &Value, value: &Value) -> (r: bool)
        ensures
            r == self.holds(field@, value@),
    {
        let c = compare_values(field, value);
        match c {
            None => false,
            Some(x) => match self {
                Predicate::Eq => x == 0,
                Predicate::Lt => x == -1,
                Predicate::Le => x == -1 || x == 0,
                Predicate::Gt => x == 1,
                Predicate::Ge => x == 1 || x == 0,
            },
        }
    }
}

/// The predicate that a text value names, if any.
pub open spec fn predicate_named(v: ValueView) -> Option<Predicate> {
    match v {
        ValueView::Text(s) => {
            if s == "=="@ {
                Some(Predicate::Eq)
            } else if s == "<"@ {
                Some(Predicate::Lt)
            } else if s == "<="@ {
                Some(Predicate::Le)
            } else if s == ">"@ {
                Some(Predicate::Gt)
            } else if s == ">="@ {
                Some(Predicate::Ge)
            } else {
                None
            }
        },
        _ => None,
    }
}

/// Reads a predicate from a value: one of `==`, `<`, `<=`, `>`, `>=` as text.
pub fn match_predicate(predicate: Value) -> (r: Option<Predicate>)
    ensures
        r == predicate_named(predicate@),
{
    match predicate {
        Value::String(s) => {
            if same_text(s.as_str(), "==") {
                Some(Predicate::Eq)
            } else if same_text(s.as_str(), "<") {
                Some(Predicate::Lt)
            } else if same_text(s.as_str(), "<=") {
                Some(Predicate::Le)
            } else if same_text(s.as_str(), ">") {
                Some(Predicate::Gt)
            } else if same_text(s.as_str(), ">=") {
                Some(Predicate::Ge)
            } else {
                None
            }
        },
        _ => None,
    }
}

/// Whether a record has a field `key` that satisfies `predicate` against `value`.
pub open spec fn record_matches(fields: RecordView, key: Seq<char>, value: ValueView, predicate: Predicate) -> bool {
    fields.contains_key(key) && predicate.holds(fields[key], value)
}

/// The identity that a record holds under `"id"`.
pub open spec fn identity_of(fields: RecordView) -> (Seq<char>, u64) {
    match fields["id"@] {
        ValueView::Id(t, r) => (t, r),
        _ => (Seq::empty(), 0),
    }
}

/// The identities of the records of a table that match, in the table's order.
pub open spec fn filtered_ids(rows: TableView, key: Seq<char>, value: ValueView, predicate: Predicate) -> Seq<(Seq<char>, u64)>
    decreases rows.len(),
{
    if rows.len() == 0 {
        Seq::empty()
    } else {
        let rest = filtered_ids(rows.drop_last(), key, value, predicate);
        if record_matches(rows.last().1, key, value, predicate) {
            rest.push(identity_of(rows.last().1))
        } else {
            rest
        }
    }
}

/// The views of a list of identities.
pub open spec fn ids_view(v: Seq<RecordId>) -> Seq<(Seq<char>, u64)> {
    v.map_values(|id: RecordId| id@)
}

/// A record: its fields by lower-case name, always holding its own identity under `"id"`.
#[derive(Debug)]
pub struct Record {
    fields: Vec<(String, Value)>,
}

impl Record {
    /// The fields as name/value pairs, in storage order.
    pub closed spec fn pairs(&self) -> Seq<(Seq<char>, ValueView)> {
        self.fields@.map_values(|p: (String, Value)| (p.0@, p.1@))
    }

    /// No field name occurs twice.
    pub closed spec fn wf(&self) -> bool {
        keys_unique(self.pairs())
    }

    /// Where the field `key` stands, if the record has it.
    fn position(&self, key: &str) -> (r: Option<usize>)
        requires
            self.wf(),
        ensures
            r matches Some(i) ==> i < self.pairs().len() && self.pairs()[i as int].0 == key@,
            r is None ==> !self@.contains_key(key@),
    {
        let mut i: usize = 0;
        while i < self.fields.len()
            invariant
                i <= self.fields@.len(),
                forall|j: int| 0 <= j < i ==> self.pairs()[j].0 != key@,
            decreases self.fields@.len() - i,
        {
            if same_text(self.fields[i].0.as_str(), key) {
                return Some(i);
            }
            i = i + 1;
        }
        proof {
            lemma_pairs_absent(self.pairs(), key@);
        }
        None
    }

    /// The value of the field `key`, if the record has it.
    pub fn get(&self, key: &str) -> (r: Option<&Value>)
        requires
            self.wf(),
        ensures
            r matches Some(v) ==> self@.contains_key(key@) && self@[key@] == v@,
            r is None ==> !self@.contains_key(key@),
    {
        match self.position(key) {
            Some(i) => {
                proof {
                    lemma_pairs_lookup(self.pairs(), i as int);
                }
                Some(&self.fields[i].1)
            },
            None => None,
        }
    }

    /// Writes `value` under `key`, overwriting the field if the record has it.
    fn put(&mut self, key: String, value: Value)
        requires
            old(self).wf(),
        ensures
            final(self).wf(),
            final(self)@ == old(self)@.insert(key@, value@),
    {
        match self.position(key.as_str()) {
            Some(i) => {
                let ghost k = key@;
                let ghost v = value@;
                let ghost before = self.pairs();
                let old_key = self.fields[i].0.clone();
                self.fields.set(i, (old_key, value));
                proof {
                    assert(self.pairs() =~= before.update(i as int, (before[i as int].0, v)));
                    lemma_pairs_update(before, i as int, v);
                }
            },
            None => {
                let ghost before = self.pairs();
                let ghost p = (key@, value@);
                self.fields.push((key, value));
                proof {
                    assert(self.pairs() =~= before.push(p));
                    lemma_pairs_push(before, p);
                    assert forall|j: int| 0 <= j < before.len() implies before[j].0 != p.0 by {
                        if before[j].0 == p.0 {
                            lemma_pairs_lookup(before, j);
                        }
                    }
                }
            },
        }
    }

    /// A record that holds only its identity.
    fn with_identity(id: &RecordId) -> (r: Record)
        ensures
            r.wf(),
            r@ == map!["id"@ => ValueView::Id(id@.0, id@.1)],
    {
        let mut r = Record { fields: Vec::new() };
        proof {
            assert(r.pairs() =~= Seq::<(Seq<char>, ValueView)>::empty());
        }
        r.put(String::from_str("id"), Value::Id(id.copy()));
        proof {
            assert(r@ =~= map!["id"@ => ValueView::Id(id@.0, id@.1)]);
        }
        r
    }

    /// The number of fields.
    pub fn len(&self) -> (r: usize)
        requires
            self.wf(),
        ensures
            r == self@.len(),
    {
        proof {
            lemma_pairs_len(self.pairs());
        }
        self.fields.len()
    }

    /// The field at `i` in storage order, as a name and a value.
    pub fn field(&self, i: usize) -> (r: (&String, &Value))
        requires
            self.wf(),
            i < self@.len(),
        ensures
            (r.0@, r.1@) == self.pairs()[i as int],
            self@.contains_key(r.0@),
            self@[r.0@] == r.1@,
    {
        proof {
            lemma_pairs_len(self.pairs());
            lemma_pairs_lookup(self.pairs(), i as int);
        }
        (&self.fields[i].0, &self.fields[i].1)
    }
}

proof fn lemma_pairs_len<K, V>(s: Seq<(K, V)>)
    requires
        keys_unique(s),
    ensures
        pairs_to_map(s).dom().finite(),
        pairs_to_map(s).len() == s.len(),
    decreases s.len(),
{
    if s.len() > 0 {
        assert(keys_unique(s.drop_last()));
        lemma_pairs_len(s.drop_last());
        assert forall|j: int| 0 <= j < s.drop_last().len() implies s.drop_last()[j].0 != s.last().0 by {
            assert(s.drop_last()[j] == s[j]);
        }
        lemma_pairs_absent(s.drop_last(), s.last().0);
    }
}

impl View for Record {
    type V = RecordView;

    closed spec fn view(&self) -> RecordView {
        pairs_to_map(self.pairs())
    }
}


/// A record holds its own identity under `"id"`.
pub open spec fn keeps_identity(table: Seq<char>, entry: (u64, RecordView)) -> bool {
    entry.1.contains_key("id"@) && entry.1["id"@] == ValueView::Id(table, entry.0)
}

/// A table's rows are unique, and each record holds its own identity under `"id"`.
pub open spec fn table_ok(table: Seq<char>, rows: TableView) -> bool {
    &&& keys_unique(rows)
    &&& forall|i: int| 0 <= i < rows.len() ==> #[trigger] keeps_identity(table, rows[i])
}

/// Every table of a database is as `table_ok` says.
pub open spec fn db_ok(db: DatabaseView) -> bool {
    forall|t: Seq<char>| #[trigger] db.contains_key(t) ==> table_ok(t, db[t])
}

/// The records of one table, by row, and the order in which their rows were first
/// written.
#[derive(Debug)]
pub struct Records {
    rows: HashMap<u64, Record>,
    order: Vec<u64>,
}

impl View for Records {
    type V = TableView;

    closed spec fn view(&self) -> TableView {
        self.order@.map_values(|r: u64| (r, self.rows@[r]@))
    }
}

impl Records {
    /// Each row is listed once in the order, the order lists exactly the rows held,
    /// and every record is well formed.
    pub closed spec fn wf(&self) -> bool {
        &&& forall|i: int, j: int| 0 <= i < j < self.order@.len() ==> self.order@[i] != self.order@[j]
        &&& forall|r: u64|
            #![trigger self.rows@.contains_key(r)]
            #![trigger self.order@.contains(r)]
            self.rows@.contains_key(r) <==> self.order@.contains(r)
        &&& forall|r: u64| #[trigger] self.rows@.contains_key(r) ==> self.rows@[r].wf()
    }

    /// A table without rows.
    pub fn new() -> (r: Records)
        ensures
            r.wf(),
            r@ == Seq::<(u64, RecordView)>::empty(),
    {
        let r = Records { rows: HashMap::new(), order: Vec::new() };
        assert(r@ =~= Seq::<(u64, RecordView)>::empty());
        r
    }

    proof fn lemma_has_row(&self, row: u64)
        requires
            self.wf(),
        ensures
            has_row(self@, row) == self.rows@.contains_key(row),
    {
        if self.rows@.contains_key(row) {
            assert(self.order@.contains(row));
            let i = choose|i: int| 0 <= i < self.order@.len() && self.order@[i] == row;
            assert(self@[i].0 == row);
        }
        if has_row(self@, row) {
            let i = choose|i: int| 0 <= i < self@.len() && self@[i].0 == row;
            assert(self.order@[i] == row);
            assert(self.order@.contains(row));
        }
    }

    /// Whether the table holds `row`.
    pub fn contains(&self, row: u64) -> (r: bool)
        requires
            self.wf(),
        ensures
            r == has_row(self@, row),
    {
        proof {
            self.lemma_has_row(row);
        }
        self.rows.contains_key(&row)
    }

    /// The record at `row`, if the table holds it.
    pub fn get(&self, row: u64) -> (r: Option<&Record>)
        requires
            self.wf(),
        ensures
            r matches Some(rec) ==> rec.wf() && exists|i: int|
                0 <= i < self@.len() && self@[i].0 == row && self@[i].1 == rec@,
            r is None ==> !has_row(self@, row),
    {
        proof {
            self.lemma_has_row(row);
        }
        let r = self.rows.get(&row);
        proof {
            if let Some(rec) = r {
                assert(self.order@.contains(row));
                let i = choose|i: int| 0 <= i < self.order@.len() && self.order@[i] == row;
                assert(self@[i].0 == row && self@[i].1 == rec@);
            }
        }
        r
    }

    /// Appends the identity of every row to `result`, in the table's order.
    pub fn push_ids(&self, table_name: &String, result: &mut Vec<RecordId>)
        ensures
            ids_view(final(result)@) == ids_view(old(result)@) + row_ids(table_name@, self@),
    {
        let ghost start = ids_view(result@);
        let mut i: usize = 0;
        while i < self.order.len()
            invariant
                i <= self.order@.len(),
                ids_view(result@) == start + row_ids(table_name@, self@).subrange(0, i as int),
            decreases self.order@.len() - i,
        {
            let ghost before = result@;
            result.push(RecordId::new(table_name.clone(), self.order[i]));
            proof {
                assert(ids_view(result@) =~= ids_view(before).push((table_name@, self@[i as int].0)));
                assert(row_ids(table_name@, self@).subrange(0, i + 1) =~= row_ids(table_name@, self@).subrange(
                    0,
                    i as int,
                ).push((table_name@, self@[i as int].0)));
            }
            i = i + 1;
        }
        assert(row_ids(table_name@, self@).subrange(0, i as int) =~= row_ids(table_name@, self@));
    }
}

/// Writes `value` under the lower-case form of `key` into the record `record_id` of
/// this table, creating the record (with its identity under `"id"`) when it does not
/// exist. The field `"id"` itself is never overwritten.
pub fn set(records: &mut Records, record_id: &RecordId, key: String, value: Value)
    requires
        old(records).wf(),
        table_ok(record_id.table_name@, old(records)@),
    ensures
        final(records).wf(),
        table_ok(record_id.table_name@, final(records)@),
        final(records)@ == table_set(old(records)@, record_id@, lower_of(key@), value@),
{
    let key = lowercase(key.as_str());
    set_lowered(records, record_id, key, value);
}

/// Writes `value` under `key`, already in lower case, into the record `record_id`
/// of this table, as `set` does.
pub fn set_lowered(records: &mut Records, record_id: &RecordId, key: String, value: Value)
    requires
        old(records).wf(),
        table_ok(record_id.table_name@, old(records)@),
    ensures
        final(records).wf(),
        table_ok(record_id.table_name@, final(records)@),
        final(records)@ == table_set(old(records)@, record_id@, key@, value@),
{
    let is_id = same_text(key.as_str(), "id");
    let ghost k = key@;
    let ghost v = value@;
    let ghost name = record_id.table_name@;
    let ghost before = records@;
    let row = record_id.row;
    proof {
        records.lemma_has_row(row);
    }
    if records.rows.contains_key(&row) {
        if !is_id {
            let ghost old_rows = records.rows@;
            match records.rows.remove(&row) {
                Some(mut rec) => {
                    assert(rec.wf());
                    let ghost old_rec = rec@;
                    rec.put(key, value);
                    records.rows.insert(row, rec);
                    proof {
                        assert(records.rows@ == old_rows.insert(row, records.rows@[row]));
                        assert(records.rows@[row]@ == old_rec.insert(k, v));
                        assert(k != "id"@);
                        assert forall|r: u64|
                            #![trigger records.rows@.contains_key(r)]
                            #![trigger records.order@.contains(r)]
                            records.rows@.contains_key(r) <==> records.order@.contains(r) by {
                            assert(old_rows.contains_key(r) <==> records.order@.contains(r));
                        }
                        assert forall|r: u64| #[trigger] records.rows@.contains_key(r) implies records.rows@[r].wf() by {
                            if r != row {
                                assert(old_rows.contains_key(r));
                            }
                        }
                        let after = records@;
                        assert forall|j: int| 0 <= j < after.len() implies after[j] == (if before[j].0 == row {
                            (before[j].0, with_field(before[j].1, k, v))
                        } else {
                            before[j]
                        }) by {
                            if records.order@[j] == row {
                                assert(before[j].1 == old_rec);
                            }
                        }
                        assert(after =~= table_set(before, record_id@, k, v));
                        assert forall|j: int| 0 <= j < after.len() implies keeps_identity(name, after[j]) by {
                            assert(keeps_identity(name, before[j]));
                        }
                        assert(keys_unique(after));
                        assert(table_ok(name, after));
                    }
                },
                None => {
                    proof {
                        assert(false);
                    }
                },
            }
        } else {
            proof {
                assert(table_set(before, record_id@, k, v) =~= before);
            }
        }
    } else {
        let mut rec = Record::with_identity(record_id);
        if !is_id {
            rec.put(key, value);
        }
        let ghost rv = rec@;
        let ghost old_rows = records.rows@;
        let ghost old_order = records.order@;
        records.rows.insert(row, rec);
        records.order.push(row);
        proof {
            assert(rv =~= new_record(record_id@, k, v));
            assert(!old_order.contains(row));
            assert forall|r: u64|
                #![trigger records.rows@.contains_key(r)]
                #![trigger records.order@.contains(r)]
                records.rows@.contains_key(r) <==> records.order@.contains(r) by {
                assert(old_rows.contains_key(r) <==> old_order.contains(r));
                if records.order@.contains(r) && r != row {
                    let i = choose|i: int| 0 <= i < records.order@.len() && records.order@[i] == r;
                    assert(old_order[i] == r);
                }
                if old_order.contains(r) {
                    let i = choose|i: int| 0 <= i < old_order.len() && old_order[i] == r;
                    assert(records.order@[i] == r);
                }
                if r == row {
                    assert(records.order@[old_order.len() as int] == row);
                }
            }
            assert forall|r: u64| #[trigger] records.rows@.contains_key(r) implies records.rows@[r].wf() by {
                if r != row {
                    assert(old_rows.contains_key(r));
                }
            }
            assert forall|a: int, b: int| 0 <= a < b < records.order@.len() implies records.order@[a] != records.order@[b] by {
                if b == old_order.len() {
                    assert(old_order[a] != row) by {
                        if old_order[a] == row {
                            assert(old_order.contains(row));
                        }
                    }
                }
            }
            assert forall|j: int| 0 <= j < old_order.len() implies records.rows@[old_order[j]] == old_rows[old_order[j]] by {
                assert(old_order.contains(old_order[j]));
            }
            assert(records@ =~= before.push((row, rv)));
            let after = records@;
            assert forall|j: int| 0 <= j < after.len() implies keeps_identity(name, after[j]) by {
                if j < before.len() {
                    assert(keeps_identity(name, before[j]));
                }
            }
            assert forall|a: int, b: int| 0 <= a < b < after.len() implies after[a].0 != after[b].0 by {}
            assert(table_ok(name, after));
        }
    }
}

/// Appends to `result` the identity of every record of the table that has a field
/// `key` for which `field predicate value` holds, in the table's order.
pub fn filter(records: &Records, result: &mut Vec<RecordId>, key: String, value: Value, predicate: Predicate)
    requires
        records.wf(),
        exists|t: Seq<char>| table_ok(t, records@),
    ensures
        ids_view(final(result)@) == ids_view(old(result)@) + filtered_ids(records@, key@, value@, predicate),
{
    let ghost start = ids_view(result@);
    let mut i: usize = 0;
    while i < records.order.len()
        invariant
            records.wf(),
            exists|t: Seq<char>| table_ok(t, records@),
            i <= records.order@.len(),
            ids_view(result@) == start + filtered_ids(records@.subrange(0, i as int), key@, value@, predicate),
        decreases records.order@.len() - i,
    {
        let ghost fields = records@[i as int].1;
        let row = records.order[i];
        assert(records.order@.contains(row));
        let rec = match records.rows.get(&row) {
            Some(rec) => rec,
            None => {
                proof {
                    assert(false);
                }
                return;
            },
        };
        assert(rec@ == fields && rec.wf());
        assert(records@.subrange(0, i + 1).drop_last() =~= records@.subrange(0, i as int));
        let matched = match rec.get(key.as_str()) {
            Some(field) => predicate.test(field, &value),
            None => false,
        };
        if matched {
            match rec.get("id") {
                Some(Value::Id(record_id)) => {
                    let ghost before = result@;
                    result.push(record_id.copy());
                    assert(ids_view(result@) =~= ids_view(before).push(identity_of(fields)));
                },
                _ => {
                    proof {
                        let t = choose|t: Seq<char>| table_ok(t, records@);
                        assert(keeps_identity(t, records@[i as int]));
                        assert(false);
                    }
                },
            }
        }
        i = i + 1;
    }
    assert(records@.subrange(0, i as int) =~= records@);
}

} // verus!
