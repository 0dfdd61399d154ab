use vstd::prelude::*;

use crate::intrinsics::{
    db_ok, db_set, filtered_ids, has_row, identity_of, keeps_identity, record_matches, row_ids,
    Predicate, lemma_pairs_absent, lemma_pairs_lookup,
    lemma_pairs_push, lemma_pairs_update, pairs_to_map, rows_of, table_ok, table_set, with_field,
    DatabaseView, RecordView, TableView,
};
use crate::query::OpView;
use crate::text::lower_of;
use crate::value::ValueView;
use crate::vm::{run, step, underflow, vm_ok, VmState};

verus! {

/// The record that an identity names, if its table holds the row.
pub open spec fn record_at(db: DatabaseView, id: (Seq<char>, u64)) -> Option<RecordView> {
    let rows = rows_of(db, id.0);
    if has_row(rows, id.1) {
        Some(rows[choose|i: int| 0 <= i < rows.len() && rows[i].0 == id.1].1)
    } else {
        None
    }
}

/// The fields that a write to `id` starts from: the record's own, or only its
/// identity for a record not yet written.
pub open spec fn base_record(db: DatabaseView, id: (Seq<char>, u64)) -> RecordView {
    match record_at(db, id) {
        Some(r) => r,
        None => map!["id"@ => ValueView::Id(id.0, id.1)],
    }
}

proof fn lemma_rows_of_ok(db: DatabaseView, t: Seq<char>)
    requires
        db_ok(db),
    ensures
        table_ok(t, rows_of(db, t)),
{
    if !db.contains_key(t) {
        assert(rows_of(db, t) =~= Seq::<(u64, RecordView)>::empty());
    }
}

proof fn lemma_table_set_ok(t: Seq<char>, rows: TableView, id: (Seq<char>, u64), key: Seq<char>, value: ValueView)
    requires
        table_ok(t, rows),
        id.0 == t,
    ensures
        table_ok(t, table_set(rows, id, key, value)),
{
    let after = table_set(rows, id, key, value);
    if has_row(rows, id.1) {
        assert forall|j: int| 0 <= j < after.len() implies #[trigger] keeps_identity(t, after[j]) by {
            assert(keeps_identity(t, rows[j]));
        }
    } else {
        assert forall|j: int| 0 <= j < after.len() implies #[trigger] keeps_identity(t, after[j]) by {
            if j < rows.len() {
                assert(keeps_identity(t, rows[j]));
            }
        }
        assert forall|a: int, b: int| 0 <= a < b < after.len() implies after[a].0 != after[b].0 by {
            if b == rows.len() {
                assert(rows[a].0 != id.1);
            }
        }
    }
}

/// Identity field: after any write, every record of every table still holds its own
/// identity under `"id"`, and the record written exists and holds `id`.
pub proof fn law_identity_field(db: DatabaseView, id: (Seq<char>, u64), key: Seq<char>, value: ValueView)
    requires
        db_ok(db),
    ensures
        db_ok(db_set(db, id, key, value)),
        record_at(db_set(db, id, key, value), id) is Some,
        record_at(db_set(db, id, key, value), id)->0.contains_key("id"@),
        record_at(db_set(db, id, key, value), id)->0["id"@] == ValueView::Id(id.0, id.1),
{
    let d2 = db_set(db, id, key, value);
    lemma_rows_of_ok(db, id.0);
    lemma_table_set_ok(id.0, rows_of(db, id.0), id, lower_of(key), value);
    assert forall|t: Seq<char>| #[trigger] d2.contains_key(t) implies table_ok(t, d2[t]) by {
        if t != id.0 {
            assert(d2[t] == db[t]);
        }
    }
    let rows = rows_of(d2, id.0);
    assert(rows == table_set(rows_of(db, id.0), id, lower_of(key), value));
    lemma_set_record(db, id, key, value);
    let i = choose|i: int| 0 <= i < rows.len() && rows[i].0 == id.1;
    assert(keeps_identity(id.0, rows[i]));
}

/// After a write, the record written holds the fields it had (or only its
/// identity), with the write applied.
proof fn lemma_set_record(db: DatabaseView, id: (Seq<char>, u64), key: Seq<char>, value: ValueView)
    requires
        db_ok(db),
    ensures
        record_at(db_set(db, id, key, value), id) == Some(with_field(base_record(db, id), lower_of(key), value)),
{
    let k = lower_of(key);
    let rows = rows_of(db, id.0);
    lemma_rows_of_ok(db, id.0);
    let after = table_set(rows, id, k, value);
    let d2 = db_set(db, id, key, value);
    assert(rows_of(d2, id.0) == after);
    if has_row(rows, id.1) {
        let i = choose|i: int| 0 <= i < rows.len() && rows[i].0 == id.1;
        assert(after[i].0 == id.1);
        assert(has_row(after, id.1));
        let j = choose|j: int| 0 <= j < after.len() && after[j].0 == id.1;
        assert(j == i) by {
            if j != i {
                assert(rows[j].0 == after[j].0);
            }
        }
    } else {
        let n = rows.len() as int;
        assert(after[n].0 == id.1);
        assert(has_row(after, id.1));
        let j = choose|j: int| 0 <= j < after.len() && after[j].0 == id.1;
        assert(j == n) by {
            if j != n {
                assert(rows[j].0 == after[j].0);
            }
        }
        assert(record_at(db, id) is None);
    }
}

/// Upsert merge: two writes to one record keep both fields when their names differ
/// (after folding to lower case), and when the names are the same the second value
/// replaces the first and the name is held once.
pub proof fn law_upsert_merge(
    db: DatabaseView,
    id: (Seq<char>, u64),
    k1: Seq<char>,
    v1: ValueView,
    k2: Seq<char>,
    v2: ValueView,
)
    requires
        db_ok(db),
        lower_of(k1) != "id"@,
        lower_of(k2) != "id"@,
    ensures
        ({
            let d1 = db_set(db, id, k1, v1);
            let r1 = record_at(d1, id)->0;
            let r2 = record_at(db_set(d1, id, k2, v2), id)->0;
            &&& r1 == base_record(db, id).insert(lower_of(k1), v1)
            &&& r2 == r1.insert(lower_of(k2), v2)
            &&& r2[lower_of(k2)] == v2
            &&& lower_of(k1) != lower_of(k2) ==> r2.contains_key(lower_of(k1)) && r2[lower_of(k1)] == v1
            &&& lower_of(k1) == lower_of(k2) ==> r2.dom() == r1.dom()
        }),
{
    let d1 = db_set(db, id, k1, v1);
    lemma_set_record(db, id, k1, v1);
    law_identity_field(db, id, k1, v1);
    lemma_set_record(d1, id, k2, v2);
    let r1 = record_at(d1, id)->0;
    assert(base_record(d1, id) == r1);
    if lower_of(k1) == lower_of(k2) {
        assert(r1.insert(lower_of(k2), v2).dom() =~= r1.dom());
    }
}

/// Stack underflow: `drop` on an empty stack, or a write with fewer than three values
/// on the stack, fails with a message naming the stack size it needs; the run ends
/// there with the database unchanged.
pub proof fn law_stack_underflow(p: Seq<OpView>, s: VmState)
    requires
        vm_ok(p, s),
        0 <= s.pc < p.len(),
        (p[s.pc] is Drop && s.stack.len() == 0) || (p[s.pc] is SetField && s.stack.len() < 3),
    ensures
        p[s.pc] is Drop ==> step(p, s) == Err::<VmState, Seq<char>>(underflow(1)),
        p[s.pc] is SetField ==> step(p, s) == Err::<VmState, Seq<char>>(underflow(3)),
        run(p, s) == (s, Some(step(p, s)->Err_0)),
        run(p, s).0.db == s.db,
{
}


/// A database as tables of rows of fields, without the order of rows.
pub open spec fn db_map(db: DatabaseView) -> Map<Seq<char>, Map<u64, RecordView>> {
    Map::new(|t: Seq<char>| db.contains_key(t), |t: Seq<char>| pairs_to_map(db[t]))
}

/// A write of `key -> value` into the record `id`, on the unordered form of a database.
pub open spec fn map_set(
    m: Map<Seq<char>, Map<u64, RecordView>>,
    id: (Seq<char>, u64),
    key: Seq<char>,
    value: ValueView,
) -> Map<Seq<char>, Map<u64, RecordView>> {
    let tm = if m.contains_key(id.0) {
        m[id.0]
    } else {
        Map::empty()
    };
    let rb = if tm.contains_key(id.1) {
        tm[id.1]
    } else {
        map!["id"@ => ValueView::Id(id.0, id.1)]
    };
    m.insert(id.0, tm.insert(id.1, with_field(rb, key, value)))
}

proof fn lemma_table_set_map(rows: TableView, id: (Seq<char>, u64), key: Seq<char>, value: ValueView)
    requires
        table_ok(id.0, rows),
    ensures
        ({
            let tm = pairs_to_map(rows);
            let rb = if tm.contains_key(id.1) {
                tm[id.1]
            } else {
                map!["id"@ => ValueView::Id(id.0, id.1)]
            };
            pairs_to_map(table_set(rows, id, key, value)) == tm.insert(id.1, with_field(rb, key, value))
        }),
{
    if has_row(rows, id.1) {
        let i = choose|i: int| 0 <= i < rows.len() && rows[i].0 == id.1;
        let fresh = with_field(rows[i].1, key, value);
        assert(table_set(rows, id, key, value) =~= rows.update(i, (rows[i].0, fresh))) by {
            assert forall|j: int| 0 <= j < rows.len() && j != i implies rows[j].0 != id.1 by {}
        }
        lemma_pairs_update(rows, i, fresh);
        lemma_pairs_lookup(rows, i);
    } else {
        lemma_pairs_push(rows, (id.1, with_field(map!["id"@ => ValueView::Id(id.0, id.1)], key, value)));
        lemma_pairs_absent(rows, id.1);
    }
}

proof fn lemma_db_set_map(db: DatabaseView, id: (Seq<char>, u64), key: Seq<char>, value: ValueView)
    requires
        db_ok(db),
    ensures
        db_map(db_set(db, id, key, value)) == map_set(db_map(db), id, lower_of(key), value),
{
    lemma_rows_of_ok(db, id.0);
    lemma_table_set_map(rows_of(db, id.0), id, lower_of(key), value);
    if !db.contains_key(id.0) {
        assert(pairs_to_map(rows_of(db, id.0)) =~= Map::<u64, RecordView>::empty());
    }
    assert(db_map(db_set(db, id, key, value)) =~= map_set(db_map(db), id, lower_of(key), value));
}

/// Serialization: the database that two writes leave does not depend on which ran
/// first, when they write different records or different fields of one record (as
/// tables of rows of fields, whatever the order of rows).
pub proof fn law_disjoint_writes_commute(
    db: DatabaseView,
    a: (Seq<char>, u64),
    ka: Seq<char>,
    va: ValueView,
    b: (Seq<char>, u64),
    kb: Seq<char>,
    vb: ValueView,
)
    requires
        db_ok(db),
        a != b || lower_of(ka) != lower_of(kb),
    ensures
        db_map(db_set(db_set(db, a, ka, va), b, kb, vb)) == db_map(db_set(db_set(db, b, kb, vb), a, ka, va)),
{
    let m = db_map(db);
    law_identity_field(db, a, ka, va);
    law_identity_field(db, b, kb, vb);
    lemma_db_set_map(db, a, ka, va);
    lemma_db_set_map(db, b, kb, vb);
    lemma_db_set_map(db_set(db, a, ka, va), b, kb, vb);
    lemma_db_set_map(db_set(db, b, kb, vb), a, ka, va);
    let x = lower_of(ka);
    let y = lower_of(kb);
    let left = map_set(map_set(m, a, x, va), b, y, vb);
    let right = map_set(map_set(m, b, y, vb), a, x, va);
    if a.0 != b.0 {
        assert(left =~= right);
    } else if a.1 != b.1 {
        assert(left[a.0] =~= right[a.0]);
        assert(left =~= right);
    } else {
        let tm = if m.contains_key(a.0) {
            m[a.0]
        } else {
            Map::empty()
        };
        let rb = if tm.contains_key(a.1) {
            tm[a.1]
        } else {
            map!["id"@ => ValueView::Id(a.0, a.1)]
        };
        assert(with_field(with_field(rb, x, va), y, vb) =~= with_field(with_field(rb, y, vb), x, va));
        assert(left[a.0] =~= right[a.0]);
        assert(left =~= right);
    }
}


/// Filter: the identities that `filter` gives for a table are exactly those of its
/// records that have a field `key` satisfying `predicate` against `value`.
pub proof fn law_filter_exact(
    t: Seq<char>,
    rows: TableView,
    key: Seq<char>,
    value: ValueView,
    predicate: Predicate,
)
    requires
        table_ok(t, rows),
    ensures
        forall|x: (Seq<char>, u64)|
            #[trigger] filtered_ids(rows, key, value, predicate).contains(x) <==> exists|i: int|
                0 <= i < rows.len() && x == (t, rows[i].0) && record_matches(rows[i].1, key, value, predicate),
    decreases rows.len(),
{
    if rows.len() > 0 {
        let init = rows.drop_last();
        assert(table_ok(t, init)) by {
            assert forall|i: int| 0 <= i < init.len() implies #[trigger] keeps_identity(t, init[i]) by {
                assert(keeps_identity(t, rows[i]));
            }
        }
        law_filter_exact(t, init, key, value, predicate);
        let last = rows.len() - 1;
        assert(keeps_identity(t, rows[last]));
        assert(identity_of(rows[last].1) == (t, rows[last].0));
        let f = filtered_ids(rows, key, value, predicate);
        assert forall|x: (Seq<char>, u64)| #[trigger] f.contains(x) <==> exists|i: int|
            0 <= i < rows.len() && x == (t, rows[i].0) && record_matches(rows[i].1, key, value, predicate) by {
            if f.contains(x) {
                if filtered_ids(init, key, value, predicate).contains(x) {
                    let i = choose|i: int|
                        0 <= i < init.len() && x == (t, init[i].0) && record_matches(init[i].1, key, value, predicate);
                    assert(rows[i] == init[i]);
                } else {
                    let j = choose|j: int| 0 <= j < f.len() && f[j] == x;
                    assert(j == f.len() - 1);
                }
            }
            if exists|i: int| 0 <= i < rows.len() && x == (t, rows[i].0) && record_matches(rows[i].1, key, value, predicate) {
                let i = choose|i: int|
                    0 <= i < rows.len() && x == (t, rows[i].0) && record_matches(rows[i].1, key, value, predicate);
                if i < last {
                    assert(init[i] == rows[i]);
                    assert(filtered_ids(init, key, value, predicate).contains(x));
                    let j = choose|j: int|
                        0 <= j < filtered_ids(init, key, value, predicate).len()
                            && filtered_ids(init, key, value, predicate)[j] == x;
                    assert(f[j] == x);
                } else {
                    assert(f[f.len() - 1] == x);
                }
            }
        }
    }
}

/// `select_all` scoping: it adds one identity for each row of the table that the
/// popped identity names, in the table's order, all of that table, whatever row the
/// popped identity holds.
pub proof fn law_select_all_scoped(p: Seq<OpView>, s: VmState, t: Seq<char>, r: u64)
    requires
        vm_ok(p, s),
        0 <= s.pc < p.len(),
        p[s.pc] is SelectAll,
        s.stack.len() >= 1,
        s.stack.last() == ValueView::Id(t, r),
        s.db.contains_key(t),
    ensures
        step(p, s) is Ok,
        step(p, s)->Ok_0.result == s.result + row_ids(t, s.db[t]),
        row_ids(t, s.db[t]).len() == s.db[t].len(),
        forall|i: int|
            0 <= i < s.db[t].len() ==> #[trigger] row_ids(t, s.db[t])[i] == (t, s.db[t][i].0),
{
}

} // verus!
