use vstd::prelude::*;

use crate::intrinsics::{
    db_ok, db_set, has_row, keys_unique, lemma_pairs_absent, lemma_pairs_index, lemma_pairs_lookup,
    lemma_pairs_push, lemma_pairs_update, pairs_to_map, table_ok, DatabaseView, Record, Records,
    TableView,
};
use crate::text::same_text;
use crate::value::{RecordId, Value};

verus! {

/// Every table, by name. Tables come into being on their first write.
#[derive(Debug)]
pub struct Database {
    tables: Vec<(String, Records)>,
}

impl View for Database {
    type V = DatabaseView;

    closed spec fn view(&self) -> DatabaseView {
        pairs_to_map(self.entries())
    }
}

impl Database {
    closed spec fn entries(&self) -> Seq<(Seq<char>, TableView)> {
        self.tables@.map_values(|p: (String, Records)| (p.0@, p.1@))
    }

    /// Table names are unique, and every table is well formed and keeps its records'
    /// identities.
    pub closed spec fn wf(&self) -> bool {
        &&& keys_unique(self.entries())
        &&& forall|i: int|
            0 <= i < self.tables@.len() ==> (#[trigger] self.tables@[i]).1.wf() && table_ok(
                self.tables@[i].0@,
                self.tables@[i].1@,
            )
    }

    /// A well-formed database keeps, in every table, each record's identity under `"id"`.
    pub proof fn lemma_wf_ok(&self)
        requires
            self.wf(),
        ensures
            db_ok(self@),
    {
        assert forall|t: Seq<char>| #[trigger] self@.contains_key(t) implies table_ok(t, self@[t]) by {
            let i = lemma_pairs_index(self.entries(), t);
            lemma_pairs_lookup(self.entries(), i);
            assert(self.entries()[i].1 == self.tables@[i].1@);
        }
    }

    /// A database without tables.
    pub fn new() -> (r: Database)
        ensures
            r.wf(),
            r@ == Map::<Seq<char>, TableView>::empty(),
    {
        let r = Database { tables: Vec::new() };
        assert(r.entries() =~= Seq::<(Seq<char>, TableView)>::empty());
        assert(r@ =~= Map::<Seq<char>, TableView>::empty());
        r
    }

    fn position(&self, name: &str) -> (r: Option<usize>)
        requires
            self.wf(),
        ensures
            r matches Some(i) ==> i < self.tables@.len() && self.tables@[i as int].0@ == name@
                && self@.contains_key(name@) && self@[name@] == self.tables@[i as int].1@,
            r is None ==> !self@.contains_key(name@),
    {
        let mut i: usize = 0;
        while i < self.tables.len()
            invariant
                self.wf(),
                i <= self.tables@.len(),
                forall|j: int| 0 <= j < i ==> self.entries()[j].0 != name@,
            decreases self.tables@.len() - i,
        {
            if same_text(self.tables[i].0.as_str(), name) {
                proof {
                    lemma_pairs_lookup(self.entries(), i as int);
                }
                return Some(i);
            }
            i = i + 1;
        }
        proof {
            lemma_pairs_absent(self.entries(), name@);
        }
        None
    }

    /// The table `name`, if it exists.
    pub fn get_table(&self, name: &str) -> (r: Option<&Records>)
        requires
            self.wf(),
        ensures
            r matches Some(t) ==> self@.contains_key(name@) && t@ == self@[name@] && t.wf()
                && table_ok(name@, t@),
            r is None ==> !self@.contains_key(name@),
    {
        match self.position(name) {
            Some(i) => Some(&self.tables[i].1),
            None => None,
        }
    }

    /// The record that `id` names, if it exists.
    pub fn get_record(&self, id: &RecordId) -> (r: Option<&Record>)
        requires
            self.wf(),
        ensures
            r matches Some(rec) ==> rec.wf() && self@.contains_key(id@.0) && exists|i: int|
                0 <= i < self@[id@.0].len() && self@[id@.0][i].0 == id@.1 && self@[id@.0][i].1
                    == rec@,
            r is None ==> !(self@.contains_key(id@.0) && has_row(self@[id@.0], id@.1)),
    {
        match self.get_table(id.table_name.as_str()) {
            Some(t) => {
                let r = t.get(id.row);
                proof {
                    if let Some(rec) = r {
                        let i = choose|i: int| 0 <= i < t@.len() && t@[i].0 == id.row && t@[i].1 == rec@;
                        assert(self@[id@.0][i].0 == id@.1 && self@[id@.0][i].1 == rec@);
                    }
                }
                r
            },
            None => None,
        }
    }

    /// Writes `value` under the lower-case form of `key` into the record `record_id`,
    /// creating its table and the record when they do not exist.
    pub fn upsert(&mut self, record_id: &RecordId, key: String, value: Value)
        requires
            old(self).wf(),
        ensures
            final(self).wf(),
            final(self)@ == db_set(old(self)@, record_id@, key@, value@),
    {
        let ghost before = self.entries();
        let ghost old_view = self@;
        match self.position(record_id.table_name.as_str()) {
            Some(i) => {
                assert(self.tables@[i as int].1.wf());
                crate::intrinsics::set(&mut self.tables[i].1, record_id, key, value);
                proof {
                    let rows = self.tables@[i as int].1@;
                    assert(self.entries() =~= before.update(i as int, (before[i as int].0, rows)));
                    lemma_pairs_update(before, i as int, rows);
                    assert(keys_unique(self.entries()));
                    assert(self@ =~= db_set(old_view, record_id@, key@, value@));
                }
            },
            None => {
                let mut records = Records::new();
                crate::intrinsics::set(&mut records, record_id, key, value);
                let ghost rows = records@;
                self.tables.push((record_id.table_name.clone(), records));
                proof {
                    let p = (record_id.table_name@, rows);
                    assert(self.entries() =~= before.push(p));
                    lemma_pairs_push(before, p);
                    assert forall|a: int, b: int|
                        0 <= a < b < self.entries().len() implies self.entries()[a].0
                        != self.entries()[b].0 by {
                        if b == before.len() && before[a].0 == p.0 {
                            lemma_pairs_lookup(before, a);
                        }
                    }
                    assert(self@ =~= db_set(old_view, record_id@, key@, value@));
                }
            },
        }
    }
}

} // verus!
