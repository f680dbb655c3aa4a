//! An ordered table from names to byte contents, with names unique: the
//! in-memory form of a directory of small files.

use vstd::prelude::*;
use crate::text::chars_eq;
use crate::text::chars_of;

verus! {

/// The abstract table: (name, contents) pairs in insertion order.
pub type TableView = Seq<(Seq<char>, Seq<u8>)>;

/// No name occurs twice.
pub open spec fn names_unique(t: TableView) -> bool {
    forall|i: int, j: int| 0 <= i < t.len() && 0 <= j < t.len() && i != j ==> t[i].0 != t[j].0
}

/// Whether `name` has an entry.
pub open spec fn has_name(t: TableView, name: Seq<char>) -> bool {
    exists|i: int| 0 <= i < t.len() && t[i].0 == name
}

/// The names of the table, as a set.
pub open spec fn names(t: TableView) -> Set<Seq<char>> {
    t.map_values(|e: (Seq<char>, Seq<u8>)| e.0).to_set()
}

/// The names of a table are finitely many, at most one per entry, and
/// every name with an entry is among them.
pub proof fn lemma_names_bound(t: TableView)
    ensures
        names(t).finite(),
        names(t).len() <= t.len(),
        forall|z: Seq<char>| has_name(t, z) ==> #[trigger] names(t).contains(z),
{
    let m = t.map_values(|e: (Seq<char>, Seq<u8>)| e.0);
    m.lemma_cardinality_of_set();
    vstd::seq_lib::seq_to_set_is_finite(m);
    assert forall|z: Seq<char>| has_name(t, z) implies #[trigger] names(t).contains(z) by {
        let i = choose|i: int| 0 <= i < t.len() && t[i].0 == z;
        assert(m[i] == z);
    }
}

/// The contents stored under `name`, if any.
pub open spec fn lookup(t: TableView, name: Seq<char>) -> Option<Seq<u8>> {
    if has_name(t, name) {
        Some(t[choose|i: int| 0 <= i < t.len() && t[i].0 == name].1)
    } else {
        None
    }
}

/// The table after writing `data` under `name`: an existing entry keeps its
/// place and takes the new contents, a new name goes at the end.
pub open spec fn store(t: TableView, name: Seq<char>, data: Seq<u8>) -> TableView {
    if has_name(t, name) {
        t.update(choose|i: int| 0 <= i < t.len() && t[i].0 == name, (name, data))
    } else {
        t.push((name, data))
    }
}

/// In a table without repeated names, looking up the name of entry `i` finds its data.
pub proof fn lemma_lookup_at(t: TableView, i: int)
    requires
        names_unique(t),
        0 <= i < t.len(),
    ensures
        lookup(t, t[i].0) == Some(t[i].1),
{
    let k = choose|j: int| 0 <= j < t.len() && t[j].0 == t[i].0;
    assert(0 <= k < t.len() && t[k].0 == t[i].0);
}

/// Reading back a write gives what was written, and leaves the other names
/// as they were; names stay unique.
pub proof fn lemma_store(t: TableView, name: Seq<char>, data: Seq<u8>)
    requires
        names_unique(t),
    ensures
        names_unique(store(t, name, data)),
        lookup(store(t, name, data), name) == Some(data),
        forall|other: Seq<char>|
            other != name ==> #[trigger] lookup(store(t, name, data), other) == lookup(t, other),
        store(t, name, data).len() <= t.len() + 1,
{
    let s = store(t, name, data);
    if has_name(t, name) {
        let k = choose|i: int| 0 <= i < t.len() && t[i].0 == name;
        assert(s[k].0 == name);
        lemma_lookup_at(s, k);
        assert forall|other: Seq<char>| other != name implies #[trigger] lookup(s, other) == lookup(
            t,
            other,
        ) by {
            if has_name(t, other) {
                let j = choose|i: int| 0 <= i < t.len() && t[i].0 == other;
                assert(s[j] == t[j]);
                lemma_lookup_at(s, j);
                lemma_lookup_at(t, j);
            } else {
                assert(!has_name(s, other)) by {
                    if has_name(s, other) {
                        let j = choose|i: int| 0 <= i < s.len() && s[i].0 == other;
                        assert(t[j].0 == other);
                    }
                }
            }
        }
    } else {
        let k = t.len() as int;
        assert(s[k].0 == name);
        lemma_lookup_at(s, k);
        assert forall|other: Seq<char>| other != name implies #[trigger] lookup(s, other) == lookup(
            t,
            other,
        ) by {
            if has_name(t, other) {
                let j = choose|i: int| 0 <= i < t.len() && t[i].0 == other;
                assert(s[j] == t[j]);
                lemma_lookup_at(s, j);
                lemma_lookup_at(t, j);
            } else {
                assert(!has_name(s, other)) by {
                    if has_name(s, other) {
                        let j = choose|i: int| 0 <= i < s.len() && s[i].0 == other;
                        assert(j < t.len());
                        assert(t[j].0 == other);
                    }
                }
            }
        }
    }
}

/// Names mapped to byte contents, each name at most once.
pub struct Table {
    entries: Vec<(String, Vec<u8>)>,
}

impl View for Table {
    type V = TableView;

    closed spec fn view(&self) -> TableView {
        Seq::new(self.entries@.len(), |i: int| (self.entries@[i].0@, self.entries@[i].1@))
    }
}

impl Table {
    /// The table's invariant: no name occurs twice.
    pub open spec fn wf(&self) -> bool {
        names_unique(self@)
    }

    /// An empty table.
    pub fn new() -> (r: Table)
        ensures
            r@ == Seq::<(Seq<char>, Seq<u8>)>::empty(),
            r.wf(),
    {
        let r = Table { entries: Vec::new() };
        assert(r@ =~= Seq::<(Seq<char>, Seq<u8>)>::empty());
        r
    }

    /// The number of entries.
    pub fn len(&self) -> (r: usize)
        ensures
            r == self@.len(),
    {
        self.entries.len()
    }

    /// The name of entry `i`.
    pub fn name_at(&self, i: usize) -> (r: &String)
        requires
            i < self@.len(),
        ensures
            r@ == self@[i as int].0,
    {
        &self.entries[i].0
    }

    /// The contents of entry `i`.
    pub fn data_at(&self, i: usize) -> (r: &Vec<u8>)
        requires
            i < self@.len(),
        ensures
            r@ == self@[i as int].1,
    {
        &self.entries[i].1
    }

    /// Position of the entry named `name`.
    fn find(&self, name: &str) -> (r: Option<usize>)
        ensures
            r matches Some(i) ==> i < self@.len() && self@[i as int].0 == name@,
            r is None ==> !has_name(self@, name@),
    {
        let key = chars_of(name);
        let mut i: usize = 0;
        while i < self.entries.len()
            invariant
                i <= self.entries@.len(),
                key@ == name@,
                forall|j: int| 0 <= j < i ==> self@[j].0 != name@,
            decreases self.entries@.len() - i,
        {
            let cand = chars_of(self.entries[i].0.as_str());
            if chars_eq(cand.as_slice(), key.as_slice()) {
                return Some(i);
            }
            i = i + 1;
        }
        None
    }

    /// The contents stored under `name`, if any.
    pub fn get(&self, name: &str) -> (r: Option<&Vec<u8>>)
        requires
            self.wf(),
        ensures
            r matches Some(v) ==> lookup(self@, name@) == Some(v@),
            r is None ==> lookup(self@, name@) is None,
    {
        match self.find(name) {
            Some(i) => {
                proof {
                    lemma_lookup_at(self@, i as int);
                }
                Some(&self.entries[i].1)
            },
            None => None,
        }
    }

    /// Writes `data` under `name`.
    pub fn put(&mut self, name: String, data: Vec<u8>)
        requires
            old(self).wf(),
        ensures
            final(self)@ == store(old(self)@, name@, data@),
            final(self).wf(),
    {
        proof {
            lemma_store(self@, name@, data@);
        }
        match self.find(name.as_str()) {
            Some(i) => {
                let ghost before = self@;
                proof {
                    let k = choose|j: int| 0 <= j < before.len() && before[j].0 == name@;
                    assert(before[k].0 == before[i as int].0);
                    assert(k == i);
                }
                self.entries.set(i, (name, data));
                assert(self@ =~= store(before, name@, data@));
            },
            None => {
                let ghost before = self@;
                self.entries.push((name, data));
                assert(self@ =~= store(before, name@, data@));
            },
        }
    }
}

} // verus!
