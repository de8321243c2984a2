//! A small table from names to entries, each name held once.
use vstd::prelude::*;

verus! {

/// Entries keyed by name; adding a name again replaces its entry.
pub struct LookupTable {
    pub entries: Vec<(String, String)>,
}

/// Index of the entry named `key`, where there is one.
pub open spec fn position_of(entries: Seq<(String, String)>, key: Seq<char>) -> Option<int> {
    if exists|i: int| 0 <= i < entries.len() && #[trigger] entries[i].0@ == key {
        Some(choose|i: int| 0 <= i < entries.len() && #[trigger] entries[i].0@ == key)
    } else {
        None
    }
}

impl LookupTable {
    /// No name appears twice.
    pub open spec fn wf(&self) -> bool {
        forall|i: int, j: int|
            0 <= i < j < self.entries@.len() ==> #[trigger] self.entries@[i].0@ != #[trigger] self.entries@[j].0@
    }

    /// What the table maps each name to.
    pub open spec fn view(&self) -> Map<Seq<char>, Seq<char>> {
        Map::new(
            |k: Seq<char>| position_of(self.entries@, k).is_some(),
            |k: Seq<char>| self.entries@[position_of(self.entries@, k).unwrap()].1@,
        )
    }

    /// An empty table.
    pub fn new() -> (r: LookupTable)
        ensures
            r.wf(),
            r.view() == Map::<Seq<char>, Seq<char>>::empty(),
    {
        let r = LookupTable { entries: Vec::new() };
        assert(r.view() =~= Map::<Seq<char>, Seq<char>>::empty());
        r
    }

    /// Index of the entry named `key`.
    fn find(&self, key: &String) -> (r: Option<usize>)
        requires
            self.wf(),
        ensures
            match r {
                Some(i) => i < self.entries@.len() && self.entries@[i as int].0@ == key@,
                None => forall|i: int| 0 <= i < self.entries@.len() ==> #[trigger] self.entries@[i].0@ != key@,
            },
    {
        let mut i: usize = 0;
        while i < self.entries.len()
            invariant
                0 <= i <= self.entries@.len(),
                forall|j: int| 0 <= j < i ==> #[trigger] self.entries@[j].0@ != key@,
            decreases self.entries@.len() - i,
        {
            if self.entries[i].0 == *key {
                return Some(i);
            }
            i = i + 1;
        }
        None
    }

    /// The table with `key` mapped to `entry`, replacing any earlier entry of that name.
    pub fn add(self, key: String, entry: String) -> (r: LookupTable)
        requires
            self.wf(),
        ensures
            r.wf(),
            r.view() == self.view().insert(key@, entry@),
    {
        let mut t = self;
        let ghost old_entries = t.entries@;
        match t.find(&key) {
            Some(i) => {
                t.entries.set(i, (key, entry));
                proof {
                    assert forall|k: Seq<char>| #[trigger] position_of(t.entries@, k).is_some() == (position_of(old_entries, k).is_some() || k == key@) by {
                        if position_of(old_entries, k).is_some() {
                            let j = choose|j: int| 0 <= j < old_entries.len() && #[trigger] old_entries[j].0@ == k;
                            if j != i {
                                assert(t.entries@[j].0@ == k);
                            }
                        }
                        if k == key@ {
                            assert(t.entries@[i as int].0@ == k);
                        }
                    }
                    assert forall|k: Seq<char>| #[trigger] position_of(t.entries@, k).is_some() implies t.entries@[position_of(t.entries@, k).unwrap()].1@ == (if k == key@ { entry@ } else { old_entries[position_of(old_entries, k).unwrap()].1@ }) by {
                        let p = position_of(t.entries@, k).unwrap();
                        if k == key@ {
                            assert(p == i);
                        } else {
                            let q = position_of(old_entries, k).unwrap();
                            assert(p == q);
                        }
                    }
                    assert(t.view() =~= self.view().insert(key@, entry@));
                }
            },
            None => {
                t.entries.push((key, entry));
                proof {
                    let n = old_entries.len() as int;
                    assert forall|k: Seq<char>| #[trigger] position_of(t.entries@, k).is_some() == (position_of(old_entries, k).is_some() || k == key@) by {
                        if position_of(old_entries, k).is_some() {
                            let j = choose|j: int| 0 <= j < old_entries.len() && #[trigger] old_entries[j].0@ == k;
                            assert(t.entries@[j].0@ == k);
                        }
                        if k == key@ {
                            assert(t.entries@[n].0@ == k);
                        }
                    }
                    assert forall|k: Seq<char>| #[trigger] position_of(t.entries@, k).is_some() implies t.entries@[position_of(t.entries@, k).unwrap()].1@ == (if k == key@ { entry@ } else { old_entries[position_of(old_entries, k).unwrap()].1@ }) by {
                        let p = position_of(t.entries@, k).unwrap();
                        if k == key@ {
                            assert(p == n);
                        } else {
                            let q = position_of(old_entries, k).unwrap();
                            assert(p == q);
                        }
                    }
                    assert(t.view() =~= self.view().insert(key@, entry@));
                }
            },
        }
        t
    }

    /// The entry named `key`, where there is one.
    pub fn get(&self, key: &String) -> (r: Option<String>)
        requires
            self.wf(),
        ensures
            match r {
                Some(e) => self.view().contains_key(key@) && e@ == self.view()[key@],
                None => !self.view().contains_key(key@),
            },
    {
        match self.find(key) {
            Some(i) => {
                proof {
                    let p = position_of(self.entries@, key@).unwrap();
                    assert(p == i);
                }
                Some(self.entries[i].1.clone())
            },
            None => None,
        }
    }
}

} // verus!
