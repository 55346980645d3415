//! A map from string keys to per-key state, kept as a vector of slots with
//! distinct keys.

use vstd::prelude::*;

verus! {

/// Some key among the first `i` of `keys` is `k`.
pub open spec fn seen(keys: Seq<String>, i: int, k: Seq<char>) -> bool {
    exists|a: int| 0 <= a < i && #[trigger] keys[a]@ == k
}

/// `m1` and `m2` hold the same entry, or none, for `k`.
pub open spec fn agrees<V>(m1: Map<Seq<char>, V>, m2: Map<Seq<char>, V>, k: Seq<char>) -> bool {
    &&& m1.contains_key(k) == m2.contains_key(k)
    &&& m2.contains_key(k) ==> m1[k] == m2[k]
}

struct Slot<V> {
    key: String,
    value: V,
}

/// Per-key state of a limiter, keyed by the characters of the key.
pub struct Table<V> {
    slots: Vec<Slot<V>>,
    contents: Ghost<Map<Seq<char>, V>>,
}

impl<V> View for Table<V> {
    type V = Map<Seq<char>, V>;

    closed spec fn view(&self) -> Map<Seq<char>, V> {
        self.contents@
    }
}

impl<V> Table<V> {
    /// Every slot is in the map, every key of the map has a slot, and no two
    /// slots share a key.
    pub closed spec fn wf(&self) -> bool {
        &&& forall|i: int|
            0 <= i < self.slots@.len() ==> {
                &&& self.contents@.contains_key(#[trigger] self.slots@[i].key@)
                &&& self.contents@[self.slots@[i].key@] == self.slots@[i].value
            }
        &&& forall|i: int, j: int|
            0 <= i < j < self.slots@.len() ==> #[trigger] self.slots@[i].key@
                != #[trigger] self.slots@[j].key@
        &&& forall|k: Seq<char>|
            #[trigger] self.contents@.contains_key(k) ==> exists|i: int|
                0 <= i < self.slots@.len() && #[trigger] self.slots@[i].key@ == k
    }

    /// An empty table.
    pub fn new() -> (r: Table<V>)
        ensures
            r.wf(),
            r@ == Map::<Seq<char>, V>::empty(),
    {
        Table { slots: Vec::new(), contents: Ghost(Map::empty()) }
    }

    fn find(&self, key: &String) -> (r: Option<usize>)
        requires
            self.wf(),
        ensures
            match r {
                Some(i) => i < self.slots@.len() && self.slots@[i as int].key@ == key@,
                None => !self@.contains_key(key@),
            },
    {
        let n = self.slots.len();
        for i in 0..n
            invariant
                n == self.slots@.len(),
                forall|j: int| 0 <= j < i ==> #[trigger] self.slots@[j].key@ != key@,
        {
            if self.slots[i].key == *key {
                return Some(i);
            }
        }
        None
    }

    /// The value stored under `key`, if any.
    pub fn get(&self, key: &String) -> (r: Option<&V>)
        requires
            self.wf(),
        ensures
            match r {
                Some(v) => self@.contains_key(key@) && *v == self@[key@],
                None => !self@.contains_key(key@),
            },
    {
        match self.find(key) {
            Some(i) => Some(&self.slots[i].value),
            None => None,
        }
    }

    /// Removes the entry for `key` and returns its value, if there was one.
    pub fn take(&mut self, key: &String) -> (r: Option<V>)
        requires
            old(self).wf(),
        ensures
            final(self).wf(),
            final(self)@ == old(self)@.remove(key@),
            match r {
                Some(v) => old(self)@.contains_key(key@) && v == old(self)@[key@],
                None => !old(self)@.contains_key(key@),
            },
    {
        match self.find(key) {
            Some(i) => {
                let ghost before = self.slots@;
                let slot = self.slots.remove(i);
                self.contents = Ghost(self.contents@.remove(key@));
                proof {
                    assert forall|a: int, b: int|
                        0 <= a < b < self.slots@.len() implies #[trigger] self.slots@[a].key@
                        != #[trigger] self.slots@[b].key@ by {
                        let a0 = if a < i { a } else { a + 1 };
                        let b0 = if b < i { b } else { b + 1 };
                        assert(before[a0].key@ != before[b0].key@);
                    }
                    assert forall|a: int| 0 <= a < self.slots@.len() implies {
                        &&& self.contents@.contains_key(#[trigger] self.slots@[a].key@)
                        &&& self.contents@[self.slots@[a].key@] == self.slots@[a].value
                    } by {
                        let a0 = if a < i { a } else { a + 1 };
                        assert(before[a0].key@ != before[i as int].key@);
                    }
                    assert forall|k: Seq<char>| #[trigger]
                        self.contents@.contains_key(k) implies exists|a: int|
                        0 <= a < self.slots@.len() && #[trigger] self.slots@[a].key@ == k by {
                        let a0 = choose|a0: int| 0 <= a0 < before.len() && before[a0].key@ == k;
                        assert(a0 != i);
                        let a = if a0 < i { a0 } else { a0 - 1 };
                        assert(self.slots@[a].key@ == k);
                    }
                }
                Some(slot.value)
            },
            None => {
                proof {
                    assert(self.contents@.remove(key@) =~= self.contents@);
                }
                None
            },
        }
    }

    /// Stores `value` under `key`, replacing any earlier value.
    pub fn insert(&mut self, key: String, value: V)
        requires
            old(self).wf(),
        ensures
            final(self).wf(),
            final(self)@ == old(self)@.insert(key@, value),
    {
        let ghost k = key@;
        let ghost before = self.slots@;
        match self.find(&key) {
            Some(i) => {
                self.slots.set(i, Slot { key, value });
                self.contents = Ghost(self.contents@.insert(k, self.slots@[i as int].value));
                proof {
                    assert forall|a: int, b: int|
                        0 <= a < b < self.slots@.len() implies #[trigger] self.slots@[a].key@
                        != #[trigger] self.slots@[b].key@ by {
                        assert(before[a].key@ != before[b].key@);
                    }
                    assert forall|a: int| 0 <= a < self.slots@.len() implies {
                        &&& self.contents@.contains_key(#[trigger] self.slots@[a].key@)
                        &&& self.contents@[self.slots@[a].key@] == self.slots@[a].value
                    } by {
                        if a != i {
                            assert(before[a].key@ != before[i as int].key@);
                        }
                    }
                    assert forall|k2: Seq<char>| #[trigger]
                        self.contents@.contains_key(k2) implies exists|a: int|
                        0 <= a < self.slots@.len() && #[trigger] self.slots@[a].key@ == k2 by {
                        if k2 != k {
                            let a0 = choose|a0: int|
                                0 <= a0 < before.len() && before[a0].key@ == k2;
                            assert(self.slots@[a0].key@ == k2);
                        } else {
                            assert(self.slots@[i as int].key@ == k2);
                        }
                    }
                }
            },
            None => {
                self.slots.push(Slot { key, value });
                let n = self.slots.len() - 1;
                self.contents = Ghost(self.contents@.insert(k, self.slots@[n as int].value));
                proof {
                    assert forall|a: int, b: int|
                        0 <= a < b < self.slots@.len() implies #[trigger] self.slots@[a].key@
                        != #[trigger] self.slots@[b].key@ by {
                        if b < n {
                            assert(before[a].key@ != before[b].key@);
                        } else {
                            assert(old(self)@.contains_key(before[a].key@));
                        }
                    }
                    assert forall|a: int| 0 <= a < self.slots@.len() implies {
                        &&& self.contents@.contains_key(#[trigger] self.slots@[a].key@)
                        &&& self.contents@[self.slots@[a].key@] == self.slots@[a].value
                    } by {
                        if a < n {
                            assert(old(self)@.contains_key(before[a].key@));
                        }
                    }
                    assert forall|k2: Seq<char>| #[trigger]
                        self.contents@.contains_key(k2) implies exists|a: int|
                        0 <= a < self.slots@.len() && #[trigger] self.slots@[a].key@ == k2 by {
                        if k2 != k {
                            let a0 = choose|a0: int|
                                0 <= a0 < before.len() && before[a0].key@ == k2;
                            assert(self.slots@[a0].key@ == k2);
                        } else {
                            assert(self.slots@[n as int].key@ == k2);
                        }
                    }
                }
            },
        }
    }

    /// The keys of the table, each once.
    pub fn keys(&self) -> (r: Vec<String>)
        requires
            self.wf(),
        ensures
            forall|i: int, j: int| 0 <= i < j < r@.len() ==> #[trigger] r@[i]@ != #[trigger] r@[j]@,
            forall|i: int| 0 <= i < r@.len() ==> self@.contains_key(#[trigger] r@[i]@),
            forall|k: Seq<char>|
                #[trigger] self@.contains_key(k) ==> exists|i: int|
                    0 <= i < r@.len() && #[trigger] r@[i]@ == k,
    {
        let mut r: Vec<String> = Vec::new();
        let n = self.slots.len();
        for i in 0..n
            invariant
                n == self.slots@.len(),
                self.wf(),
                r@.len() == i,
                forall|j: int| 0 <= j < i ==> #[trigger] r@[j]@ == self.slots@[j].key@,
        {
            r.push(self.slots[i].key.clone());
        }
        proof {
            assert forall|i: int, j: int| 0 <= i < j < r@.len() implies #[trigger] r@[i]@
                != #[trigger] r@[j]@ by {
                assert(self.slots@[i].key@ != self.slots@[j].key@);
            }
            assert forall|k: Seq<char>| #[trigger] self@.contains_key(k) implies exists|i: int|
                0 <= i < r@.len() && #[trigger] r@[i]@ == k by {
                let a = choose|a: int| 0 <= a < self.slots@.len() && self.slots@[a].key@ == k;
                assert(r@[a]@ == k);
            }
        }
        r
    }
}

} // verus!
