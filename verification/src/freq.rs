//! Frequency tables: the shared counting abstraction of the n-gram model.
//! Each table pairs a hash map of counts with the keys in first-seen order,
//! so that the build phase can both look up and enumerate.

use vstd::prelude::*;
use std::collections::HashMap;

verus! {

broadcast use vstd::std_specs::hash::group_hash_axioms;

/// One more observation of `k`: its count rises by one, starting at one.
pub open spec fn bump_spec(m: Map<u64, u64>, k: u64) -> Map<u64, u64> {
    m.insert(k, if m.contains_key(k) { (m[k] + 1) as u64 } else { 1u64 })
}

/// Counts how often each key was observed.
pub struct FreqTable {
    counts: HashMap<u64, u64>,
    order: Vec<u64>,
}

impl FreqTable {
    /// The key-to-count mapping.
    pub closed spec fn view(self) -> Map<u64, u64> {
        self.counts@
    }

    /// The keys, in first-observation order.
    pub closed spec fn order_seq(self) -> Seq<u64> {
        self.order@
    }

    /// The key list names each counted key exactly once.
    pub open spec fn wf(self) -> bool {
        &&& self.order_seq().no_duplicates()
        &&& forall|k: u64| self@.contains_key(k) <==> self.order_seq().contains(k)
    }

    /// An empty table.
    pub fn new() -> (r: FreqTable)
        ensures
            r.wf(),
            r@ == (Map::<u64, u64>::empty()),
            r.order_seq() == (Seq::<u64>::empty()),
    {
        FreqTable { counts: HashMap::new(), order: Vec::new() }
    }

    /// The count of a key, zero when never observed.
    pub fn get(&self, k: u64) -> (r: u64)
        ensures
            r == if self@.contains_key(k) { self@[k] } else { 0u64 },
    {
        match self.counts.get(&k) {
            Some(c) => *c,
            None => 0,
        }
    }

    /// The keys in first-observation order.
    pub fn keys(&self) -> (r: &Vec<u64>)
        ensures
            r@ == self.order_seq(),
    {
        &self.order
    }

    /// How many distinct keys were observed.
    pub fn distinct(&self) -> (r: usize)
        ensures
            r == self.order_seq().len(),
    {
        self.order.len()
    }

    /// Observes `k` once more.
    pub fn bump(&mut self, k: u64)
        requires
            old(self).wf(),
            old(self)@.contains_key(k) ==> old(self)@[k] < u64::MAX,
        ensures
            final(self).wf(),
            final(self)@ == bump_spec(old(self)@, k),
            final(self).order_seq() == if old(self)@.contains_key(k) {
                old(self).order_seq()
            } else {
                old(self).order_seq().push(k)
            },
    {
        let next = match self.counts.get(&k) {
            Some(c) => *c + 1,
            None => {
                self.order.push(k);
                1
            },
        };
        self.counts.insert(k, next);
        proof {
            if !old(self)@.contains_key(k) {
                assert(!old(self).order@.contains(k));
                assert(self.order@.no_duplicates()) by {
                    assert forall|i: int, j2: int| 0 <= i < j2 < self.order@.len()
                        implies self.order@[i] != self.order@[j2] by {
                        if j2 == self.order@.len() - 1 {
                            assert(self.order@[i] == old(self).order@[i]);
                            assert(old(self).order@.contains(old(self).order@[i]));
                        }
                    }
                }
            }
            assert forall|k2: u64| self@.contains_key(k2) <==> self.order@.contains(k2) by {
                if k2 == k {
                    if old(self)@.contains_key(k) {
                        assert(old(self).order@.contains(k));
                    } else {
                        assert(self.order@[self.order@.len() - 1] == k);
                    }
                    assert(self.order@.contains(k));
                    assert(self@.contains_key(k));
                } else {
                    if self.order@.contains(k2) {
                        let j = choose|j: int| 0 <= j < self.order@.len()
                            && self.order@[j] == k2;
                        assert(old(self).order@[j] == k2);
                        assert(old(self).order@.contains(k2));
                    }
                    if old(self).order@.contains(k2) {
                        let j0 = choose|j0: int| 0 <= j0 < old(self).order@.len()
                            && old(self).order@[j0] == k2;
                        assert(self.order@[j0] == k2);
                        assert(self.order@.contains(k2));
                    }
                }
            }
        }
    }
}


/// One more observation of successor `s` under chain key `k`.
pub open spec fn chain_bump(m: Map<u64, Map<u64, u64>>, k: u64, s: u64) -> Map<u64, Map<u64, u64>> {
    m.insert(k, bump_spec(if m.contains_key(k) { m[k] } else { Map::empty() }, s))
}

/// Counts, for every chain key, how often each successor follows it.
pub struct ChainAcc {
    tables: HashMap<u64, FreqTable>,
    keys: Vec<u64>,
}

impl ChainAcc {
    /// The key-to-successor-counts mapping.
    pub closed spec fn view(self) -> Map<u64, Map<u64, u64>> {
        Map::new(
            |k: u64| self.tables@.contains_key(k),
            |k: u64| self.tables@[k]@,
        )
    }

    /// The chain keys, in first-observation order.
    pub closed spec fn order_seq(self) -> Seq<u64> {
        self.keys@
    }

    /// The inner table under a present key.
    pub closed spec fn table_at(self, k: u64) -> FreqTable {
        self.tables@[k]
    }

    /// The key list names each counted key exactly once, and every successor
    /// table is well formed and nonempty.
    pub open spec fn wf(self) -> bool {
        &&& self.order_seq().no_duplicates()
        &&& (forall|k: u64| self@.contains_key(k) <==> self.order_seq().contains(k))
        &&& (forall|k: u64| self@.contains_key(k) ==> (#[trigger] self.table_at(k)).wf()
            && self.table_at(k).order_seq().len() >= 1 && self.table_at(k)@ == self@[k])
    }

    /// An empty accumulator.
    pub fn new() -> (r: ChainAcc)
        ensures
            r.wf(),
            r@ == (Map::<u64, Map<u64, u64>>::empty()),
            r.order_seq() == (Seq::<u64>::empty()),
    {
        let r = ChainAcc { tables: HashMap::new(), keys: Vec::new() };
        proof {
            assert(r@ =~= Map::<u64, Map<u64, u64>>::empty());
        }
        r
    }

    /// The successor table of a chain key, if observed.
    pub fn get(&self, k: u64) -> (r: Option<&FreqTable>)
        ensures
            match r {
                Some(t) => self@.contains_key(k) && *t == self.table_at(k) && t@ == self@[k],
                None => !self@.contains_key(k),
            },
    {
        self.tables.get(&k)
    }

    /// The chain keys in first-observation order.
    pub fn keys(&self) -> (r: &Vec<u64>)
        ensures
            r@ == self.order_seq(),
    {
        &self.keys
    }

    /// Observes that `succ` follows the context `key` once more.
    pub fn bump(&mut self, key: u64, succ: u64)
        requires
            old(self).wf(),
            old(self)@.contains_key(key) && old(self)@[key].contains_key(succ)
                ==> old(self)@[key][succ] < u64::MAX,
        ensures
            final(self).wf(),
            final(self)@ == chain_bump(old(self)@, key, succ),
            final(self).order_seq() == if old(self)@.contains_key(key) {
                old(self).order_seq()
            } else {
                old(self).order_seq().push(key)
            },
    {
        let existing = self.tables.remove(&key);
        match existing {
            Some(mut t) => {
                proof {
                    assert(old(self)@.contains_key(key));
                    assert((old(self).table_at(key)).wf());
                    assert(t@ == old(self)@[key]);
                }
                t.bump(succ);
                self.tables.insert(key, t);
                proof {
                    assert(self.tables@ =~= old(self).tables@.insert(key, t));
                    assert(self@ =~= chain_bump(old(self)@, key, succ));
                }
            },
            None => {
                let mut t = FreqTable::new();
                t.bump(succ);
                self.tables.insert(key, t);
                self.keys.push(key);
                proof {
                    assert(!old(self).keys@.contains(key));
                    assert(self.keys@.no_duplicates()) by {
                        assert forall|i: int, j2: int| 0 <= i < j2 < self.keys@.len()
                            implies self.keys@[i] != self.keys@[j2] by {
                            if j2 == self.keys@.len() - 1 {
                                assert(self.keys@[i] == old(self).keys@[i]);
                                assert(old(self).keys@.contains(old(self).keys@[i]));
                            }
                        }
                    }
                    assert(self@ =~= chain_bump(old(self)@, key, succ));
                }
            },
        }
        proof {
            assert forall|k2: u64| self@.contains_key(k2) implies (#[trigger] self.table_at(k2)).wf()
                && self.table_at(k2).order_seq().len() >= 1
                && self.table_at(k2)@ == self@[k2] by {
                if k2 != key {
                    assert(old(self)@.contains_key(k2));
                    assert((old(self).table_at(k2)).wf());
                    assert(self.table_at(k2) == old(self).table_at(k2));
                }
            }
            assert forall|k2: u64| self.tables@.contains_key(k2) <==> self.keys@.contains(k2) by {
                if k2 == key {
                    if old(self)@.contains_key(key) {
                        assert(old(self).keys@.contains(key));
                        assert(self.keys@.contains(key));
                    } else {
                        assert(self.keys@[self.keys@.len() - 1] == key);
                        assert(self.keys@.contains(key));
                    }
                } else {
                    if self.keys@.contains(k2) {
                        let j = choose|j: int| 0 <= j < self.keys@.len()
                            && self.keys@[j] == k2;
                        assert(old(self).keys@[j] == k2);
                        assert(old(self).keys@.contains(k2));
                    }
                    if old(self).keys@.contains(k2) {
                        let j0 = choose|j0: int| 0 <= j0 < old(self).keys@.len()
                            && old(self).keys@[j0] == k2;
                        assert(self.keys@[j0] == k2);
                        assert(self.keys@.contains(k2));
                    }
                }
            }
        }
    }
}

} // verus!
