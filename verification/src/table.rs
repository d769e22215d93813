//! A keyed store with unique `u128` keys, abstracted as a finite map.
//!
//! Every persistent index of the scheduler (schedule store, slot index,
//! remaining budgets, retry counters, account balances) is a `Table` with a
//! suitable key encoding, so all of them share one verified map abstraction.

use vstd::prelude::*;

verus! {

/// A vector of distinct keys paired with a vector of values of equal length.
pub struct Table<V> {
    keys: Vec<u128>,
    vals: Vec<V>,
}

impl<V> View for Table<V> {
    type V = Map<u128, V>;

    closed spec fn view(&self) -> Map<u128, V> {
        Map::new(
            |k: u128| self.keys@.contains(k),
            |k: u128| self.vals@[self.keys@.index_of(k)],
        )
    }
}

impl<V> Table<V> {
    /// Keys and values line up and no key occurs twice.
    pub closed spec fn wf(&self) -> bool {
        &&& self.keys@.len() == self.vals@.len()
        &&& forall|i: int, j: int|
            0 <= i < self.keys@.len() && 0 <= j < self.keys@.len() && i != j
                ==> self.keys@[i] != self.keys@[j]
    }

    proof fn lemma_key_index(&self, i: int)
        requires
            self.wf(),
            0 <= i < self.keys@.len(),
        ensures
            self@.dom().contains(self.keys@[i]),
            self.keys@.index_of(self.keys@[i]) == i,
            self@[self.keys@[i]] == self.vals@[i],
    {
        let k = self.keys@[i];
        assert(self.keys@.contains(k));
        let j = self.keys@.index_of(k);
        assert(0 <= j < self.keys@.len() && self.keys@[j] == k);
        assert(j == i);
    }

    pub fn new() -> (t: Self)
        ensures
            t.wf(),
            t@ == Map::<u128, V>::empty(),
    {
        let t = Table { keys: Vec::new(), vals: Vec::new() };
        proof {
            assert(t@ =~= Map::<u128, V>::empty());
        }
        t
    }

    fn position(&self, key: u128) -> (r: Option<usize>)
        requires
            self.wf(),
        ensures
            match r {
                Some(i) => {
                    &&& i < self.keys@.len()
                    &&& self.keys@[i as int] == key
                    &&& self@.dom().contains(key)
                    &&& self@[key] == self.vals@[i as int]
                },
                None => !self@.dom().contains(key),
            },
    {
        let n = self.keys.len();
        let mut i: usize = 0;
        while i < n
            invariant
                self.wf(),
                n == self.keys@.len(),
                i <= n,
                forall|j: int| 0 <= j < i ==> self.keys@[j] != key,
            decreases n - i,
        {
            if self.keys[i] == key {
                proof {
                    self.lemma_key_index(i as int);
                }
                return Some(i);
            }
            i = i + 1;
        }
        proof {
            assert(!self.keys@.contains(key));
        }
        None
    }

    pub fn contains_key(&self, key: u128) -> (r: bool)
        requires
            self.wf(),
        ensures
            r == self@.dom().contains(key),
    {
        self.position(key).is_some()
    }

    pub fn get(&self, key: u128) -> (r: Option<&V>)
        requires
            self.wf(),
        ensures
            match r {
                Some(v) => self@.dom().contains(key) && *v == self@[key],
                None => !self@.dom().contains(key),
            },
    {
        match self.position(key) {
            Some(i) => Some(&self.vals[i]),
            None => None,
        }
    }

    pub fn insert(&mut self, key: u128, val: V)
        requires
            old(self).wf(),
        ensures
            final(self).wf(),
            final(self)@ == old(self)@.insert(key, val),
    {
        match self.position(key) {
            Some(i) => {
                self.vals[i] = val;
                proof {
                    self.lemma_after_value_update(*old(self), i as int, key, val);
                }
            },
            None => {
                self.keys.push(key);
                self.vals.push(val);
                proof {
                    self.lemma_after_push(*old(self), key, val);
                }
            },
        }
    }

    proof fn lemma_after_value_update(&self, prev: Self, i: int, key: u128, val: V)
        requires
            prev.wf(),
            0 <= i < prev.keys@.len(),
            prev.keys@[i] == key,
            self.keys@ == prev.keys@,
            self.vals@ == prev.vals@.update(i, val),
        ensures
            self.wf(),
            self@ == prev@.insert(key, val),
    {
        assert forall|k2: u128| self@.dom().contains(k2) implies prev@.insert(
            key,
            val,
        ).dom().contains(k2) by {}
        assert forall|k2: u128| prev@.insert(key, val).dom().contains(k2) implies self@.dom().contains(
            k2,
        ) && self@[k2] == prev@.insert(key, val)[k2] by {
            let j = choose|j: int| 0 <= j < prev.keys@.len() && prev.keys@[j] == k2;
            prev.lemma_key_index(j);
            self.lemma_key_index(j);
            if k2 == key {
                assert(j == i);
            } else {
                assert(j != i);
            }
        }
        assert(self@ =~= prev@.insert(key, val));
    }

    proof fn lemma_after_push(&self, prev: Self, key: u128, val: V)
        requires
            prev.wf(),
            !prev.keys@.contains(key),
            self.keys@ == prev.keys@.push(key),
            self.vals@ == prev.vals@.push(val),
        ensures
            self.wf(),
            self@ == prev@.insert(key, val),
    {
        let n = prev.keys@.len() as int;
        assert forall|i: int, j: int|
            0 <= i < self.keys@.len() && 0 <= j < self.keys@.len() && i != j implies self.keys@[i]
            != self.keys@[j] by {
            if i < n && j < n {
            } else if i == n {
                assert(prev.keys@.contains(prev.keys@[j])) by {
                    assert(prev.keys@[j] == prev.keys@[j]);
                }
            } else {
                assert(prev.keys@.contains(prev.keys@[i]));
            }
        }
        assert(self.wf());
        assert forall|k2: u128| #[trigger] self@.dom().contains(k2) implies prev@.insert(
            key,
            val,
        ).dom().contains(k2) && self@[k2] == prev@.insert(key, val)[k2] by {
            let j = choose|j: int| 0 <= j < self.keys@.len() && self.keys@[j] == k2;
            self.lemma_key_index(j);
            if j == n {
                assert(k2 == key);
            } else {
                assert(prev.keys@[j] == k2);
                assert(prev.keys@.contains(k2));
                prev.lemma_key_index(j);
                assert(k2 != key);
            }
        }
        assert forall|k2: u128| #[trigger] prev@.insert(key, val).dom().contains(
            k2,
        ) implies self@.dom().contains(k2) by {
            if k2 == key {
                assert(self.keys@[n] == key);
                assert(self.keys@.contains(k2));
            } else {
                let j = choose|j: int| 0 <= j < prev.keys@.len() && prev.keys@[j] == k2;
                assert(self.keys@[j] == k2);
                assert(self.keys@.contains(k2));
            }
        }
        assert(self@ =~= prev@.insert(key, val));
    }

    pub fn remove(&mut self, key: u128) -> (r: Option<V>)
        requires
            old(self).wf(),
        ensures
            final(self).wf(),
            match r {
                Some(v) => {
                    &&& old(self)@.dom().contains(key)
                    &&& v == old(self)@[key]
                    &&& final(self)@ == old(self)@.remove(key)
                },
                None => {
                    &&& !old(self)@.dom().contains(key)
                    &&& *final(self) == *old(self)
                },
            },
    {
        match self.position(key) {
            Some(i) => {
                self.keys.remove(i);
                let v = self.vals.remove(i);
                proof {
                    self.lemma_after_remove(*old(self), i as int, key);
                }
                Some(v)
            },
            None => None,
        }
    }

    proof fn lemma_after_remove(&self, prev: Self, i: int, key: u128)
        requires
            prev.wf(),
            0 <= i < prev.keys@.len(),
            prev.keys@[i] == key,
            self.keys@ == prev.keys@.remove(i),
            self.vals@ == prev.vals@.remove(i),
        ensures
            self.wf(),
            self@ == prev@.remove(key),
    {
        let n = prev.keys@.len() as int;
        assert(self.keys@.len() == n - 1);
        assert forall|j: int| 0 <= j < n - 1 implies self.keys@[j] == (if j < i {
            prev.keys@[j]
        } else {
            prev.keys@[j + 1]
        }) by {}
        assert forall|a: int, b: int|
            0 <= a < self.keys@.len() && 0 <= b < self.keys@.len() && a != b implies self.keys@[a]
            != self.keys@[b] by {}
        assert(self.wf());
        assert forall|k2: u128| #[trigger] self@.dom().contains(k2) implies prev@.remove(
            key,
        ).dom().contains(k2) && self@[k2] == prev@.remove(key)[k2] by {
            let j = choose|j: int| 0 <= j < self.keys@.len() && self.keys@[j] == k2;
            self.lemma_key_index(j);
            let jp = if j < i {
                j
            } else {
                j + 1
            };
            assert(prev.keys@[jp] == k2);
            assert(prev.keys@.contains(k2));
            prev.lemma_key_index(jp);
            assert(jp != i);
            assert(k2 != key);
        }
        assert forall|k2: u128| #[trigger] prev@.remove(key).dom().contains(
            k2,
        ) implies self@.dom().contains(k2) by {
            let jp = choose|j: int| 0 <= j < prev.keys@.len() && prev.keys@[j] == k2;
            prev.lemma_key_index(jp);
            assert(jp != i);
            let j = if jp < i {
                jp
            } else {
                jp - 1
            };
            assert(self.keys@[j] == k2);
            assert(self.keys@.contains(k2));
        }
        assert(self@ =~= prev@.remove(key));
    }

    /// The keys currently present, each exactly once.
    pub fn keys_vec(&self) -> (ks: Vec<u128>)
        requires
            self.wf(),
        ensures
            ks@.no_duplicates(),
            forall|k: u128| #[trigger] ks@.contains(k) <==> self@.dom().contains(k),
            forall|i: int| 0 <= i < ks@.len() ==> self@.dom().contains(#[trigger] ks@[i]),
    {
        let n = self.keys.len();
        let mut ks: Vec<u128> = Vec::new();
        let mut i: usize = 0;
        while i < n
            invariant
                self.wf(),
                n == self.keys@.len(),
                i <= n,
                ks@ == self.keys@.subrange(0, i as int),
            decreases n - i,
        {
            ks.push(self.keys[i]);
            proof {
                assert(ks@ =~= self.keys@.subrange(0, i as int + 1));
            }
            i = i + 1;
        }
        proof {
            assert(ks@ =~= self.keys@);
            assert forall|k: u128| #[trigger] ks@.contains(k) implies self@.dom().contains(k) by {}
            assert forall|i2: int| 0 <= i2 < ks@.len() implies self@.dom().contains(
                #[trigger] ks@[i2],
            ) by {
                self.lemma_key_index(i2);
            }
        }
        ks
    }
}

} // verus!
