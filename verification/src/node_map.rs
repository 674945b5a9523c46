//! A small association table from vertex identifiers to values,
//! backed by parallel vectors; the traversals use it for discovery
//! and finish timestamps and for predecessor links.

use vstd::prelude::*;

verus! {

/// A map from `u64` keys to copyable values with insertion-ordered,
/// duplicate-free keys.
pub struct NodeMap<V> {
    keys: Vec<u64>,
    vals: Vec<V>,
}

impl<V: Copy> NodeMap<V> {
    /// Keys are duplicate-free and each has a value.
    pub closed spec fn wf(&self) -> bool {
        &&& self.keys@.no_duplicates()
        &&& self.keys@.len() == self.vals@.len()
    }

    /// The keys, in insertion order.
    pub closed spec fn key_list(&self) -> Seq<u64> {
        self.keys@
    }

    pub open spec fn count(&self) -> nat {
        self.key_list().len()
    }

    pub open spec fn spec_contains(&self, k: u64) -> bool {
        self.key_list().contains(k)
    }

    /// The value bound to `k`; meaningful only when `k` is present.
    pub closed spec fn val_of(&self, k: u64) -> V {
        self.vals@[self.key_list().index_of(k)]
    }

    /// The key list of a well-formed map is duplicate-free.
    pub proof fn lemma_keys_distinct(&self)
        requires
            self.wf(),
        ensures
            self.key_list().no_duplicates(),
    {
    }

    pub fn new() -> (r: Self)
        ensures
            r.wf(),
            r.key_list() == Seq::<u64>::empty(),
    {
        NodeMap { keys: Vec::new(), vals: Vec::new() }
    }

    pub fn contains(&self, k: u64) -> (r: bool)
        requires
            self.wf(),
        ensures
            r == self.spec_contains(k),
    {
        crate::vec_contains_u64(&self.keys, k)
    }

    pub fn get(&self, k: u64) -> (r: V)
        requires
            self.wf(),
            self.spec_contains(k),
        ensures
            r == self.val_of(k),
    {
        let len = self.keys.len();
        let mut i: usize = 0;
        while i < len
            invariant
                self.wf(),
                self.spec_contains(k),
                i <= len,
                len == self.keys@.len(),
                forall|j: int| 0 <= j < i ==> self.keys@[j] != k,
            decreases len - i,
        {
            if self.keys[i] == k {
                proof {
                    let w = self.key_list().index_of(k);
                    assert(self.keys@[w] == k);
                    assert(w == i as int);
                }
                return self.vals[i];
            }
            i += 1;
        }
        proof {
            let w = choose|w: int| 0 <= w < self.keys@.len() && self.keys@[w] == k;
            assert(false);
        }
        // unreachable; any stored value would do
        self.vals[0]
    }

    /// Binds `k` to `v`, replacing any previous binding.
    pub fn set(&mut self, k: u64, v: V)
        requires
            old(self).wf(),
        ensures
            final(self).wf(),
            final(self).spec_contains(k),
            final(self).val_of(k) == v,
            forall|k2: u64|
                final(self).spec_contains(k2) <==> (old(self).spec_contains(k2) || k2 == k),
            forall|k2: u64|
                k2 != k && #[trigger] old(self).spec_contains(k2) ==> final(self).spec_contains(k2)
                    && final(self).val_of(k2) == old(self).val_of(k2),
    {
        let len = self.keys.len();
        let mut i: usize = 0;
        while i < len
            invariant
                self.wf(),
                *self == *old(self),
                i <= len,
                len == self.keys@.len(),
                forall|j: int| 0 <= j < i ==> self.keys@[j] != k,
            decreases len - i,
        {
            if self.keys[i] == k {
                self.vals[i] = v;
                proof {
                    let okeys = old(self).keys@;
                    assert(self.keys@ == okeys);
                    assert(self.val_of(k) == v) by {
                        let w = self.key_list().index_of(k);
                        assert(self.keys@[i as int] == k);
                        assert(self.keys@[w] == k);
                        assert(w == i as int);
                    }
                    assert forall|k2: u64|
                        k2 != k && #[trigger] old(self).spec_contains(k2) implies self
                        .spec_contains(k2) && self.val_of(k2) == old(self).val_of(k2) by {
                        let w = okeys.index_of(k2);
                        assert(okeys[w] == k2);
                        assert(w != i as int);
                        assert(self.vals@[w] == old(self).vals@[w]);
                    }
                }
                return ;
            }
            i += 1;
        }
        proof {
            assert(!self.spec_contains(k));
        }
        self.insert(k, v);
    }

    pub fn insert(&mut self, k: u64, v: V)
        requires
            old(self).wf(),
            !old(self).spec_contains(k),
        ensures
            final(self).wf(),
            final(self).key_list() == old(self).key_list().push(k),
            final(self).val_of(k) == v,
            forall|k2: u64|
                #[trigger] old(self).spec_contains(k2) ==> final(self).spec_contains(k2)
                    && final(self).val_of(k2) == old(self).val_of(k2),
            forall|k2: u64|
                final(self).spec_contains(k2) <==> (old(self).spec_contains(k2) || k2 == k),
    {
        self.keys.push(k);
        self.vals.push(v);
        proof {
            let okeys = old(self).keys@;
            let len = okeys.len() as int;
            assert(self.keys@[len] == k);
            assert(self.keys@.no_duplicates()) by {
                assert forall|a: int, b: int|
                    0 <= a < self.keys@.len() && 0 <= b < self.keys@.len() && a != b
                        implies self.keys@[a] != self.keys@[b] by {
                    if a < len && b < len {
                        assert(okeys[a] == self.keys@[a] && okeys[b] == self.keys@[b]);
                    } else if a == len && b < len {
                        if self.keys@[b] == k {
                            assert(okeys[b] == k);
                            assert(okeys.contains(k));
                        }
                    } else if b == len && a < len {
                        if self.keys@[a] == k {
                            assert(okeys[a] == k);
                            assert(okeys.contains(k));
                        }
                    }
                }
            }
            assert(self.val_of(k) == v) by {
                let w = self.key_list().index_of(k);
                assert(self.keys@[len] == k);
                assert(self.keys@[w] == k);
                if w < len {
                    assert(okeys[w] == k);
                    assert(okeys.contains(k));
                }
                assert(w == len);
            }
            assert forall|k2: u64| #[trigger] old(self).spec_contains(k2) implies final(self)
                .spec_contains(k2) && final(self).val_of(k2) == old(self).val_of(k2) by {
                let j = choose|j: int| 0 <= j < okeys.len() && okeys[j] == k2;
                assert(self.keys@[j] == k2);
                assert(self.keys@.contains(k2));
                let wo = okeys.index_of(k2);
                let wn = self.key_list().index_of(k2);
                assert(okeys[wo] == k2);
                assert(self.keys@[wn] == k2);
                assert(okeys[wo] == self.keys@[wo]);
                if wn < len {
                    assert(okeys[wn] == k2);
                    assert(wn == wo);
                } else {
                    assert(self.keys@[wn] == k);
                    assert(okeys.contains(k));
                }
                assert(self.vals@[wn] == old(self).vals@[wo]);
            }
            assert forall|k2: u64|
                final(self).spec_contains(k2) <==> (old(self).spec_contains(k2) || k2 == k) by {
                if self.keys@.contains(k2) {
                    let j = choose|j: int| 0 <= j < self.keys@.len() && self.keys@[j] == k2;
                    if j < len {
                        assert(okeys[j] == k2);
                        assert(okeys.contains(k2));
                    }
                }
                if okeys.contains(k2) {
                    let j = choose|j: int| 0 <= j < okeys.len() && okeys[j] == k2;
                    assert(self.keys@[j] == k2);
                    assert(self.keys@.contains(k2));
                }
                if k2 == k {
                    assert(self.keys@[len] == k2);
                    assert(self.keys@.contains(k2));
                }
            }
        }
    }
}

} // verus!
