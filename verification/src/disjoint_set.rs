//! A disjoint-set forest addressed by integer indices, with path
//! compression. Parent pointers only ever decrease, so every chain
//! reaches its root, and compression never changes any root.

use vstd::prelude::*;

verus! {

/// The root reached from `i` by following parent pointers; chains are
/// finite because a non-root parent is strictly smaller.
pub open spec fn root_of(s: Seq<usize>, i: int) -> int
    decreases i,
{
    if 0 <= i < s.len() && s[i] < i {
        root_of(s, s[i] as int)
    } else {
        i
    }
}

/// Two indices lie in the same set when their chains meet.
pub open spec fn same_set(s: Seq<usize>, a: int, b: int) -> bool {
    root_of(s, a) == root_of(s, b)
}

/// A root points at itself; every other parent pointer decreases.
pub open spec fn forest_wf(s: Seq<usize>) -> bool {
    forall|i: int| 0 <= i < s.len() ==> (#[trigger] s[i]) <= i
}

pub proof fn lemma_root_in_range(s: Seq<usize>, i: int)
    requires
        forest_wf(s),
        0 <= i < s.len(),
    ensures
        0 <= root_of(s, i) <= i < s.len(),
        s[root_of(s, i)] == root_of(s, i),
    decreases i,
{
    if s[i] < i {
        lemma_root_in_range(s, s[i] as int);
    }
}

/// Repointing `x` directly at its root leaves every root unchanged.
pub proof fn lemma_compress_preserves_roots(s: Seq<usize>, x: int, j: int)
    requires
        forest_wf(s),
        0 <= x < s.len(),
        0 <= j < s.len(),
    ensures
        root_of(s.update(x, root_of(s, x) as usize), j) == root_of(s, j),
    decreases j,
{
    lemma_root_in_range(s, x);
    let r = root_of(s, x);
    let s2 = s.update(x, r as usize);
    if j == x {
        if r < j {
            lemma_root_in_range(s, r);
            assert(s2[j] == r);
            assert(s2[r] == s[r]);
            assert(root_of(s2, j) == root_of(s2, r));
            assert(root_of(s2, r) == r) by {
                assert(s2[r] == r);
            }
        } else {
            assert(r == j);
            assert(s2[j] == j);
        }
    } else {
        if 0 <= j < s.len() && s[j] < j {
            assert(s2[j] == s[j]);
            lemma_compress_preserves_roots(s, x, s[j] as int);
        } else {
            assert(s2[j] == s[j]);
        }
    }
}

/// Repointing the root `ra` at the smaller root `rb` merges exactly
/// the two classes.
pub proof fn lemma_link_roots(s: Seq<usize>, ra: int, rb: int, j: int)
    requires
        forest_wf(s),
        0 <= rb < ra < s.len(),
        s[ra] == ra,
        s[rb] == rb,
        0 <= j < s.len(),
    ensures
        root_of(s.update(ra, rb as usize), j) == (if root_of(s, j) == ra {
            rb
        } else {
            root_of(s, j)
        }),
    decreases j,
{
    let s2 = s.update(ra, rb as usize);
    if j == ra {
        assert(s2[j] == rb);
        assert(s2[rb] == s[rb]);
        assert(root_of(s2, j) == root_of(s2, rb));
        assert(root_of(s2, rb) == rb) by {
            assert(s2[rb] == rb);
        }
        assert(root_of(s, j) == ra);
    } else {
        if 0 <= j < s.len() && s[j] < j {
            assert(s2[j] == s[j]);
            lemma_link_roots(s, ra, rb, s[j] as int);
        } else {
            assert(s2[j] == s[j]);
            assert(root_of(s, j) == j);
            assert(root_of(s2, j) == j);
        }
    }
}

/// A union-find forest over the indices `0 .. len`.
#[derive(Debug)]
pub struct DisjointSets {
    parent: Vec<usize>,
}

impl DisjointSets {
    pub closed spec fn spec_parents(&self) -> Seq<usize> {
        self.parent@
    }

    pub open spec fn wf(&self) -> bool {
        forest_wf(self.spec_parents())
    }

    pub open spec fn spec_len(&self) -> nat {
        self.spec_parents().len()
    }

    /// `n` singleton sets.
    pub fn new(n: usize) -> (r: DisjointSets)
        ensures
            r.wf(),
            r.spec_len() == n,
            forall|i: int| 0 <= i < n ==> root_of(r.spec_parents(), i) == i,
    {
        let mut parent: Vec<usize> = Vec::new();
        let mut i: usize = 0;
        while i < n
            invariant
                i <= n,
                parent@.len() == i,
                forall|j: int| 0 <= j < i ==> parent@[j] == j,
            decreases n - i,
        {
            parent.push(i);
            i += 1;
        }
        let r = DisjointSets { parent };
        proof {
            assert forall|j: int| 0 <= j < n implies root_of(r.spec_parents(), j) == j by {
                assert(r.spec_parents()[j] == j);
            }
        }
        r
    }

    /// The root of `i`'s set, compressing the chain behind it.
    pub fn find(&mut self, i: usize) -> (r: usize)
        requires
            old(self).wf(),
            i < old(self).spec_len(),
        ensures
            final(self).wf(),
            final(self).spec_len() == old(self).spec_len(),
            r == root_of(old(self).spec_parents(), i as int),
            forall|j: int|
                0 <= j < old(self).spec_len() ==> root_of(final(self).spec_parents(), j)
                    == root_of(old(self).spec_parents(), j),
            forall|j: int|
                i < j < old(self).spec_len() ==> final(self).spec_parents()[j] == old(
                    self,
                ).spec_parents()[j],
        decreases i,
    {
        let p = self.parent[i];
        if p == i {
            proof {
                assert(root_of(self.spec_parents(), i as int) == i);
            }
            return i;
        }
        proof {
            assert(self.spec_parents()[i as int] < i);
        }
        let root = self.find(p);
        let ghost mid = self.spec_parents();
        self.parent[i] = root;
        proof {
            assert(root_of(mid, i as int) == root_of(mid, p as int)) by {
                assert(mid[i as int] == old(self).spec_parents()[i as int]);
            }
            assert(root == root_of(mid, i as int));
            assert(self.spec_parents() == mid.update(i as int, root as usize)) by {
                assert(self.spec_parents() =~= mid.update(i as int, root));
            }
            lemma_root_in_range(mid, i as int);
            assert forall|j: int| 0 <= j < old(self).spec_len() implies root_of(
                self.spec_parents(),
                j,
            ) == root_of(old(self).spec_parents(), j) by {
                lemma_compress_preserves_roots(mid, i as int, j);
            }
            assert(forest_wf(self.spec_parents())) by {
                assert forall|k: int| 0 <= k < self.spec_parents().len() implies (
                #[trigger] self.spec_parents()[k]) <= k by {
                    if k != i {
                        assert(self.spec_parents()[k] == mid[k]);
                    }
                }
            }
        }
        root
    }

    /// Merges the sets of `a` and `b`; afterwards two indices share a
    /// set exactly when they already did, or when one sat with `a` and
    /// the other with `b`.
    pub fn union(&mut self, a: usize, b: usize)
        requires
            old(self).wf(),
            a < old(self).spec_len(),
            b < old(self).spec_len(),
        ensures
            final(self).wf(),
            final(self).spec_len() == old(self).spec_len(),
            forall|j: int, k: int|
                0 <= j < old(self).spec_len() && 0 <= k < old(self).spec_len() ==> (same_set(
                    final(self).spec_parents(),
                    j,
                    k,
                ) <==> (same_set(old(self).spec_parents(), j, k) || (same_set(
                    old(self).spec_parents(),
                    j,
                    a as int,
                ) && same_set(old(self).spec_parents(), k, b as int)) || (same_set(
                    old(self).spec_parents(),
                    j,
                    b as int,
                ) && same_set(old(self).spec_parents(), k, a as int)))),
            same_set(final(self).spec_parents(), a as int, b as int),
    {
        let ra = self.find(a);
        let rb = self.find(b);
        let ghost mid = self.spec_parents();
        proof {
            lemma_root_in_range(old(self).spec_parents(), a as int);
            lemma_root_in_range(old(self).spec_parents(), b as int);
            assert(root_of(mid, a as int) == ra && root_of(mid, b as int) == rb);
            lemma_root_in_range(mid, a as int);
            lemma_root_in_range(mid, b as int);
        }
        if ra == rb {
            proof {
                assert(same_set(self.spec_parents(), a as int, b as int));
            }
            return ;
        }
        let (hi, lo) = if ra > rb {
            (ra, rb)
        } else {
            (rb, ra)
        };
        proof {
            assert(mid[root_of(mid, a as int)] == root_of(mid, a as int));
            assert(mid[root_of(mid, b as int)] == root_of(mid, b as int));
            assert(mid[hi as int] == hi && mid[lo as int] == lo);
        }
        self.parent[hi] = lo;
        proof {
            assert(self.spec_parents() == mid.update(hi as int, lo as usize)) by {
                assert(self.spec_parents() =~= mid.update(hi as int, lo));
            }
            assert(forest_wf(self.spec_parents())) by {
                assert forall|k: int| 0 <= k < self.spec_parents().len() implies (
                #[trigger] self.spec_parents()[k]) <= k by {
                    if k != hi {
                        assert(self.spec_parents()[k] == mid[k]);
                    }
                }
            }
            assert forall|j: int, k: int|
                0 <= j < old(self).spec_len() && 0 <= k < old(self).spec_len() implies (same_set(
                self.spec_parents(),
                j,
                k,
            ) <==> (same_set(old(self).spec_parents(), j, k) || (same_set(
                old(self).spec_parents(),
                j,
                a as int,
            ) && same_set(old(self).spec_parents(), k, b as int)) || (same_set(
                old(self).spec_parents(),
                j,
                b as int,
            ) && same_set(old(self).spec_parents(), k, a as int)))) by {
                lemma_link_roots(mid, hi as int, lo as int, j);
                lemma_link_roots(mid, hi as int, lo as int, k);
                lemma_link_roots(mid, hi as int, lo as int, a as int);
                lemma_link_roots(mid, hi as int, lo as int, b as int);
            }
            assert(same_set(self.spec_parents(), a as int, b as int)) by {
                lemma_link_roots(mid, hi as int, lo as int, a as int);
                lemma_link_roots(mid, hi as int, lo as int, b as int);
            }
        }
    }
}

} // verus!
