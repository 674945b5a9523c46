//! Analysis of large directed graphs arising from genome-assembly
//! interchange data: DFS edge classification, acyclic-subgraph
//! extraction, weak connectivity, chain compaction, and substring
//! search by a polynomial rolling hash.

pub mod dag;
pub mod disjoint_set;
pub mod edge_types;
pub mod gfa;
pub mod graph;
pub mod node_map;
pub mod rolling_hash;
pub mod sequences;
pub mod undirected;

use vstd::prelude::*;

verus! {

/// Appends `v` to `s` unless it is already present; the sequence-level
/// model of inserting into an insertion-ordered set.
pub open spec fn push_unique(s: Seq<u64>, v: u64) -> Seq<u64> {
    if s.contains(v) {
        s
    } else {
        s.push(v)
    }
}

pub proof fn lemma_push_unique(s: Seq<u64>, v: u64)
    ensures
        forall|w: u64| push_unique(s, v).contains(w) <==> (s.contains(w) || w == v),
        push_unique(s, v).to_set() == s.to_set().insert(v),
        s.no_duplicates() ==> push_unique(s, v).no_duplicates(),
        forall|w: u64| s.contains(w) ==> push_unique(s, v).contains(w),
        push_unique(s, v).contains(v),
{
    if s.contains(v) {
        assert(push_unique(s, v).to_set() =~= s.to_set().insert(v));
    } else {
        assert forall|w: u64| #[trigger] push_unique(s, v).contains(w) implies (s.contains(w)
            || w == v) by {
            let i = choose|i: int| 0 <= i < s.push(v).len() && s.push(v)[i] == w;
            if i < s.len() {
                assert(s[i] == w);
            }
        }
        assert forall|w: u64| s.contains(w) implies #[trigger] push_unique(s, v).contains(w) by {
            let i = choose|i: int| 0 <= i < s.len() && s[i] == w;
            assert(s.push(v)[i] == w);
        }
        assert(s.push(v)[s.len() as int] == v);
        assert(push_unique(s, v).to_set() =~= s.to_set().insert(v));
    }
}

/// Membership test on a vector of vertex identifiers.
pub fn vec_contains_u64(s: &Vec<u64>, v: u64) -> (r: bool)
    ensures
        r == s@.contains(v),
{
    let mut i: usize = 0;
    while i < s.len()
        invariant
            i <= s@.len(),
            forall|j: int| 0 <= j < i ==> s@[j] != v,
        decreases s@.len() - i,
    {
        if s[i] == v {
            return true;
        }
        i += 1;
    }
    false
}

/// Copies a vector of vertex identifiers.
pub fn copy_vec_u64(s: &Vec<u64>) -> (r: Vec<u64>)
    ensures
        r@ == s@,
{
    let mut r: Vec<u64> = Vec::new();
    let mut i: usize = 0;
    while i < s.len()
        invariant
            i <= s@.len(),
            r@ == s@.subrange(0, i as int),
        decreases s@.len() - i,
    {
        r.push(s[i]);
        assert(r@ =~= s@.subrange(0, i + 1 as int));
        i += 1;
    }
    assert(r@ =~= s@);
    r
}

/// Appends every element of `src` to `dst`, in order.
pub fn extend_vec_u64(dst: &mut Vec<u64>, src: &Vec<u64>)
    ensures
        final(dst)@ == old(dst)@ + src@,
{
    let mut i: usize = 0;
    while i < src.len()
        invariant
            i <= src@.len(),
            dst@ == old(dst)@ + src@.subrange(0, i as int),
        decreases src@.len() - i,
    {
        dst.push(src[i]);
        assert(dst@ =~= old(dst)@ + src@.subrange(0, i + 1 as int));
        i += 1;
    }
    assert(dst@ =~= old(dst)@ + src@);
}

/// A duplicate-free sequence drawn from the members of another
/// sequence is no longer than it.
pub proof fn lemma_distinct_subset_len(sub: Seq<u64>, sup: Seq<u64>)
    requires
        sub.no_duplicates(),
        forall|v: u64| #[trigger] sub.contains(v) ==> sup.contains(v),
    ensures
        sub.len() <= sup.len(),
{
    sub.unique_seq_to_set();
    sup.lemma_cardinality_of_set();
    assert(sub.to_set().subset_of(sup.to_set())) by {
        assert forall|v: u64| sub.to_set().contains(v) implies sup.to_set().contains(v) by {
            assert(sub.contains(v));
        }
    }
    vstd::set_lib::lemma_len_subset(sub.to_set(), sup.to_set());
}

/// Pushing a fresh value onto a duplicate-free sequence keeps it
/// duplicate-free and adds exactly that value.
pub proof fn lemma_vec_push_distinct(s: Seq<u64>, v: u64)
    requires
        s.no_duplicates(),
        !s.contains(v),
    ensures
        s.push(v).no_duplicates(),
        forall|x: u64| s.push(v).contains(x) <==> (s.contains(x) || x == v),
{
    lemma_push_unique(s, v);
    assert(push_unique(s, v) == s.push(v));
}

/// On a duplicate-free sequence, removing a value removes exactly it.
pub proof fn lemma_remove_value_distinct(s: Seq<u64>, v: u64)
    requires
        s.no_duplicates(),
    ensures
        forall|x: u64| s.remove_value(v).contains(x) <==> (s.contains(x) && x != v),
        s.remove_value(v).no_duplicates(),
{
    s.index_of_first_ensures(v);
    match s.index_of_first(v) {
        Some(fi) => {
            s.remove_ensures(fi);
            let nr = s.remove(fi);
            assert forall|x: u64| nr.contains(x) implies (s.contains(x) && x != v) by {
                let k = choose|k: int| 0 <= k < nr.len() && nr[k] == x;
                if k < fi {
                    assert(s[k] == x);
                } else {
                    assert(s[k + 1] == x);
                }
            }
            assert forall|x: u64| s.contains(x) && x != v implies nr.contains(x) by {
                let k = choose|k: int| 0 <= k < s.len() && s[k] == x;
                if k < fi {
                    assert(nr[k] == x);
                } else {
                    assert(k != fi);
                    assert(nr[k - 1] == x);
                }
            }
            assert forall|a: int, b: int|
                0 <= a < nr.len() && 0 <= b < nr.len() && a != b implies nr[a] != nr[b] by {
                let oa = if a < fi {
                    a
                } else {
                    a + 1
                };
                let ob = if b < fi {
                    b
                } else {
                    b + 1
                };
                assert(nr[a] == s[oa]);
                assert(nr[b] == s[ob]);
            }
        },
        None => {
            assert(!s.contains(v));
        },
    }
}

/// Removes the first occurrence of `v` from a copy of `s`, if any.
pub fn remove_value_u64(s: &Vec<u64>, v: u64) -> (r: Vec<u64>)
    ensures
        r@ == s@.remove_value(v),
{
    let len = s.len();
    let mut idx: usize = 0;
    let mut found = false;
    while !found && idx < len
        invariant
            idx <= len,
            len == s@.len(),
            forall|j: int| 0 <= j < idx ==> s@[j] != v,
            found ==> idx < len && s@[idx as int] == v,
        decreases len - idx, (if found { 0int } else { 1int }),
    {
        if s[idx] == v {
            found = true;
        } else {
            idx += 1;
        }
    }
    proof {
        s@.index_of_first_ensures(v);
    }
    if !found {
        // not present
        let r = copy_vec_u64(s);
        proof {
            assert(!s@.contains(v));
        }
        r
    } else {
        let mut r: Vec<u64> = Vec::new();
        let mut i: usize = 0;
        while i < len
            invariant
                i <= len,
                idx < len,
                len == s@.len(),
                s@[idx as int] == v,
                i <= idx ==> r@ == s@.subrange(0, i as int),
                i > idx ==> r@ == s@.subrange(0, idx as int) + s@.subrange(idx + 1, i as int),
            decreases len - i,
        {
            if i != idx {
                r.push(s[i]);
            }
            proof {
                if i < idx {
                    assert(r@ =~= s@.subrange(0, i + 1 as int));
                } else if i == idx {
                    assert(r@ =~= s@.subrange(0, idx as int) + s@.subrange(
                        idx as int + 1,
                        i + 1 as int,
                    ));
                } else {
                    assert(r@ =~= s@.subrange(0, idx as int) + s@.subrange(
                        idx as int + 1,
                        i + 1 as int,
                    ));
                }
            }
            i += 1;
        }
        proof {
            assert(s@.contains(v)) by {
                assert(s@[idx as int] == v);
            }
            let fi = s@.index_of_first(v);
            assert(fi == Some(idx as int)) by {
                let k = fi->Some_0;
                assert(s@[k] == v);
                assert(forall|j: int| 0 <= j < k ==> s@[j] != v);
                if k < idx as int {
                    assert(s@[k] != v);
                } else if k > idx as int {
                    assert(s@[idx as int] != v);
                }
            }
            assert(r@ =~= s@.remove(idx as int));
        }
        r
    }
}

} // verus!
