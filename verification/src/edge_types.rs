//! DFS edge classification: a single iterative depth-first pass over
//! the whole graph assigns every edge one of the four classical kinds,
//! and stripping the back edges yields an acyclic graph.

use vstd::prelude::*;

use crate::graph::{acyclic, edge_monotone, is_path, AdjacencyGraph};
use crate::node_map::NodeMap;
use crate::lemma_distinct_subset_len;

verus! {

/// How a directed edge relates to the depth-first forest that
/// discovered it.
#[derive(Debug, Hash, PartialEq, Eq, Structural, Clone, Copy)]
pub enum EdgeType {
    TreeEdge,
    BackEdge,
    ForwardEdge,
    CrossEdge,
}

/// A finite map from edges to their classification, with
/// insertion-ordered, duplicate-free keys.
#[derive(Debug)]
pub struct EdgeTypes {
    entries: Vec<((u64, u64), EdgeType)>,
}

/// The index of the last entry keyed by `(f, t)`, or `-1`.
pub open spec fn pair_index(s: Seq<((u64, u64), EdgeType)>, f: u64, t: u64) -> int
    decreases s.len(),
{
    if s.len() == 0 {
        -1
    } else if s.last().0 == (f, t) {
        s.len() - 1
    } else {
        pair_index(s.drop_last(), f, t)
    }
}

pub proof fn lemma_pair_index(s: Seq<((u64, u64), EdgeType)>, f: u64, t: u64)
    ensures
        -1 <= pair_index(s, f, t) < s.len(),
        pair_index(s, f, t) >= 0 ==> s[pair_index(s, f, t)].0 == (f, t),
        forall|j: int| pair_index(s, f, t) < j < s.len() ==> s[j].0 != (f, t),
    decreases s.len(),
{
    if s.len() > 0 && s.last().0 != (f, t) {
        lemma_pair_index(s.drop_last(), f, t);
        let pi = pair_index(s, f, t);
        assert forall|j: int| pi < j < s.len() implies s[j].0 != (f, t) by {
            if j < s.len() - 1 {
                assert(s.drop_last()[j] == s[j]);
            }
        }
        if pi >= 0 {
            assert(s.drop_last()[pi] == s[pi]);
        }
    }
}

impl EdgeTypes {
    pub closed spec fn entry_seq(&self) -> Seq<((u64, u64), EdgeType)> {
        self.entries@
    }

    /// The classification of `(f, t)`, if that edge has one.
    pub closed spec fn spec_get(&self, f: u64, t: u64) -> Option<EdgeType> {
        let pi = pair_index(self.entries@, f, t);
        if pi >= 0 {
            Some(self.entries@[pi].1)
        } else {
            None
        }
    }

    pub open spec fn spec_len(&self) -> nat {
        self.entry_seq().len()
    }

    /// Entry keys are duplicate-free.
    pub closed spec fn wf(&self) -> bool {
        forall|a: int, b: int|
            0 <= a < self.entries@.len() && 0 <= b < self.entries@.len() && a != b
                ==> (#[trigger] self.entries@[a]).0 != (#[trigger] self.entries@[b]).0
    }

    /// Each entry records its own classification.
    pub proof fn lemma_entries_get(&self)
        requires
            self.wf(),
        ensures
            forall|j: int|
                0 <= j < self.entry_seq().len() ==> self.spec_get(
                    (#[trigger] self.entry_seq()[j]).0.0,
                    self.entry_seq()[j].0.1,
                ) == Some(self.entry_seq()[j].1),
    {
        assert forall|j: int| 0 <= j < self.entry_seq().len() implies self.spec_get(
            (#[trigger] self.entry_seq()[j]).0.0,
            self.entry_seq()[j].0.1,
        ) == Some(self.entry_seq()[j].1) by {
            let f = self.entries@[j].0.0;
            let t = self.entries@[j].0.1;
            lemma_pair_index(self.entries@, f, t);
            let pi = pair_index(self.entries@, f, t);
            assert(self.entries@[j].0 == (f, t));
            assert(pi >= j);
            if pi != j {
                assert(self.entries@[pi].0 != self.entries@[j].0);
            }
        }
    }

    /// A classified edge stands somewhere in the entry list.
    pub proof fn lemma_get_entry(&self, f: u64, t: u64)
        requires
            self.spec_get(f, t) is Some,
        ensures
            exists|j: int|
                0 <= j < self.entry_seq().len() && #[trigger] self.entry_seq()[j] == (
                (f, t),
                self.spec_get(f, t)->Some_0,
            ),
    {
        lemma_pair_index(self.entries@, f, t);
        let pi = pair_index(self.entries@, f, t);
        assert(self.entry_seq()[pi] == ((f, t), self.spec_get(f, t)->Some_0));
    }

    pub fn new() -> (r: EdgeTypes)
        ensures
            r.wf(),
            r.entry_seq() == Seq::<((u64, u64), EdgeType)>::empty(),
            forall|f: u64, t: u64| #[trigger] r.spec_get(f, t) is None,
    {
        let r = EdgeTypes { entries: Vec::new() };
        proof {
            assert forall|f: u64, t: u64| #[trigger] r.spec_get(f, t) is None by {
                lemma_pair_index(r.entries@, f, t);
            }
        }
        r
    }

    /// How many edges are classified.
    pub fn len(&self) -> (r: usize)
        ensures
            r == self.spec_len(),
    {
        self.entries.len()
    }

    /// The entry at position `i`, in insertion order.
    pub fn entry_at(&self, i: usize) -> (r: ((u64, u64), EdgeType))
        requires
            i < self.spec_len(),
        ensures
            r == self.entry_seq()[i as int],
    {
        self.entries[i]
    }

    /// Looks up the classification of `(from, to)`.
    pub fn get(&self, from: u64, to: u64) -> (r: Option<EdgeType>)
        requires
            self.wf(),
        ensures
            r == self.spec_get(from, to),
    {
        let len = self.entries.len();
        let mut i: usize = 0;
        proof {
            lemma_pair_index(self.entries@, from, to);
        }
        while i < len
            invariant
                self.wf(),
                i <= len,
                len == self.entries@.len(),
                forall|j: int| 0 <= j < i ==> (#[trigger] self.entries@[j]).0 != (from, to),
                -1 <= pair_index(self.entries@, from, to) < len,
                pair_index(self.entries@, from, to) >= 0 ==> self.entries@[pair_index(
                    self.entries@,
                    from,
                    to,
                )].0 == (from, to),
                forall|j: int|
                    pair_index(self.entries@, from, to) < j < len ==> self.entries@[j].0 != (
                    from,
                    to,
                ),
            decreases len - i,
        {
            let e = self.entries[i];
            if e.0.0 == from && e.0.1 == to {
                proof {
                    let pi = pair_index(self.entries@, from, to);
                    assert(self.entries@[i as int].0 == (from, to));
                    assert(pi >= i);
                    if pi != i {
                        assert(self.entries@[pi].0 != self.entries@[i as int].0);
                    }
                }
                return Some(e.1);
            }
            i += 1;
        }
        None
    }

    /// Records the classification of a fresh edge.
    pub fn insert(&mut self, from: u64, to: u64, ty: EdgeType)
        requires
            old(self).wf(),
            old(self).spec_get(from, to) is None,
        ensures
            final(self).wf(),
            final(self).entry_seq() == old(self).entry_seq().push(((from, to), ty)),
            final(self).spec_get(from, to) == Some(ty),
            forall|f: u64, t: u64|
                (f, t) != (from, to) ==> final(self).spec_get(f, t) == old(self).spec_get(f, t),
    {
        proof {
            lemma_pair_index(old(self).entries@, from, to);
        }
        self.entries.push(((from, to), ty));
        proof {
            let os = old(self).entries@;
            let ns = self.entries@;
            let len = os.len() as int;
            assert(ns.last().0 == (from, to));
            assert(self.spec_get(from, to) == Some(ty));
            assert forall|f: u64, t: u64| (f, t) != (from, to) implies self.spec_get(f, t)
                == old(self).spec_get(f, t) by {
                assert(ns.drop_last() =~= os);
                assert(pair_index(ns, f, t) == pair_index(os, f, t));
                lemma_pair_index(os, f, t);
                let pi = pair_index(os, f, t);
                if pi >= 0 {
                    assert(ns[pi] == os[pi]);
                }
            }
            assert forall|a: int, b: int|
                0 <= a < ns.len() && 0 <= b < ns.len() && a != b implies (#[trigger] ns[a]).0 != (
            #[trigger] ns[b]).0 by {
                if a < len && b < len {
                    assert(os[a] == ns[a] && os[b] == ns[b]);
                } else if a == len && b < len {
                    if ns[b].0 == (from, to) {
                        lemma_pair_index(os, from, to);
                        assert(os[b].0 == (from, to));
                    }
                } else if b == len && a < len {
                    if ns[a].0 == (from, to) {
                        lemma_pair_index(os, from, to);
                        assert(os[a].0 == (from, to));
                    }
                }
            }
        }
    }
}

/// Whether `types` classifies the edge `(f, t)` as anything but a
/// back edge.
pub open spec fn classified_non_back(types: EdgeTypes, f: u64, t: u64) -> bool {
    types.spec_get(f, t) is Some && types.spec_get(f, t) != Some(EdgeType::BackEdge)
}

/// `m` numbers the vertices so that every edge not classified as a
/// back edge descends: its target's number is below its source's.
/// DFS finish times, negated, are such a numbering.
pub open spec fn respects_finish_order(types: EdgeTypes, m: Map<u64, int>) -> bool {
    forall|f: u64, t: u64|
        #[trigger] classified_non_back(types, f, t) ==> m.contains_key(f) && m.contains_key(t)
            && m[t] < m[f]
}

/// The vertices on the work stack, outermost first.
pub open spec fn stack_nodes(s: Seq<(u64, usize)>) -> Seq<u64> {
    s.map_values(|p: (u64, usize)| p.0)
}

/// Neighbor indices still to be scanned, summed over all frames.
spec fn frames_work(g: AdjacencyGraph, s: Seq<(u64, usize)>) -> int
    decreases s.len(),
{
    if s.len() == 0 {
        0
    } else {
        frames_work(g, s.drop_last()) + g.nbrs(s.last().0).len() - s.last().1
    }
}

/// A timestamp table over the vertices of `g` has at most one entry
/// per vertex.
proof fn lemma_map_count_bound(g: AdjacencyGraph, m: NodeMap<u128>)
    requires
        m.wf(),
        forall|v: u64| #[trigger] m.spec_contains(v) ==> g.node_set().contains(v),
    ensures
        m.count() <= g.node_seq().len(),
{
    m.lemma_keys_distinct();
    assert forall|k: u64| #[trigger] m.key_list().contains(k) implies g.node_seq().contains(k) by {
        assert(m.spec_contains(k));
        assert(g.node_set().contains(k));
    }
    lemma_distinct_subset_len(m.key_list(), g.node_seq());
}

proof fn lemma_frames_work_nonneg(g: AdjacencyGraph, s: Seq<(u64, usize)>)
    requires
        forall|j: int| 0 <= j < s.len() ==> (#[trigger] s[j]).1 <= g.nbrs(s[j].0).len(),
    ensures
        frames_work(g, s) >= 0,
    decreases s.len(),
{
    if s.len() > 0 {
        assert forall|j: int| 0 <= j < s.drop_last().len() implies (#[trigger] s.drop_last()[j]).1
            <= g.nbrs(s.drop_last()[j].0).len() by {
            assert(s.drop_last()[j] == s[j]);
        }
        lemma_frames_work_nonneg(g, s.drop_last());
        assert(s[s.len() - 1] == s.last());
    }
}

/// On an acyclic graph nothing is classified as a back edge: a back
/// edge would close a cycle, which the witness numbering rules out.
proof fn lemma_acyclic_no_back_edges(g: AdjacencyGraph, types: EdgeTypes)
    requires
        forall|f: u64, t: u64| (#[trigger] types.spec_get(f, t)) is Some ==> g.spec_has_edge(f, t),
        forall|f: u64, t: u64|
            types.spec_get(f, t) == Some(EdgeType::BackEdge) ==> crate::graph::reaches(g, t, f),
        acyclic(g),
    ensures
        forall|f: u64, t: u64| #[trigger] types.spec_get(f, t) != Some(EdgeType::BackEdge),
{
    assert forall|f: u64, t: u64| #[trigger] types.spec_get(f, t) != Some(
        EdgeType::BackEdge,
    ) by {
        if types.spec_get(f, t) == Some(EdgeType::BackEdge) {
            let p = choose|p: Seq<u64>|
                crate::graph::is_path(g, p) && p.first() == t && p.last() == f;
            assert(g.spec_has_edge(f, t));
            let q = p.push(t);
            assert(crate::graph::is_path(g, q)) by {
                assert forall|i: int| 0 <= i < q.len() - 1 implies g.spec_has_edge(
                    #[trigger] q[i],
                    q[i + 1],
                ) by {
                    if i < p.len() - 1 {
                        assert(q[i] == p[i] && q[i + 1] == p[i + 1]);
                        assert(g.spec_has_edge(p[i], p[i + 1]));
                    } else {
                        assert(q[i] == p.last() && q[i + 1] == t);
                    }
                }
            }
            assert(q.first() == t && q.last() == t && q.len() >= 2);
            crate::graph::lemma_acyclic_no_cycle(g, q);
        }
    }
}

/// `t` has no incoming tree edge in `r`: it was not discovered
/// through a scanned edge, so it can only be a root of the DFS forest.
pub open spec fn tree_parentless(r: EdgeTypes, t: u64) -> bool {
    forall|f: u64| #[trigger] r.spec_get(f, t) != Some(EdgeType::TreeEdge)
}

/// The discovery and finish stamps that witness a classification:
/// every vertex carries one of each, the discovery stamps are
/// distinct, and each edge's kind matches the order of its endpoints'
/// stamps. A vertex without an incoming tree edge is a root of the
/// DFS forest: everything discovered before it has finished before
/// it, and nothing precedes the first vertex of the node set.
pub open spec fn classification_maps(
    g: AdjacencyGraph,
    r: EdgeTypes,
    disc: Map<u64, int>,
    fin: Map<u64, int>,
) -> bool {
    &&& forall|v: u64| #[trigger] disc.contains_key(v) <==> g.node_set().contains(v)
    &&& forall|v: u64| #[trigger] fin.contains_key(v) <==> g.node_set().contains(v)
    &&& forall|v: u64| #[trigger] disc.contains_key(v) ==> disc[v] < fin[v]
    &&& forall|v: u64, w: u64|
        #![trigger disc[v], disc[w]]
        disc.contains_key(v) && disc.contains_key(w) && v != w ==> disc[v] != disc[w]
    &&& forall|f: u64, t: u64|
        (r.spec_get(f, t) == Some(EdgeType::TreeEdge) || r.spec_get(f, t) == Some(
            EdgeType::ForwardEdge,
        )) ==> disc[f] < disc[t] && fin[t] < fin[f]
    &&& forall|f: u64, t: u64| r.spec_get(f, t) == Some(EdgeType::BackEdge) ==> disc[t] <= disc[f]
    &&& forall|f: u64, t: u64|
        r.spec_get(f, t) == Some(EdgeType::CrossEdge) ==> disc[t] < disc[f] && fin[t] < fin[f]
    &&& forall|u: u64, a: u64, b: u64|
        r.spec_get(u, a) == Some(EdgeType::TreeEdge) && r.spec_get(u, b) == Some(
            EdgeType::TreeEdge,
        ) && g.nbrs(u).index_of(a) < g.nbrs(u).index_of(b) ==> disc[a] < disc[b] && fin[a]
            < disc[b]
    &&& forall|x: u64, y: u64|
        #![trigger disc[y], disc[x]]
        disc.contains_key(x) && tree_parentless(r, x) && disc.contains_key(y) && disc[y] < disc[x]
            ==> fin[y] < disc[x]
    &&& g.node_seq().len() > 0 ==> forall|v: u64|
        #[trigger] disc.contains_key(v) ==> disc[g.node_seq()[0]] <= disc[v]
}

/// `r` is a depth-first classification of `g`: total over exactly the
/// edges, back edges close cycles, the other edges descend along some
/// finish numbering, tree parents are unique, forward edges shadow a
/// tree edge into their target, and discovery/finish stamps witness
/// every kind.
pub open spec fn classifies(g: AdjacencyGraph, r: EdgeTypes) -> bool {
    &&& r.wf()
    &&& forall|f: u64, t: u64| (#[trigger] r.spec_get(f, t)) is Some <==> g.spec_has_edge(f, t)
    &&& forall|f: u64, t: u64|
        r.spec_get(f, t) == Some(EdgeType::BackEdge) ==> crate::graph::reaches(g, t, f)
    &&& exists|m: Map<u64, int>| #[trigger] respects_finish_order(r, m)
    &&& forall|f1: u64, f2: u64, t: u64|
        r.spec_get(f1, t) == Some(EdgeType::TreeEdge) && r.spec_get(f2, t) == Some(
            EdgeType::TreeEdge,
        ) ==> f1 == f2
    &&& forall|f: u64, t: u64|
        r.spec_get(f, t) == Some(EdgeType::ForwardEdge) ==> exists|w: u64|
            w != f && #[trigger] r.spec_get(w, t) == Some(EdgeType::TreeEdge)
    &&& exists|dm: Map<u64, int>, fm: Map<u64, int>| #[trigger] classification_maps(g, r, dm, fm)
}

/// The state facts that hold between any two steps of the
/// classification pass, with or without an active work stack.
spec fn classify_inv(
    g: AdjacencyGraph,
    disc: NodeMap<u128>,
    fin: NodeMap<u128>,
    types: EdgeTypes,
    time: u128,
) -> bool {
    &&& g.wf()
    &&& disc.wf()
    &&& fin.wf()
    &&& types.wf()
    &&& forall|v: u64| #[trigger] fin.spec_contains(v) ==> disc.spec_contains(v)
    &&& forall|v: u64| #[trigger] disc.spec_contains(v) ==> g.node_set().contains(v)
    &&& time == disc.count() + fin.count()
    &&& forall|v: u64| #[trigger] fin.spec_contains(v) ==> fin.val_of(v) <= time
    &&& forall|v: u64| #[trigger] disc.spec_contains(v) ==> disc.val_of(v) <= time
    &&& forall|v: u64, w: u64|
        #![trigger disc.val_of(v), disc.val_of(w)]
        disc.spec_contains(v) && disc.spec_contains(w) && v != w ==> disc.val_of(v)
            != disc.val_of(w)
    &&& forall|v: u64|
        #[trigger] fin.spec_contains(v) ==> disc.val_of(v) < fin.val_of(v)
    &&& forall|f: u64, t: u64| (#[trigger] types.spec_get(f, t)) is Some ==> g.spec_has_edge(f, t)
    &&& forall|f: u64, t: u64|
        (#[trigger] types.spec_get(f, t)) is Some ==> disc.spec_contains(f) && disc.spec_contains(
            t,
        )
    &&& forall|v: u64, idx: int|
        fin.spec_contains(v) && 0 <= idx < g.nbrs(v).len() ==> (#[trigger] types.spec_get(
            v,
            g.nbrs(v)[idx],
        )) is Some
    &&& forall|f: u64, t: u64|
        types.spec_get(f, t) == Some(EdgeType::BackEdge) ==> crate::graph::reaches(g, t, f)
    &&& forall|f: u64, t: u64|
        #[trigger] classified_non_back(types, f, t) && fin.spec_contains(f) ==> fin.spec_contains(
            t,
        ) && fin.val_of(t) < fin.val_of(f)
    &&& forall|f: u64, t: u64|
        (types.spec_get(f, t) == Some(EdgeType::TreeEdge) || types.spec_get(f, t) == Some(
            EdgeType::ForwardEdge,
        )) ==> disc.val_of(f) < disc.val_of(t)
    &&& forall|f: u64, t: u64|
        types.spec_get(f, t) == Some(EdgeType::CrossEdge) ==> disc.val_of(t) < disc.val_of(f)
    &&& forall|f: u64, t: u64|
        types.spec_get(f, t) == Some(EdgeType::BackEdge) ==> disc.val_of(t) <= disc.val_of(f)
    &&& forall|f1: u64, f2: u64, t: u64|
        types.spec_get(f1, t) == Some(EdgeType::TreeEdge) && types.spec_get(f2, t) == Some(
            EdgeType::TreeEdge,
        ) ==> f1 == f2
    &&& forall|f: u64, t: u64|
        types.spec_get(f, t) == Some(EdgeType::ForwardEdge) ==> exists|w: u64|
            w != f && #[trigger] types.spec_get(w, t) == Some(EdgeType::TreeEdge)
    &&& forall|u: u64, a: u64, b: u64|
        types.spec_get(u, a) == Some(EdgeType::TreeEdge) && types.spec_get(u, b) == Some(
            EdgeType::TreeEdge,
        ) && g.nbrs(u).index_of(a) < g.nbrs(u).index_of(b) ==> fin.spec_contains(a)
            && fin.val_of(a) < disc.val_of(b)
    &&& forall|x: u64, y: u64|
        #![trigger disc.val_of(y), disc.val_of(x)]
        disc.spec_contains(x) && tree_parentless(types, x) && disc.spec_contains(y)
            && disc.val_of(y) < disc.val_of(x) ==> fin.spec_contains(y) && fin.val_of(y)
            < disc.val_of(x)
}

impl AdjacencyGraph {
    /// Classifies every edge by one iterative DFS pass over the whole
    /// node set, with a work stack of (vertex, next-neighbor-index)
    /// frames and one shared, interleaved counter for discovery and
    /// finish timestamps.
    ///
    /// The classification is total (exactly the edges of the graph are
    /// classified), every back edge closes a cycle (its target already
    /// reaches its source), the edges not classified as back edges
    /// descend along some vertex numbering, and an acyclic graph has
    /// no back edge at all.
    #[verifier::rlimit(100)]
    pub fn compute_edge_types(&self) -> (r: EdgeTypes)
        requires
            self.wf(),
        ensures
            r.wf(),
            forall|f: u64, t: u64| (#[trigger] r.spec_get(f, t)) is Some <==> self.spec_has_edge(f, t),
            forall|f: u64, t: u64|
                r.spec_get(f, t) == Some(EdgeType::BackEdge) ==> crate::graph::reaches(
                    *self,
                    t,
                    f,
                ),
            exists|m: Map<u64, int>| #[trigger] respects_finish_order(r, m),
            acyclic(*self) ==> forall|f: u64, t: u64|
                #[trigger] r.spec_get(f, t) != Some(EdgeType::BackEdge),
            forall|f1: u64, f2: u64, t: u64|
                r.spec_get(f1, t) == Some(EdgeType::TreeEdge) && r.spec_get(f2, t) == Some(
                    EdgeType::TreeEdge,
                ) ==> f1 == f2,
            forall|f: u64, t: u64|
                r.spec_get(f, t) == Some(EdgeType::ForwardEdge) ==> exists|w: u64|
                    w != f && #[trigger] r.spec_get(w, t) == Some(EdgeType::TreeEdge),
            exists|dm: Map<u64, int>, fm: Map<u64, int>|
                #[trigger] classification_maps(*self, r, dm, fm),
            classifies(*self, r),
    {
        let ghost g = *self;
        let nodes_vec = self.nodes();
        let nlen = nodes_vec.len();
        let mut types = EdgeTypes::new();
        let mut disc: NodeMap<u128> = NodeMap::new();
        let mut fin: NodeMap<u128> = NodeMap::new();
        let mut time: u128 = 0;
        let mut n: usize = 0;
        proof {
            self.lemma_wf_facts();
        }
        while n < nlen
            invariant
                self.wf(),
                g == *self,
                nodes_vec@ == g.node_seq(),
                nlen == nodes_vec@.len(),
                n <= nlen,
                classify_inv(g, disc, fin, types, time),
                classify_open_inv(g, disc, fin, types, Seq::<(u64, usize)>::empty()),
                forall|j: int| 0 <= j < n ==> disc.spec_contains(#[trigger] g.node_seq()[j]),
                n == 0 ==> disc.count() == 0 && fin.count() == 0,
                n > 0 && nlen > 0 ==> disc.spec_contains(g.node_seq()[0]) && (forall|v: u64|
                    #[trigger] disc.spec_contains(v) ==> disc.val_of(g.node_seq()[0])
                        <= disc.val_of(v)),
            decreases nlen - n,
        {
            let start = nodes_vec[n];
            if !disc.contains(start) {
                proof {
                    self.lemma_wf_facts();
                    lemma_map_count_bound(g, disc);
                    lemma_map_count_bound(g, fin);
                    assert(time < u128::MAX);
                    assert(g.node_set().contains(start)) by {
                        assert(g.node_seq()[n as int] == start);
                    }
                }
                time = time + 1;
                disc.insert(start, time);
                let mut stack: Vec<(u64, usize)> = Vec::new();
                stack.push((start, 0));
                proof {
                    let open = stack_nodes(stack@);
                    assert(open.len() == 1 && open[0] == start);
                    assert(classify_open_inv(g, disc, fin, types, stack@)) by {
                        assert forall|f: u64, t: u64| (#[trigger] types.spec_get(f, t)) is Some
                            implies fin.spec_contains(f) || (open.contains(f) && g.nbrs(
                            f,
                        ).index_of(t) < stack@[open.index_of(f)].1) by {
                            assert(fin.spec_contains(f));
                        }
                        assert forall|f: u64, t: u64|
                            #[trigger] classified_non_back(types, f, t) && !fin.spec_contains(t)
                            implies exists|ja: int, jb: int|
                                0 <= ja < jb < stack@.len() && #[trigger] open[ja] == f
                                    && #[trigger] open[jb] == t by {
                            assert(fin.spec_contains(f));
                            assert(fin.spec_contains(t));
                        }
                    }
                }
                self.classify_from(Ghost(g), &mut types, &mut disc, &mut fin, &mut time, stack);
            }
            n += 1;
        }
        proof {
            self.lemma_classification_end(g, types, disc, fin, time);
        }
        types
    }

    /// Packages the end state of the classification pass: every edge
    /// classified, the finish numbering descending along non-back
    /// edges, no back edge on an acyclic graph, and the recorded
    /// stamps witnessing the classification.
    #[verifier::rlimit(100)]
    proof fn lemma_classification_end(
        &self,
        g: AdjacencyGraph,
        types: EdgeTypes,
        disc: NodeMap<u128>,
        fin: NodeMap<u128>,
        time: u128,
    )
        requires
            self.wf(),
            g == *self,
            classify_inv(g, disc, fin, types, time),
            classify_open_inv(g, disc, fin, types, Seq::<(u64, usize)>::empty()),
            forall|j: int|
                0 <= j < g.node_seq().len() ==> disc.spec_contains(#[trigger] g.node_seq()[j]),
            g.node_seq().len() > 0 ==> disc.spec_contains(g.node_seq()[0]) && (forall|v: u64|
                #[trigger] disc.spec_contains(v) ==> disc.val_of(g.node_seq()[0])
                    <= disc.val_of(v)),
        ensures
            forall|f: u64, t: u64| (#[trigger] types.spec_get(f, t)) is Some <==> g.spec_has_edge(
                f,
                t,
            ),
            exists|m: Map<u64, int>| #[trigger] respects_finish_order(types, m),
            acyclic(g) ==> forall|f: u64, t: u64|
                #[trigger] types.spec_get(f, t) != Some(EdgeType::BackEdge),
            exists|dm: Map<u64, int>, fm: Map<u64, int>|
                #[trigger] classification_maps(g, types, dm, fm),
    {
        self.lemma_wf_facts();
        // every vertex of the graph is finished
        assert forall|v: u64| g.node_set().contains(v) implies fin.spec_contains(v) by {
            let j = choose|j: int| 0 <= j < g.node_seq().len() && g.node_seq()[j] == v;
            assert(disc.spec_contains(g.node_seq()[j]));
            assert(disc.spec_contains(v));
            if !fin.spec_contains(v) {
                assert(stack_nodes(Seq::<(u64, usize)>::empty()).contains(v));
            }
        }
        // totality: every edge got classified
        assert forall|f: u64, t: u64| g.spec_has_edge(f, t) implies (#[trigger] types.spec_get(
            f,
            t,
        )) is Some by {
            assert(g.nbrs(f).contains(t));
            assert(g.node_set().contains(f));
            assert(fin.spec_contains(f));
            let idx = choose|idx: int| 0 <= idx < g.nbrs(f).len() && g.nbrs(f)[idx] == t;
            assert((types.spec_get(f, g.nbrs(f)[idx])) is Some);
        }
        // the finish numbering, negated, descends along non-back edges
        let m = Map::<u64, int>::new(
            |v: u64| fin.spec_contains(v),
            |v: u64| fin.val_of(v) as int,
        );
        assert forall|f: u64, t: u64| #[trigger] classified_non_back(types, f, t) implies m
            .contains_key(f) && m.contains_key(t) && m[t] < m[f] by {
            assert((types.spec_get(f, t)) is Some);
            assert(g.spec_has_edge(f, t));
            assert(g.node_set().contains(f));
            assert(fin.spec_contains(f));
            assert(fin.spec_contains(t) && fin.val_of(t) < fin.val_of(f));
            assert(m.contains_key(f));
            assert(m.contains_key(t));
            assert(m[f] == fin.val_of(f) as int);
            assert(m[t] == fin.val_of(t) as int);
        }
        assert(respects_finish_order(types, m));
        if acyclic(g) {
            lemma_acyclic_no_back_edges(g, types);
        }
        self.lemma_classification_witness(g, types, disc, fin, time);
    }

    /// The recorded stamps, read as integer maps, witness the
    /// classification.
    #[verifier::rlimit(100)]
    proof fn lemma_classification_witness(
        &self,
        g: AdjacencyGraph,
        types: EdgeTypes,
        disc: NodeMap<u128>,
        fin: NodeMap<u128>,
        time: u128,
    )
        requires
            self.wf(),
            g == *self,
            classify_inv(g, disc, fin, types, time),
            forall|v: u64| g.node_set().contains(v) ==> fin.spec_contains(v),
            g.node_seq().len() > 0 ==> disc.spec_contains(g.node_seq()[0]) && (forall|v: u64|
                #[trigger] disc.spec_contains(v) ==> disc.val_of(g.node_seq()[0])
                    <= disc.val_of(v)),
        ensures
            exists|dm: Map<u64, int>, fm: Map<u64, int>|
                #[trigger] classification_maps(g, types, dm, fm),
    {
        g.lemma_wf_facts();
        let dm = Map::<u64, int>::new(
            |v: u64| disc.spec_contains(v),
            |v: u64| disc.val_of(v) as int,
        );
        let fm = Map::<u64, int>::new(
            |v: u64| fin.spec_contains(v),
            |v: u64| fin.val_of(v) as int,
        );
        assert forall|v: u64| #[trigger] dm.contains_key(v) <==> g.node_set().contains(
            v,
        ) by {
            if g.node_set().contains(v) {
                assert(fin.spec_contains(v));
            }
        }
        assert forall|v: u64| #[trigger] fm.contains_key(v) <==> g.node_set().contains(
            v,
        ) by {
            if g.node_set().contains(v) {
                assert(fin.spec_contains(v));
            }
        }
        assert forall|v: u64| #[trigger] dm.contains_key(v) implies dm[v] < fm[v] by {
            assert(g.node_set().contains(v));
            assert(fin.spec_contains(v));
            assert(disc.val_of(v) < fin.val_of(v));
        }
        assert forall|f: u64, t: u64|
            (types.spec_get(f, t) == Some(EdgeType::TreeEdge) || types.spec_get(f, t) == Some(
                EdgeType::ForwardEdge,
            )) implies dm[f] < dm[t] && fm[t] < fm[f] by {
            assert(disc.spec_contains(f) && disc.spec_contains(t));
            assert(g.spec_has_edge(f, t));
            assert(g.node_set().contains(f) && g.node_set().contains(t));
            assert(fin.spec_contains(f) && fin.spec_contains(t));
            assert(classified_non_back(types, f, t));
            assert(fin.val_of(t) < fin.val_of(f));
        }
        assert forall|f: u64, t: u64|
            types.spec_get(f, t) == Some(EdgeType::BackEdge) implies dm[t] <= dm[f] by {
            assert(disc.spec_contains(f) && disc.spec_contains(t));
        }
        assert forall|f: u64, t: u64|
            types.spec_get(f, t) == Some(EdgeType::CrossEdge) implies dm[t] < dm[f] && fm[t]
            < fm[f] by {
            assert(disc.spec_contains(f) && disc.spec_contains(t));
            assert(g.spec_has_edge(f, t));
            assert(g.node_set().contains(f) && g.node_set().contains(t));
            assert(fin.spec_contains(f) && fin.spec_contains(t));
            assert(classified_non_back(types, f, t));
            assert(fin.val_of(t) < fin.val_of(f));
        }
        assert forall|u2: u64, a: u64, b: u64|
            types.spec_get(u2, a) == Some(EdgeType::TreeEdge) && types.spec_get(u2, b) == Some(
                EdgeType::TreeEdge,
            ) && g.nbrs(u2).index_of(a) < g.nbrs(u2).index_of(b) implies dm[a] < dm[b] && fm[a]
            < dm[b] by {
            assert(disc.spec_contains(a) && disc.spec_contains(b));
            assert(fin.spec_contains(a));
            assert(fin.val_of(a) < disc.val_of(b));
            assert(disc.val_of(a) < fin.val_of(a));
        }
        assert forall|x: u64, y: u64|
            #![trigger dm[y], dm[x]]
            dm.contains_key(x) && tree_parentless(types, x) && dm.contains_key(y) && dm[y]
                < dm[x] implies fm[y] < dm[x] by {
            assert(disc.spec_contains(x) && disc.spec_contains(y));
            assert(disc.val_of(y) < disc.val_of(x));
            assert(fin.spec_contains(y) && fin.val_of(y) < disc.val_of(x));
        }
        if g.node_seq().len() > 0 {
            assert forall|v: u64| #[trigger] dm.contains_key(v) implies dm[g.node_seq()[0]]
                <= dm[v] by {
                assert(disc.val_of(g.node_seq()[0]) <= disc.val_of(v));
            }
        }
        assert forall|v: u64, w: u64|
            #![trigger dm[v], dm[w]]
            dm.contains_key(v) && dm.contains_key(w) && v != w implies dm[v] != dm[w] by {
            assert(disc.val_of(v) != disc.val_of(w));
        }
        assert(classification_maps(g, types, dm, fm));
    }

    /// Runs one DFS from the freshly discovered root on top of `stack`,
    /// classifying every edge it scans, until the stack is exhausted.
    fn classify_from(
        &self,
        Ghost(g): Ghost<AdjacencyGraph>,
        types: &mut EdgeTypes,
        disc: &mut NodeMap<u128>,
        fin: &mut NodeMap<u128>,
        time: &mut u128,
        stack: Vec<(u64, usize)>,
    )
        requires
            self.wf(),
            g == *self,
            classify_inv(g, *old(disc), *old(fin), *old(types), *old(time)),
            classify_open_inv(g, *old(disc), *old(fin), *old(types), stack@),
        ensures
            classify_inv(g, *final(disc), *final(fin), *final(types), *final(time)),
            classify_open_inv(
                g,
                *final(disc),
                *final(fin),
                *final(types),
                Seq::<(u64, usize)>::empty(),
            ),
            forall|v: u64|
                #[trigger] old(disc).spec_contains(v) ==> final(disc).spec_contains(v)
                    && final(disc).val_of(v) == old(disc).val_of(v),
            forall|v: u64|
                #[trigger] final(disc).spec_contains(v) && !old(disc).spec_contains(v)
                    ==> final(disc).val_of(v) > *old(time),
            *final(time) >= *old(time),
            forall|f: u64, t: u64|
                (#[trigger] old(types).spec_get(f, t)) is Some ==> final(types).spec_get(f, t)
                    == old(types).spec_get(f, t),
    {
        let mut stack = stack;
        proof {
            self.lemma_wf_facts();
        }
        while stack.len() > 0
            invariant
                self.wf(),
                g == *self,
                classify_inv(g, *disc, *fin, *types, *time),
                classify_open_inv(g, *disc, *fin, *types, stack@),
                forall|v: u64|
                    #[trigger] old(disc).spec_contains(v) ==> disc.spec_contains(v)
                        && disc.val_of(v) == old(disc).val_of(v),
                forall|v: u64|
                    #[trigger] disc.spec_contains(v) && !old(disc).spec_contains(v)
                        ==> disc.val_of(v) > *old(time),
                *time >= *old(time),
                forall|f: u64, t: u64|
                    (#[trigger] old(types).spec_get(f, t)) is Some ==> types.spec_get(f, t)
                        == old(types).spec_get(f, t),
            decreases
                    g.node_seq().len() - disc.count(),
                    frames_work(g, stack@),
                    stack@.len(),
        {
            proof {
                lemma_map_count_bound(g, *disc);
                lemma_frames_work_nonneg(g, stack@);
            }
            self.classify_step(Ghost(g), types, disc, fin, time, &mut stack);
            proof {
                lemma_map_count_bound(g, *disc);
                lemma_frames_work_nonneg(g, stack@);
            }
        }
    }

    /// Performs one step of the DFS: scans the next neighbor of the
    /// top frame, classifying the edge there, or closes the frame.
    #[verifier::rlimit(100)]
    fn classify_step(
        &self,
        Ghost(g): Ghost<AdjacencyGraph>,
        types: &mut EdgeTypes,
        disc: &mut NodeMap<u128>,
        fin: &mut NodeMap<u128>,
        time: &mut u128,
        stack: &mut Vec<(u64, usize)>,
    )
        requires
            self.wf(),
            g == *self,
            old(stack)@.len() > 0,
            classify_inv(g, *old(disc), *old(fin), *old(types), *old(time)),
            classify_open_inv(g, *old(disc), *old(fin), *old(types), old(stack)@),
        ensures
            classify_inv(g, *final(disc), *final(fin), *final(types), *final(time)),
            classify_open_inv(g, *final(disc), *final(fin), *final(types), final(stack)@),
            forall|v: u64|
                #[trigger] old(disc).spec_contains(v) ==> final(disc).spec_contains(v)
                    && final(disc).val_of(v) == old(disc).val_of(v),
            forall|v: u64|
                #[trigger] final(disc).spec_contains(v) && !old(disc).spec_contains(v)
                    ==> final(disc).val_of(v) > *old(time),
            *final(time) >= *old(time),
            forall|f: u64, t: u64|
                (#[trigger] old(types).spec_get(f, t)) is Some ==> final(types).spec_get(f, t)
                    == old(types).spec_get(f, t),
            final(disc).count() > old(disc).count() || (final(disc).count() == old(disc).count()
                && frames_work(g, final(stack)@) < frames_work(g, old(stack)@)) || (
            final(disc).count() == old(disc).count() && frames_work(g, final(stack)@)
                == frames_work(g, old(stack)@) && final(stack)@.len() < old(stack)@.len()),
    {
        let nlen = self.node_count();
        proof {
            self.lemma_wf_facts();
            lemma_frames_work_nonneg(g, stack@);
            lemma_map_count_bound(g, *disc);
            lemma_map_count_bound(g, *fin);
            assert(*time < u128::MAX);
        }
        let ghost stack0 = stack@;
            let ghost open0 = stack_nodes(stack0);
            let ghost types0 = *types;
            let ghost disc0 = *disc;
            let ghost fin0 = *fin;
            let ghost time0 = *time;
            let li = stack.len() - 1;
            let fr = stack[li];
            let v = fr.0;
            let i = fr.1;
            let nb = self.neighbors(v);
            proof {
                assert(open0[li as int] == v);
                assert(open0.contains(v));
                assert(open0.index_of(v) == li as int) by {
                    let io = open0.index_of(v);
                    assert(open0[io] == v);
                }
            }
            if i < nb.len() {
                let w = nb[i];
                proof {
                    // the edge (v, w) is not classified yet
                    assert(g.nbrs(v)[i as int] == w);
                    assert(g.spec_has_edge(v, w));
                    assert(g.nbrs(v).index_of(w) == i as int) by {
                        let io = g.nbrs(v).index_of(w);
                        assert(g.nbrs(v).contains(w));
                        assert(g.nbrs(v)[io] == w);
                        assert(g.nbrs(v).no_duplicates());
                    }
                    if (types.spec_get(v, w)) is Some {
                        assert(!fin.spec_contains(v));
                        assert(g.nbrs(v).index_of(w) < stack0[open0.index_of(v)].1);
                        assert(false);
                    }
                }
                stack[li] = (v, i + 1);
                let ghost stack1 = stack@;
                proof {
                    assert(stack_nodes(stack1) =~= open0) by {
                        assert forall|j: int| 0 <= j < stack1.len() implies stack_nodes(stack1)[j]
                            == open0[j] by {
                            assert(stack_nodes(stack1)[j] == stack1[j].0);
                            assert(open0[j] == stack0[j].0);
                        }
                    }
                    assert(frames_work(g, stack1) == frames_work(g, stack0) - 1) by {
                        assert(stack1.drop_last() =~= stack0.drop_last());
                        assert(stack1.last() == (v, (i + 1) as usize));
                        assert(stack0.last() == (v, i as usize));
                    }
                    assert forall|j: int| 0 <= j < stack1.len() implies (#[trigger] stack1[j]).1
                        <= g.nbrs(stack1[j].0).len() by {
                        if j < stack0.len() - 1 {
                            assert(stack1[j] == stack0[j]);
                        } else {
                            assert(stack1[j].0 == v && stack1[j].1 == i + 1);
                        }
                    }
                    lemma_frames_work_nonneg(g, stack1);
                }
                if !disc.contains(w) {
                    *time = *time + 1;
                    disc.insert(w, *time);
                    types.insert(v, w, EdgeType::TreeEdge);
                    stack.push((w, 0));
                    proof {
                        self.lemma_tree_step(
                            g, stack0, stack@, disc0, *disc, *fin, types0, *types, time0,
                            *time, v, i as int, w,
                        );
                    }
                } else if !fin.contains(w) {
                    proof {
                        // w is discovered and unfinished, so it is on the
                        // open path: the stretch from w down to v is a walk
                        // from w to v, witnessing the cycle this edge closes
                        assert(open0.contains(w));
                        let jw = open0.index_of(w);
                        assert(open0[jw] == w);
                        let p = open0.subrange(jw, open0.len() as int);
                        assert(crate::graph::is_path(g, p)) by {
                            assert forall|k: int| 0 <= k < p.len() - 1 implies g.spec_has_edge(
                                #[trigger] p[k],
                                p[k + 1],
                            ) by {
                                assert(p[k] == open0[jw + k]);
                                assert(p[k + 1] == open0[jw + k + 1]);
                                assert(g.spec_has_edge(open0[jw + k], open0[jw + k + 1]));
                            }
                        }
                        assert(p.first() == w && p.last() == v);
                        assert(crate::graph::reaches(g, w, v));
                        // the open ancestor was discovered no later
                        if jw < li as int {
                            assert(disc.val_of(open0[jw]) < disc.val_of(open0[li as int]));
                        } else {
                            assert(open0[jw] == open0[li as int]);
                        }
                        assert(disc.val_of(w) <= disc.val_of(v));
                    }
                    types.insert(v, w, EdgeType::BackEdge);
                    proof {
                        self.lemma_scan_step(
                            g, stack0, stack@, *disc, *fin, types0, *types, *time, v, i as int, w,
                            EdgeType::BackEdge,
                        );
                    }
                } else {
                    let dv = disc.get(v);
                    let dw = disc.get(w);
                    if dv < dw {
                        types.insert(v, w, EdgeType::ForwardEdge);
                        proof {
                            self.lemma_scan_step(
                                g, stack0, stack@, *disc, *fin, types0, *types, *time, v,
                                i as int, w, EdgeType::ForwardEdge,
                            );
                        }
                    } else {
                        proof {
                            // the target is finished while the source is
                            // still open, so the two are distinct and
                            // their discovery stamps differ
                            assert(!fin.spec_contains(open0[li as int]));
                            assert(w != v);
                            assert(disc.val_of(w) < disc.val_of(v));
                        }
                        types.insert(v, w, EdgeType::CrossEdge);
                        proof {
                            self.lemma_scan_step(
                                g, stack0, stack@, *disc, *fin, types0, *types, *time, v,
                                i as int, w, EdgeType::CrossEdge,
                            );
                        }
                    }
                }
        } else {
            stack.pop();
            *time = *time + 1;
            fin.insert(v, *time);
            proof {
                self.lemma_finish_step(
                    g, stack0, stack@, *disc, fin0, *fin, types0, *types, time0, *time, v,
                    i as int,
                );
            }
        }
    }
}

impl AdjacencyGraph {
    /// Facts after classifying the scanned edge `(v, w)` without
    /// changing the open path: the cursor of the top frame moved past
    /// the neighbor index `i`.
    proof fn lemma_scan_step(
        &self,
        g: AdjacencyGraph,
        stack0: Seq<(u64, usize)>,
        stack1: Seq<(u64, usize)>,
        disc: NodeMap<u128>,
        fin: NodeMap<u128>,
        types0: EdgeTypes,
        types1: EdgeTypes,
        time: u128,
        v: u64,
        i: int,
        w: u64,
        ty: EdgeType,
    )
        requires
            self.wf(),
            g == *self,
            classify_inv(g, disc, fin, types0, time),
            classify_open_inv(g, disc, fin, types0, stack0),
            stack0.len() >= 1,
            stack0[stack0.len() - 1].0 == v,
            stack0[stack0.len() - 1].1 == i,
            0 <= i < g.nbrs(v).len(),
            g.nbrs(v)[i] == w,
            types0.spec_get(v, w) is None,
            disc.spec_contains(w),
            ty == EdgeType::BackEdge ==> !fin.spec_contains(w) && crate::graph::reaches(g, w, v),
            ty != EdgeType::BackEdge ==> fin.spec_contains(w),
            ty != EdgeType::TreeEdge,
            ty == EdgeType::ForwardEdge ==> disc.val_of(v) < disc.val_of(w),
            ty == EdgeType::CrossEdge ==> disc.val_of(w) < disc.val_of(v),
            ty == EdgeType::BackEdge ==> disc.val_of(w) <= disc.val_of(v),
            types1.wf(),
            types1.spec_get(v, w) == Some(ty),
            forall|f: u64, t: u64|
                (f, t) != (v, w) ==> types1.spec_get(f, t) == types0.spec_get(f, t),
            stack1.len() == stack0.len(),
            forall|j: int| 0 <= j < stack0.len() - 1 ==> stack1[j] == stack0[j],
            stack1[stack0.len() - 1].0 == v,
            stack1[stack0.len() - 1].1 == i + 1,
        ensures
            classify_inv(g, disc, fin, types1, time),
            classify_open_inv(g, disc, fin, types1, stack1),
    {
        g.lemma_wf_facts();
        let ll = stack0.len() - 1;
        let open0 = stack_nodes(stack0);
        let open1 = stack_nodes(stack1);
        assert(open1 =~= open0) by {
            assert forall|j: int| 0 <= j < stack1.len() implies open1[j] == open0[j] by {
                assert(open1[j] == stack1[j].0);
                assert(open0[j] == stack0[j].0);
            }
        }
        assert(open0[ll] == v);
        assert(open0.contains(v));
        assert(open0.index_of(v) == ll) by {
            let io = open0.index_of(v);
            assert(open0[io] == v);
        }
        assert(g.nbrs(v).index_of(w) == i) by {
            let io = g.nbrs(v).index_of(w);
            assert(g.nbrs(v).contains(w));
            assert(g.nbrs(v)[io] == w);
        }
        assert(!fin.spec_contains(v));
        // classify_inv
        assert forall|f: u64, t: u64| (#[trigger] types1.spec_get(f, t)) is Some implies g
            .spec_has_edge(f, t) by {
            if (f, t) != (v, w) {
                assert(types0.spec_get(f, t) == types1.spec_get(f, t));
            }
        }
        assert forall|v2: u64, idx: int|
            fin.spec_contains(v2) && 0 <= idx < g.nbrs(v2).len() implies (
        #[trigger] types1.spec_get(v2, g.nbrs(v2)[idx])) is Some by {
            if (v2, g.nbrs(v2)[idx]) != (v, w) {
                assert((types0.spec_get(v2, g.nbrs(v2)[idx])) is Some);
            }
        }
        assert forall|f: u64, t: u64|
            types1.spec_get(f, t) == Some(EdgeType::BackEdge) implies crate::graph::reaches(
            g,
            t,
            f,
        ) by {
            if (f, t) != (v, w) {
                assert(types0.spec_get(f, t) == types1.spec_get(f, t));
            }
        }
        assert forall|f: u64, t: u64|
            #[trigger] classified_non_back(types1, f, t) && fin.spec_contains(f) implies fin
            .spec_contains(t) && fin.val_of(t) < fin.val_of(f) by {
            if (f, t) != (v, w) {
                assert(types0.spec_get(f, t) == types1.spec_get(f, t));
                assert(classified_non_back(types0, f, t));
            }
        }
        // classify_open_inv
        assert forall|j: int| 0 <= j < stack1.len() implies disc.spec_contains(#[trigger] open1[j])
            && !fin.spec_contains(open1[j]) by {
            assert(open1[j] == open0[j]);
        }
        assert forall|j: int| 0 <= j < stack1.len() implies (#[trigger] stack1[j]).1 <= g.nbrs(
            stack1[j].0,
        ).len() by {
            if j < ll {
                assert(stack1[j] == stack0[j]);
            }
        }
        assert forall|j: int, idx: int|
            0 <= j < stack1.len() && 0 <= idx < stack1[j].1 implies (#[trigger] types1.spec_get(
            stack1[j].0,
            g.nbrs(stack1[j].0)[idx],
        )) is Some by {
            if j < ll {
                assert(stack1[j] == stack0[j]);
                if (stack0[j].0, g.nbrs(stack0[j].0)[idx]) != (v, w) {
                    assert((types0.spec_get(stack0[j].0, g.nbrs(stack0[j].0)[idx])) is Some);
                }
            } else {
                assert(stack1[j].0 == v);
                if idx < i {
                    if (v, g.nbrs(v)[idx]) != (v, w) {
                        assert((types0.spec_get(v, g.nbrs(v)[idx])) is Some);
                    }
                } else {
                    assert(idx == i);
                    assert(g.nbrs(v)[idx] == w);
                }
            }
        }
        assert forall|f: u64, t: u64| (#[trigger] types1.spec_get(f, t)) is Some implies fin
            .spec_contains(f) || (open1.contains(f) && g.nbrs(f).index_of(t)
            < stack1[open1.index_of(f)].1) by {
            if (f, t) == (v, w) {
                assert(open1.contains(v));
                assert(open1.index_of(v) == ll);
                assert(stack1[ll].1 == i + 1);
            } else {
                assert(types0.spec_get(f, t) == types1.spec_get(f, t));
                if !fin.spec_contains(f) {
                    assert(open0.contains(f));
                    let io = open0.index_of(f);
                    if io == ll {
                        assert(open0[io] == f);
                        assert(f == v);
                        assert(g.nbrs(f).index_of(t) < stack0[io].1);
                        assert(stack1[io].1 == i + 1);
                    } else {
                        assert(stack1[io] == stack0[io]);
                    }
                }
            }
        }
        assert forall|f: u64, t: u64|
            #[trigger] classified_non_back(types1, f, t) && !fin.spec_contains(t) implies exists|
            ja: int,
            jb: int,
        |
            0 <= ja < jb < stack1.len() && #[trigger] open1[ja] == f && #[trigger] open1[jb]
                == t by {
            if (f, t) == (v, w) {
                assert(ty != EdgeType::BackEdge);
                assert(fin.spec_contains(w));
            } else {
                assert(types0.spec_get(f, t) == types1.spec_get(f, t));
                assert(classified_non_back(types0, f, t));
                let (ja, jb) = choose|ja: int, jb: int|
                    0 <= ja < jb < stack0.len() && #[trigger] open0[ja] == f && #[trigger] open0[jb]
                        == t;
                assert(open1[ja] == f && open1[jb] == t);
            }
        }
    }
}

impl AdjacencyGraph {
    /// Facts after discovering the fresh vertex `w` through the tree
    /// edge `(v, w)`: the cursor of the top frame moved past `i` and a
    /// new frame for `w` was pushed.
    proof fn lemma_tree_step(
        &self,
        g: AdjacencyGraph,
        stack0: Seq<(u64, usize)>,
        stack2: Seq<(u64, usize)>,
        disc0: NodeMap<u128>,
        disc1: NodeMap<u128>,
        fin: NodeMap<u128>,
        types0: EdgeTypes,
        types1: EdgeTypes,
        time0: u128,
        time1: u128,
        v: u64,
        i: int,
        w: u64,
    )
        requires
            self.wf(),
            g == *self,
            classify_inv(g, disc0, fin, types0, time0),
            classify_open_inv(g, disc0, fin, types0, stack0),
            stack0.len() >= 1,
            stack0[stack0.len() - 1].0 == v,
            stack0[stack0.len() - 1].1 == i,
            0 <= i < g.nbrs(v).len(),
            g.nbrs(v)[i] == w,
            types0.spec_get(v, w) is None,
            !disc0.spec_contains(w),
            time1 == time0 + 1,
            disc1.wf(),
            disc1.key_list() == disc0.key_list().push(w),
            disc1.val_of(w) == time1,
            forall|k: u64|
                #[trigger] disc0.spec_contains(k) ==> disc1.spec_contains(k) && disc1.val_of(k)
                    == disc0.val_of(k),
            forall|k: u64|
                disc1.spec_contains(k) <==> (disc0.spec_contains(k) || k == w),
            types1.wf(),
            types1.spec_get(v, w) == Some(EdgeType::TreeEdge),
            forall|f: u64, t: u64|
                (f, t) != (v, w) ==> types1.spec_get(f, t) == types0.spec_get(f, t),
            stack2.len() == stack0.len() + 1,
            forall|j: int| 0 <= j < stack0.len() - 1 ==> stack2[j] == stack0[j],
            stack2[stack0.len() - 1].0 == v,
            stack2[stack0.len() - 1].1 == i + 1,
            stack2[stack0.len() as int] == (w, 0usize),
        ensures
            classify_inv(g, disc1, fin, types1, time1),
            classify_open_inv(g, disc1, fin, types1, stack2),
            disc1.count() == disc0.count() + 1,
            g.node_seq().len() - disc1.count() >= 0,
    {
        g.lemma_wf_facts();
        let ll = stack0.len() - 1;
        let open0 = stack_nodes(stack0);
        let open2 = stack_nodes(stack2);
        assert(open2 =~= open0.push(w)) by {
            assert forall|j: int| 0 <= j < stack2.len() implies open2[j] == open0.push(w)[j] by {
                assert(open2[j] == stack2[j].0);
                if j < ll {
                    assert(stack2[j] == stack0[j]);
                    assert(open0[j] == stack0[j].0);
                } else if j == ll {
                    assert(open0[j] == stack0[j].0);
                }
            }
        }
        assert(open0[ll] == v);
        assert(open0.contains(v));
        assert(!open0.contains(w)) by {
            if open0.contains(w) {
                let jw = choose|jw: int| 0 <= jw < open0.len() && open0[jw] == w;
                assert(disc0.spec_contains(open0[jw]));
            }
        }
        assert(!fin.spec_contains(w)) by {
            if fin.spec_contains(w) {
                assert(disc0.spec_contains(w));
            }
        }
        assert(g.spec_has_edge(v, w));
        assert(g.node_set().contains(w));
        assert(g.nbrs(v).index_of(w) == i) by {
            let io = g.nbrs(v).index_of(w);
            assert(g.nbrs(v).contains(w));
            assert(g.nbrs(v)[io] == w);
        }
        // counting
        assert(disc1.count() == disc0.count() + 1);
        assert forall|k: u64| #[trigger] disc1.key_list().contains(k) implies g.node_seq()
            .contains(k) by {
            let j = choose|j: int| 0 <= j < disc1.key_list().len() && disc1.key_list()[j] == k;
            if j < disc0.key_list().len() {
                assert(disc0.key_list()[j] == k);
                assert(disc0.spec_contains(k));
                assert(g.node_set().contains(k));
            } else {
                assert(k == w);
            }
        }
        disc1.lemma_keys_distinct();
        crate::lemma_distinct_subset_len(disc1.key_list(), g.node_seq());
        // classify_inv
        assert forall|v2: u64| #[trigger] disc1.spec_contains(v2) implies g.node_set().contains(
            v2,
        ) by {
            if v2 != w {
                assert(disc0.spec_contains(v2));
            }
        }
        assert forall|f: u64, t: u64| (#[trigger] types1.spec_get(f, t)) is Some implies g
            .spec_has_edge(f, t) by {
            if (f, t) != (v, w) {
                assert(types0.spec_get(f, t) == types1.spec_get(f, t));
            }
        }
        assert forall|v2: u64, idx: int|
            fin.spec_contains(v2) && 0 <= idx < g.nbrs(v2).len() implies (
        #[trigger] types1.spec_get(v2, g.nbrs(v2)[idx])) is Some by {
            if (v2, g.nbrs(v2)[idx]) != (v, w) {
                assert((types0.spec_get(v2, g.nbrs(v2)[idx])) is Some);
            }
        }
        assert forall|f: u64, t: u64|
            types1.spec_get(f, t) == Some(EdgeType::BackEdge) implies crate::graph::reaches(
            g,
            t,
            f,
        ) by {
            if (f, t) != (v, w) {
                assert(types0.spec_get(f, t) == types1.spec_get(f, t));
            }
        }
        assert forall|f: u64, t: u64|
            #[trigger] classified_non_back(types1, f, t) && fin.spec_contains(f) implies fin
            .spec_contains(t) && fin.val_of(t) < fin.val_of(f) by {
            if (f, t) != (v, w) {
                assert(types0.spec_get(f, t) == types1.spec_get(f, t));
                assert(classified_non_back(types0, f, t));
            } else {
                assert(!fin.spec_contains(v));
            }
        }
        // classify_open_inv for the extended stack
        assert(open2.no_duplicates()) by {
            assert forall|a: int, b: int|
                0 <= a < open2.len() && 0 <= b < open2.len() && a != b implies open2[a]
                != open2[b] by {
                if a < open0.len() && b < open0.len() {
                    assert(open2[a] == open0[a] && open2[b] == open0[b]);
                } else if a == open0.len() {
                    assert(open2[a] == w);
                    assert(open2[b] == open0[b]);
                    if open2[b] == w {
                        assert(open0.contains(w));
                    }
                } else if b == open0.len() {
                    assert(open2[b] == w);
                    assert(open2[a] == open0[a]);
                    if open2[a] == w {
                        assert(open0.contains(w));
                    }
                }
            }
        }
        assert forall|j: int| 0 <= j < stack2.len() implies disc1.spec_contains(
            #[trigger] open2[j],
        ) && !fin.spec_contains(open2[j]) by {
            if j < open0.len() {
                assert(open2[j] == open0[j]);
                assert(disc0.spec_contains(open0[j]));
            } else {
                assert(open2[j] == w);
            }
        }
        assert forall|v2: u64|
            #[trigger] disc1.spec_contains(v2) && !fin.spec_contains(v2) implies open2.contains(
            v2,
        ) by {
            if v2 == w {
                assert(open2[open0.len() as int] == w);
            } else {
                assert(disc0.spec_contains(v2));
                assert(open0.contains(v2));
                let j = choose|j: int| 0 <= j < open0.len() && open0[j] == v2;
                assert(open2[j] == v2);
            }
        }
        assert forall|j: int| 0 <= j < stack2.len() - 1 implies g.spec_has_edge(
            #[trigger] open2[j],
            open2[j + 1],
        ) by {
            if j < ll {
                assert(open2[j] == open0[j] && open2[j + 1] == open0[j + 1]);
                assert(g.spec_has_edge(open0[j], open0[j + 1]));
            } else {
                assert(j == ll);
                assert(open2[j] == v && open2[j + 1] == w);
            }
        }
        assert forall|j: int| 0 <= j < stack2.len() implies (#[trigger] stack2[j]).1 <= g.nbrs(
            stack2[j].0,
        ).len() by {
            if j < ll {
                assert(stack2[j] == stack0[j]);
            } else if j == ll {
                assert(stack2[j].0 == v);
            } else {
                assert(stack2[j] == (w, 0usize));
            }
        }
        assert forall|j: int, idx: int|
            0 <= j < stack2.len() && 0 <= idx < stack2[j].1 implies (#[trigger] types1.spec_get(
            stack2[j].0,
            g.nbrs(stack2[j].0)[idx],
        )) is Some by {
            if j < ll {
                assert(stack2[j] == stack0[j]);
                if (stack0[j].0, g.nbrs(stack0[j].0)[idx]) != (v, w) {
                    assert((types0.spec_get(stack0[j].0, g.nbrs(stack0[j].0)[idx])) is Some);
                }
            } else if j == ll {
                assert(stack2[j].0 == v);
                if idx < i {
                    if (v, g.nbrs(v)[idx]) != (v, w) {
                        assert((types0.spec_get(v, g.nbrs(v)[idx])) is Some);
                    }
                } else {
                    assert(idx == i);
                    assert(g.nbrs(v)[idx] == w);
                }
            } else {
                assert(stack2[j] == (w, 0usize));
            }
        }
        assert forall|f: u64, t: u64| (#[trigger] types1.spec_get(f, t)) is Some implies fin
            .spec_contains(f) || (open2.contains(f) && g.nbrs(f).index_of(t)
            < stack2[open2.index_of(f)].1) by {
            if (f, t) == (v, w) {
                assert(open2[ll] == v);
                assert(open2.contains(v));
                assert(open2.index_of(v) == ll) by {
                    let io = open2.index_of(v);
                    assert(open2[io] == v);
                    if io != ll {
                        assert(open2[io] != open2[ll]);
                    }
                }
                assert(stack2[ll].1 == i + 1);
            } else {
                assert(types0.spec_get(f, t) == types1.spec_get(f, t));
                if !fin.spec_contains(f) {
                    assert(open0.contains(f));
                    let io = open0.index_of(f);
                    assert(open0[io] == f);
                    assert(open2[io] == f);
                    assert(open2.contains(f));
                    assert(open2.index_of(f) == io) by {
                        let io2 = open2.index_of(f);
                        assert(open2[io2] == f);
                        if io2 != io {
                            assert(open2[io2] != open2[io]);
                        }
                    }
                    if io == ll {
                        assert(f == v);
                        assert(g.nbrs(f).index_of(t) < stack0[io].1);
                        assert(stack2[io].1 == i + 1);
                    } else {
                        assert(stack2[io] == stack0[io]);
                    }
                }
            }
        }
        assert forall|f: u64, t: u64|
            #[trigger] classified_non_back(types1, f, t) && !fin.spec_contains(t) implies exists|
            ja: int,
            jb: int,
        |
            0 <= ja < jb < stack2.len() && #[trigger] open2[ja] == f && #[trigger] open2[jb]
                == t by {
            if (f, t) == (v, w) {
                assert(open2[ll] == v && open2[ll + 1] == w);
            } else {
                assert(types0.spec_get(f, t) == types1.spec_get(f, t));
                assert(classified_non_back(types0, f, t));
                let (ja, jb) = choose|ja: int, jb: int|
                    0 <= ja < jb < stack0.len() && #[trigger] open0[ja] == f && #[trigger] open0[jb]
                        == t;
                assert(open2[ja] == f && open2[jb] == t);
            }
        }
        // the fresh discovery stamp sits above every earlier one
        assert forall|v2: u64| #[trigger] disc1.spec_contains(v2) implies disc1.val_of(v2)
            <= time1 by {
            if v2 != w {
                assert(disc0.spec_contains(v2));
                assert(disc0.val_of(v2) <= time0);
            }
        }
        assert forall|v2: u64, w2: u64|
            #![trigger disc1.val_of(v2), disc1.val_of(w2)]
            disc1.spec_contains(v2) && disc1.spec_contains(w2) && v2 != w2 implies disc1.val_of(
            v2,
        ) != disc1.val_of(w2) by {
            if v2 != w && w2 != w {
                assert(disc0.spec_contains(v2) && disc0.spec_contains(w2));
            } else if v2 == w {
                assert(disc0.spec_contains(w2));
                assert(disc0.val_of(w2) <= time0);
            } else {
                assert(disc0.spec_contains(v2));
                assert(disc0.val_of(v2) <= time0);
            }
        }
        // the new tree edge descends in discovery order, after every
        // earlier child of the same source
        assert forall|f: u64, t: u64|
            (types1.spec_get(f, t) == Some(EdgeType::TreeEdge) || types1.spec_get(f, t) == Some(
                EdgeType::ForwardEdge,
            )) implies disc1.val_of(f) < disc1.val_of(t) by {
            if (f, t) != (v, w) {
                assert(types0.spec_get(f, t) == types1.spec_get(f, t));
                assert(disc0.spec_contains(f) && disc0.spec_contains(t));
            } else {
                assert(disc0.spec_contains(v));
                assert(disc0.val_of(v) <= time0);
            }
        }
        assert forall|u: u64, a: u64, b: u64|
            types1.spec_get(u, a) == Some(EdgeType::TreeEdge) && types1.spec_get(u, b) == Some(
                EdgeType::TreeEdge,
            ) && g.nbrs(u).index_of(a) < g.nbrs(u).index_of(b) implies fin.spec_contains(a)
            && fin.val_of(a) < disc1.val_of(b) by {
            if (u, a) != (v, w) && (u, b) != (v, w) {
                assert(types0.spec_get(u, a) == types1.spec_get(u, a));
                assert(types0.spec_get(u, b) == types1.spec_get(u, b));
                assert(disc0.spec_contains(a) && disc0.spec_contains(b));
                assert(b != w);
                assert(disc1.val_of(b) == disc0.val_of(b));
            } else if (u, b) == (v, w) {
                // the earlier child's subtree is already closed: were it
                // still open it would sit above its parent on the stack,
                // where the parent itself is the top
                assert(types0.spec_get(u, a) == types1.spec_get(u, a));
                assert(disc0.spec_contains(a));
                assert(disc0.val_of(v) < disc0.val_of(a));
                if !fin.spec_contains(a) {
                    assert(open0.contains(a));
                    let ja = choose|ja: int| 0 <= ja < open0.len() && open0[ja] == a;
                    if ja < ll {
                        assert(disc0.val_of(open0[ja]) < disc0.val_of(open0[ll]));
                    } else {
                        assert(open0[ja] == open0[ll]);
                        assert(a == v);
                    }
                    assert(false);
                }
                assert(fin.val_of(a) <= time0);
            } else {
                // the fresh vertex cannot be an earlier child: its edge
                // was unclassified until now, so any other tree edge
                // from v sits below the cursor i
                assert((u, a) == (v, w));
                assert(types0.spec_get(u, b) == types1.spec_get(u, b));
                assert(!fin.spec_contains(v));
                assert(open0.contains(v));
                assert(open0.index_of(v) == ll) by {
                    let io = open0.index_of(v);
                    assert(open0[io] == v);
                }
                assert(g.nbrs(v).index_of(b) < stack0[ll].1);
                assert(stack0[ll].1 == i);
                assert(g.nbrs(v).index_of(w) == i);
                assert(false);
            }
        }
        // the stack discovery stamps stay strictly increasing
        assert forall|ja: int, jb: int|
            0 <= ja < jb < stack2.len() implies disc1.val_of(#[trigger] open2[ja]) < disc1.val_of(
            #[trigger] open2[jb],
        ) by {
            if jb < stack0.len() {
                assert(open2[ja] == open0[ja] && open2[jb] == open0[jb]);
                assert(disc0.spec_contains(open0[ja]) && disc0.spec_contains(open0[jb]));
                assert(disc0.val_of(open0[ja]) < disc0.val_of(open0[jb]));
            } else {
                assert(open2[jb] == w);
                assert(open2[ja] == open0[ja]);
                assert(disc0.spec_contains(open0[ja]));
                assert(disc0.val_of(open0[ja]) <= time0);
            }
        }
    }

    /// Facts after closing the top vertex `v`: its frame is popped and
    /// it receives the next finish timestamp.
    proof fn lemma_finish_step(
        &self,
        g: AdjacencyGraph,
        stack0: Seq<(u64, usize)>,
        stack2: Seq<(u64, usize)>,
        disc: NodeMap<u128>,
        fin0: NodeMap<u128>,
        fin1: NodeMap<u128>,
        types0: EdgeTypes,
        types1: EdgeTypes,
        time0: u128,
        time1: u128,
        v: u64,
        i: int,
    )
        requires
            self.wf(),
            g == *self,
            classify_inv(g, disc, fin0, types0, time0),
            classify_open_inv(g, disc, fin0, types0, stack0),
            stack0.len() >= 1,
            stack0[stack0.len() - 1].0 == v,
            stack0[stack0.len() - 1].1 == i,
            i == g.nbrs(v).len(),
            time1 == time0 + 1,
            types1 == types0,
            fin1.wf(),
            fin1.key_list() == fin0.key_list().push(v),
            fin1.val_of(v) == time1,
            forall|k: u64|
                #[trigger] fin0.spec_contains(k) ==> fin1.spec_contains(k) && fin1.val_of(k)
                    == fin0.val_of(k),
            forall|k: u64| fin1.spec_contains(k) <==> (fin0.spec_contains(k) || k == v),
            stack2 == stack0.drop_last(),
        ensures
            classify_inv(g, disc, fin1, types1, time1),
            classify_open_inv(g, disc, fin1, types1, stack2),
            frames_work(g, stack2) == frames_work(g, stack0),
    {
        g.lemma_wf_facts();
        let ll = stack0.len() - 1;
        let open0 = stack_nodes(stack0);
        let open2 = stack_nodes(stack2);
        assert(open2 =~= open0.drop_last()) by {
            assert forall|j: int| 0 <= j < stack2.len() implies open2[j] == open0.drop_last()[j] by {
                assert(open2[j] == stack2[j].0);
                assert(stack2[j] == stack0[j]);
                assert(open0[j] == stack0[j].0);
            }
        }
        assert(open0[ll] == v);
        assert(open0.contains(v));
        assert(!fin0.spec_contains(v));
        assert(frames_work(g, stack2) == frames_work(g, stack0)) by {
            assert(stack0.last() == (v, i as usize));
        }
        // every neighbor of v is classified: the cursor ran to the end
        assert forall|idx: int| 0 <= idx < g.nbrs(v).len() implies (#[trigger] types0.spec_get(
            v,
            g.nbrs(v)[idx],
        )) is Some by {
            assert(stack0[ll].1 == i);
            assert((types0.spec_get(stack0[ll].0, g.nbrs(stack0[ll].0)[idx])) is Some);
        }
        // any open vertex other than v keeps its position
        assert forall|j: int| 0 <= j < ll implies open0[j] != v by {
            assert(open0.no_duplicates());
        }
        // no non-back entry points from v at a still-open target, and
        // none points at v from a finished source
        assert forall|t: u64| #[trigger] classified_non_back(types0, v, t) implies fin0
            .spec_contains(t) by {
            if !fin0.spec_contains(t) {
                let (ja, jb) = choose|ja: int, jb: int|
                    0 <= ja < jb < stack0.len() && #[trigger] open0[ja] == v && #[trigger] open0[jb]
                        == t;
                assert(open0[ja] == open0[ll]);
                assert(ja == ll);
            }
        }
        // classify_inv
        assert forall|v2: u64| #[trigger] fin1.spec_contains(v2) implies disc.spec_contains(
            v2,
        ) by {
            if v2 != v {
                assert(fin0.spec_contains(v2));
            } else {
                assert(disc.spec_contains(open0[ll]));
            }
        }
        assert forall|v2: u64| #[trigger] fin1.spec_contains(v2) implies fin1.val_of(v2)
            <= time1 by {
            if v2 != v {
                assert(fin0.spec_contains(v2));
                assert(fin0.val_of(v2) <= time0);
            }
        }
        assert(fin1.count() == fin0.count() + 1);
        assert forall|v2: u64, idx: int|
            fin1.spec_contains(v2) && 0 <= idx < g.nbrs(v2).len() implies (
        #[trigger] types1.spec_get(v2, g.nbrs(v2)[idx])) is Some by {
            if v2 != v {
                assert(fin0.spec_contains(v2));
                assert((types0.spec_get(v2, g.nbrs(v2)[idx])) is Some);
            } else {
                assert((types0.spec_get(v, g.nbrs(v)[idx])) is Some);
            }
        }
        assert forall|f: u64, t: u64|
            #[trigger] classified_non_back(types1, f, t) && fin1.spec_contains(f) implies fin1
            .spec_contains(t) && fin1.val_of(t) < fin1.val_of(f) by {
            assert(classified_non_back(types0, f, t));
            if f == v {
                assert(fin0.spec_contains(t));
                assert(t != v) by {
                    if t == v {
                        assert(fin0.spec_contains(v));
                    }
                }
                assert(fin1.val_of(t) == fin0.val_of(t));
                assert(fin0.val_of(t) <= time0);
                assert(fin1.val_of(f) == time1);
            } else {
                assert(fin0.spec_contains(f));
                assert(fin0.spec_contains(t) && fin0.val_of(t) < fin0.val_of(f));
                assert(t != v) by {
                    if t == v {
                        assert(fin0.spec_contains(v));
                    }
                }
            }
        }
        // classify_open_inv for the shortened stack
        assert(open2.no_duplicates()) by {
            assert forall|a: int, b: int|
                0 <= a < open2.len() && 0 <= b < open2.len() && a != b implies open2[a]
                != open2[b] by {
                assert(open2[a] == open0[a] && open2[b] == open0[b]);
            }
        }
        assert forall|j: int| 0 <= j < stack2.len() implies disc.spec_contains(#[trigger] open2[j])
            && !fin1.spec_contains(open2[j]) by {
            assert(open2[j] == open0[j]);
            assert(disc.spec_contains(open0[j]) && !fin0.spec_contains(open0[j]));
            assert(open0[j] != v);
        }
        assert forall|v2: u64|
            #[trigger] disc.spec_contains(v2) && !fin1.spec_contains(v2) implies open2.contains(
            v2,
        ) by {
            assert(!fin0.spec_contains(v2));
            assert(open0.contains(v2));
            let j = choose|j: int| 0 <= j < open0.len() && open0[j] == v2;
            assert(v2 != v);
            assert(j != ll);
            assert(open2[j] == v2);
        }
        assert forall|j: int| 0 <= j < stack2.len() - 1 implies g.spec_has_edge(
            #[trigger] open2[j],
            open2[j + 1],
        ) by {
            assert(open2[j] == open0[j] && open2[j + 1] == open0[j + 1]);
            assert(g.spec_has_edge(open0[j], open0[j + 1]));
        }
        assert forall|j: int| 0 <= j < stack2.len() implies (#[trigger] stack2[j]).1 <= g.nbrs(
            stack2[j].0,
        ).len() by {
            assert(stack2[j] == stack0[j]);
        }
        assert forall|j: int, idx: int|
            0 <= j < stack2.len() && 0 <= idx < stack2[j].1 implies (#[trigger] types1.spec_get(
            stack2[j].0,
            g.nbrs(stack2[j].0)[idx],
        )) is Some by {
            assert(stack2[j] == stack0[j]);
            assert((types0.spec_get(stack0[j].0, g.nbrs(stack0[j].0)[idx])) is Some);
        }
        assert forall|f: u64, t: u64| (#[trigger] types1.spec_get(f, t)) is Some implies fin1
            .spec_contains(f) || (open2.contains(f) && g.nbrs(f).index_of(t)
            < stack2[open2.index_of(f)].1) by {
            if !fin1.spec_contains(f) {
                assert(!fin0.spec_contains(f));
                assert(f != v);
                assert(open0.contains(f));
                let io = open0.index_of(f);
                assert(open0[io] == f);
                assert(io != ll);
                assert(open2[io] == f);
                assert(open2.contains(f));
                assert(open2.index_of(f) == io) by {
                    let io2 = open2.index_of(f);
                    assert(open2[io2] == f);
                    assert(open0[io2] == f);
                    let io0 = open0.index_of(f);
                    if io2 != io0 {
                        assert(open0[io2] != open0[io0]);
                    }
                }
                assert(stack2[io] == stack0[io]);
            }
        }
        assert forall|f: u64, t: u64|
            #[trigger] classified_non_back(types1, f, t) && !fin1.spec_contains(t) implies exists|
            ja: int,
            jb: int,
        |
            0 <= ja < jb < stack2.len() && #[trigger] open2[ja] == f && #[trigger] open2[jb]
                == t by {
            assert(classified_non_back(types0, f, t));
            assert(!fin0.spec_contains(t));
            assert(t != v);
            let (ja, jb) = choose|ja: int, jb: int|
                0 <= ja < jb < stack0.len() && #[trigger] open0[ja] == f && #[trigger] open0[jb]
                    == t;
            assert(jb != ll) by {
                assert(open0[jb] == t);
            }
            assert(open2[ja] == f && open2[jb] == t);
        }
    }
}

/// The state facts tied to the active work stack.
spec fn classify_open_inv(
    g: AdjacencyGraph,
    disc: NodeMap<u128>,
    fin: NodeMap<u128>,
    types: EdgeTypes,
    stack: Seq<(u64, usize)>,
) -> bool {
    let open = stack_nodes(stack);
    &&& open.no_duplicates()
    &&& forall|j: int|
        0 <= j < stack.len() ==> disc.spec_contains(#[trigger] open[j]) && !fin.spec_contains(
            open[j],
        )
    &&& forall|v: u64|
        #[trigger] disc.spec_contains(v) && !fin.spec_contains(v) ==> open.contains(v)
    &&& forall|j: int| 0 <= j < stack.len() - 1 ==> g.spec_has_edge(#[trigger] open[j], open[j + 1])
    &&& forall|j: int| 0 <= j < stack.len() ==> (#[trigger] stack[j]).1 <= g.nbrs(stack[j].0).len()
    &&& forall|j: int, idx: int|
        0 <= j < stack.len() && 0 <= idx < stack[j].1 ==> (#[trigger] types.spec_get(
            stack[j].0,
            g.nbrs(stack[j].0)[idx],
        )) is Some
    &&& forall|f: u64, t: u64|
        (#[trigger] types.spec_get(f, t)) is Some ==> fin.spec_contains(f) || (open.contains(f)
            && g.nbrs(f).index_of(t) < stack[open.index_of(f)].1)
    &&& forall|f: u64, t: u64|
        #[trigger] classified_non_back(types, f, t) && !fin.spec_contains(t) ==> exists|
            ja: int,
            jb: int,
        |
            0 <= ja < jb < stack.len() && #[trigger] open[ja] == f && #[trigger] open[jb] == t
    &&& forall|ja: int, jb: int|
        0 <= ja < jb < stack.len() ==> disc.val_of(#[trigger] open[ja]) < disc.val_of(
            #[trigger] open[jb],
        )
}

} // verus!


verus! {

impl AdjacencyGraph {
    /// Decides whether the graph contains a cycle, by classifying its
    /// edges: a back edge closes a cycle, and without back edges the
    /// DFS finish order numbers the graph acyclically. The answer is
    /// exact: `true` exactly when no acyclic numbering exists.
    pub fn is_cyclic(&self) -> (r: bool)
        requires
            self.wf(),
        ensures
            r == !acyclic(*self),
    {
        let ghost g = *self;
        let types = self.compute_edge_types();
        let ghost m0 = choose|m: Map<u64, int>| #[trigger] respects_finish_order(types, m);
        let tlen = types.len();
        let mut i: usize = 0;
        while i < tlen
            invariant
                self.wf(),
                g == *self,
                types.wf(),
                i <= tlen,
                tlen == types.spec_len(),
                respects_finish_order(types, m0),
                forall|f: u64, t: u64|
                    (#[trigger] types.spec_get(f, t)) is Some <==> g.spec_has_edge(f, t),
                forall|f: u64, t: u64|
                    types.spec_get(f, t) == Some(EdgeType::BackEdge) ==> crate::graph::reaches(
                        g,
                        t,
                        f,
                    ),
                forall|j: int|
                    0 <= j < i ==> (#[trigger] types.entry_seq()[j]).1 != EdgeType::BackEdge,
            decreases tlen - i,
        {
            let e = types.entry_at(i);
            match e.1 {
                EdgeType::BackEdge => {
                    proof {
                        // this edge closes a cycle, so no acyclic
                        // numbering can exist
                        types.lemma_entries_get();
                        assert(types.spec_get(e.0.0, e.0.1) == Some(EdgeType::BackEdge));
                        assert(crate::graph::reaches(g, e.0.1, e.0.0));
                        assert(g.spec_has_edge(e.0.0, e.0.1));
                        if acyclic(g) {
                            let p = choose|p: Seq<u64>|
                                is_path(g, p) && p.first() == e.0.1 && p.last() == e.0.0;
                            let q = p.push(e.0.1);
                            assert(is_path(g, q)) by {
                                assert forall|k: int| 0 <= k < q.len() - 1 implies g.spec_has_edge(
                                    #[trigger] q[k],
                                    q[k + 1],
                                ) by {
                                    if k < p.len() - 1 {
                                        assert(q[k] == p[k] && q[k + 1] == p[k + 1]);
                                        assert(g.spec_has_edge(p[k], p[k + 1]));
                                    } else {
                                        assert(q[k] == p.last() && q[k + 1] == e.0.1);
                                    }
                                }
                            }
                            assert(q.first() == e.0.1 && q.last() == e.0.1 && q.len() >= 2);
                            crate::graph::lemma_acyclic_no_cycle(g, q);
                        }
                    }
                    return true;
                },
                _ => {},
            }
            i += 1;
        }
        proof {
            // no back edge anywhere: the negated finish numbering
            // rises along every edge
            let m = Map::<u64, int>::new(|v: u64| m0.contains_key(v), |v: u64| -m0[v]);
            assert(edge_monotone(g, m)) by {
                assert forall|f: u64, t: u64| #[trigger] g.spec_has_edge(f, t) implies m
                    .contains_key(f) && m.contains_key(t) && m[f] < m[t] by {
                    assert((types.spec_get(f, t)) is Some);
                    types.lemma_get_entry(f, t);
                    let j = choose|j: int|
                        0 <= j < types.entry_seq().len() && #[trigger] types.entry_seq()[j] == (
                        (f, t),
                        types.spec_get(f, t)->Some_0,
                    );
                    assert((types.entry_seq()[j]).1 != EdgeType::BackEdge);
                    assert(crate::edge_types::classified_non_back(types, f, t));
                    assert(m0.contains_key(f) && m0.contains_key(t) && m0[t] < m0[f]);
                    assert(m[f] == -m0[f] && m[t] == -m0[t]);
                }
            }
            assert(acyclic(g));
        }
        false
    }
}

} // verus!
