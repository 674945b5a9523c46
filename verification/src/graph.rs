//! The directed multigraph core: an insertion-ordered node set plus a
//! mapping from each vertex to the ordered set of its successors.
//! Multi-edges collapse (re-inserting an edge is a no-op) and queries
//! on unknown vertices return empty results rather than failing.

use vstd::prelude::*;

use crate::{copy_vec_u64, extend_vec_u64, lemma_push_unique, push_unique, vec_contains_u64};

verus! {

/// A directed graph over `u64` vertex identifiers.
///
/// `nodes` lists the members of the node set in insertion order;
/// `adjacencies` maps each vertex with at least one recorded successor
/// list to that list, also in insertion order.
#[derive(Debug)]
pub struct AdjacencyGraph {
    nodes: Vec<u64>,
    adjacencies: Vec<(u64, Vec<u64>)>,
}

/// The keys of an adjacency table, in table order.
pub open spec fn row_keys(rows: Seq<(u64, Vec<u64>)>) -> Seq<u64> {
    rows.map_values(|p: (u64, Vec<u64>)| p.0)
}

/// The index of the last row keyed by `v`, or `-1` when there is none.
/// With duplicate-free keys this is the only such row.
pub open spec fn key_index(rows: Seq<(u64, Vec<u64>)>, v: u64) -> int
    decreases rows.len(),
{
    if rows.len() == 0 {
        -1
    } else if rows.last().0 == v {
        rows.len() - 1
    } else {
        key_index(rows.drop_last(), v)
    }
}

pub proof fn lemma_key_index(rows: Seq<(u64, Vec<u64>)>, v: u64)
    ensures
        -1 <= key_index(rows, v) < rows.len(),
        key_index(rows, v) >= 0 ==> rows[key_index(rows, v)].0 == v,
        forall|j: int| key_index(rows, v) < j < rows.len() ==> rows[j].0 != v,
        key_index(rows, v) >= 0 <==> row_keys(rows).contains(v),
    decreases rows.len(),
{
    if rows.len() == 0 {
        assert(!row_keys(rows).contains(v));
    } else if rows.last().0 == v {
        assert(row_keys(rows)[rows.len() - 1] == v);
    } else {
        lemma_key_index(rows.drop_last(), v);
        let ki = key_index(rows, v);
        assert forall|j: int| ki < j < rows.len() implies rows[j].0 != v by {
            if j < rows.len() - 1 {
                assert(rows.drop_last()[j] == rows[j]);
            }
        }
        if ki >= 0 {
            assert(rows.drop_last()[ki] == rows[ki]);
            assert(row_keys(rows)[ki] == v);
        } else {
            if row_keys(rows).contains(v) {
                let j = choose|j: int| 0 <= j < rows.len() && row_keys(rows)[j] == v;
                assert(rows[j].0 == v);
            }
        }
    }
}

pub proof fn lemma_key_index_locates(rows: Seq<(u64, Vec<u64>)>, v: u64, j: int)
    requires
        row_keys(rows).no_duplicates(),
        0 <= j < rows.len(),
        rows[j].0 == v,
    ensures
        key_index(rows, v) == j,
{
    lemma_key_index(rows, v);
    let ki = key_index(rows, v);
    assert(row_keys(rows)[j] == v);
    assert(ki >= j);
    if ki != j {
        assert(row_keys(rows)[ki] == v);
    }
}

pub proof fn lemma_key_index_same_keys(r1: Seq<(u64, Vec<u64>)>, r2: Seq<(u64, Vec<u64>)>, v: u64)
    requires
        row_keys(r1) == row_keys(r2),
    ensures
        key_index(r1, v) == key_index(r2, v),
    decreases r1.len(),
{
    assert(r1.len() == row_keys(r1).len());
    assert(r2.len() == row_keys(r2).len());
    if r1.len() > 0 {
        assert(row_keys(r1)[r1.len() - 1] == r1.last().0);
        assert(row_keys(r2)[r2.len() - 1] == r2.last().0);
        if r1.last().0 != v {
            assert(row_keys(r1.drop_last()) =~= row_keys(r2.drop_last())) by {
                assert forall|j: int| 0 <= j < r1.len() - 1 implies row_keys(r1.drop_last())[j]
                    == row_keys(r2.drop_last())[j] by {
                    assert(row_keys(r1)[j] == r1[j].0);
                    assert(row_keys(r2)[j] == r2[j].0);
                }
            }
            lemma_key_index_same_keys(r1.drop_last(), r2.drop_last(), v);
        }
    }
}

/// A finite walk: at least one vertex, each consecutive pair an edge.
pub open spec fn is_path(g: AdjacencyGraph, p: Seq<u64>) -> bool {
    &&& p.len() >= 1
    &&& forall|i: int| 0 <= i < p.len() - 1 ==> g.spec_has_edge(#[trigger] p[i], p[i + 1])
}

/// Directed reachability: some walk leads from `a` to `b`.
pub open spec fn reaches(g: AdjacencyGraph, a: u64, b: u64) -> bool {
    exists|p: Seq<u64>| is_path(g, p) && p.first() == a && p.last() == b
}

/// Whether `v` is an endpoint of some edge of `g`.
pub open spec fn touches(g: AdjacencyGraph, v: u64) -> bool {
    exists|w: u64|
        #![trigger g.spec_has_edge(v, w)]
        #![trigger g.spec_has_edge(w, v)]
        g.spec_has_edge(v, w) || g.spec_has_edge(w, v)
}

/// Every edge is mirrored, as in an undirected view.
pub open spec fn is_symmetric(g: AdjacencyGraph) -> bool {
    forall|a: u64, b: u64| #[trigger] g.spec_has_edge(a, b) ==> g.spec_has_edge(b, a)
}

/// `a` and `b` are joined by an edge in one direction or the other.
pub open spec fn linked(g: AdjacencyGraph, a: u64, b: u64) -> bool {
    g.spec_has_edge(a, b) || g.spec_has_edge(b, a)
}

/// The components form a partition of the node set of `g`: they are
/// non-empty, duplicate-free, pairwise disjoint, and their union is
/// exactly the node set.
pub open spec fn is_partition(g: AdjacencyGraph, comps: Seq<Vec<u64>>) -> bool {
    &&& forall|i: int|
        0 <= i < comps.len() ==> (#[trigger] comps[i])@.len() > 0 && comps[i]@.no_duplicates()
    &&& forall|i1: int, i2: int, v: u64|
        #![trigger comps[i1]@.contains(v), comps[i2]@.contains(v)]
        0 <= i1 < comps.len() && 0 <= i2 < comps.len() && i1 != i2 && comps[i1]@.contains(v)
            ==> !comps[i2]@.contains(v)
    &&& forall|v: u64|
        #[trigger] g.node_set().contains(v) <==> exists|i: int|
            0 <= i < comps.len() && (#[trigger] comps[i])@.contains(v)
}

/// A finite walk whose consecutive vertices are joined by an edge
/// read in either direction.
pub open spec fn is_link_path(g: AdjacencyGraph, p: Seq<u64>) -> bool {
    &&& p.len() >= 1
    &&& forall|i: int| 0 <= i < p.len() - 1 ==> linked(g, #[trigger] p[i], p[i + 1])
}

/// Weak connectivity: some walk ignoring edge direction leads from
/// `a` to `b`.
pub open spec fn weakly_connected(g: AdjacencyGraph, a: u64, b: u64) -> bool {
    exists|p: Seq<u64>| is_link_path(g, p) && p.first() == a && p.last() == b
}

/// Every vertex is weakly connected to itself, by the one-vertex walk.
pub proof fn lemma_weakly_connected_self(g: AdjacencyGraph, a: u64)
    ensures
        weakly_connected(g, a, a),
{
    let p = seq![a];
    assert(is_link_path(g, p));
    assert(p.first() == a && p.last() == a);
}

/// Weak connectivity extends along an edge in either direction.
pub proof fn lemma_weakly_connected_step(g: AdjacencyGraph, a: u64, b: u64, c: u64)
    requires
        weakly_connected(g, a, b),
        linked(g, b, c),
    ensures
        weakly_connected(g, a, c),
{
    let p = choose|p: Seq<u64>| is_link_path(g, p) && p.first() == a && p.last() == b;
    let q = p.push(c);
    assert(is_link_path(g, q)) by {
        assert forall|i: int| 0 <= i < q.len() - 1 implies linked(g, #[trigger] q[i], q[i + 1]) by {
            if i < p.len() - 1 {
                assert(q[i] == p[i] && q[i + 1] == p[i + 1]);
                assert(linked(g, p[i], p[i + 1]));
            } else {
                assert(q[i] == p.last() && q[i + 1] == c);
            }
        }
    }
    assert(q.first() == a && q.last() == c);
}

/// Weak connectivity is symmetric: the walk read backwards serves.
pub proof fn lemma_weakly_connected_sym(g: AdjacencyGraph, a: u64, b: u64)
    requires
        weakly_connected(g, a, b),
    ensures
        weakly_connected(g, b, a),
{
    let p = choose|p: Seq<u64>| is_link_path(g, p) && p.first() == a && p.last() == b;
    let n = p.len();
    let q = Seq::new(n, |i: int| p[n - 1 - i]);
    assert(is_link_path(g, q)) by {
        assert forall|i: int| 0 <= i < q.len() - 1 implies linked(g, #[trigger] q[i], q[i + 1]) by {
            assert(q[i] == p[n - 1 - i]);
            assert(q[i + 1] == p[n - 2 - i]);
            assert(linked(g, p[n - 2 - i], p[(n - 2 - i) + 1]));
        }
    }
    assert(q.first() == b && q.last() == a);
}

/// Weak connectivity is transitive: the two walks joined at their
/// shared endpoint serve.
pub proof fn lemma_weakly_connected_trans(g: AdjacencyGraph, a: u64, b: u64, c: u64)
    requires
        weakly_connected(g, a, b),
        weakly_connected(g, b, c),
    ensures
        weakly_connected(g, a, c),
{
    let p = choose|p: Seq<u64>| is_link_path(g, p) && p.first() == a && p.last() == b;
    let q = choose|q: Seq<u64>| is_link_path(g, q) && q.first() == b && q.last() == c;
    let r = p + q.subrange(1, q.len() as int);
    assert(r.len() == p.len() + q.len() - 1);
    assert(is_link_path(g, r)) by {
        assert forall|i: int| 0 <= i < r.len() - 1 implies linked(g, #[trigger] r[i], r[i + 1]) by {
            if i < p.len() - 1 {
                assert(r[i] == p[i] && r[i + 1] == p[i + 1]);
                assert(linked(g, p[i], p[i + 1]));
            } else if i == p.len() - 1 {
                assert(r[i] == p.last());
                assert(r[i + 1] == q[1]);
                assert(linked(g, q[0], q[1]));
            } else {
                let j = i - p.len() + 1;
                assert(r[i] == q[j] && r[i + 1] == q[j + 1]);
                assert(linked(g, q[j], q[j + 1]));
            }
        }
    }
    assert(r.first() == a && r.last() == c);
}

/// No edge of `g`, read in either direction, leaves any of the listed
/// components: each component is closed under the linked relation, so
/// none of them can be enlarged without merging two of them.
pub open spec fn components_closed(g: AdjacencyGraph, comps: Seq<Vec<u64>>) -> bool {
    forall|i: int, v: u64, w: u64|
        0 <= i < comps.len() && #[trigger] comps[i]@.contains(v) && #[trigger] linked(g, v, w)
            ==> comps[i]@.contains(w)
}

/// The node list that inserting the listed edges in order produces:
/// each edge contributes its source, then its target, each appended
/// only on first sight.
pub open spec fn nodes_of_edges(s: Seq<(u64, u64)>) -> Seq<u64>
    decreases s.len(),
{
    if s.len() == 0 {
        Seq::empty()
    } else {
        push_unique(push_unique(nodes_of_edges(s.drop_last()), s.last().0), s.last().1)
    }
}

/// How many vertices of the list `s` have an edge into `v`.
pub open spec fn in_degree_over(g: AdjacencyGraph, s: Seq<u64>, v: u64) -> nat
    decreases s.len(),
{
    if s.len() == 0 {
        0
    } else {
        in_degree_over(g, s.drop_last(), v) + (if g.spec_has_edge(s.last(), v) {
            1nat
        } else {
            0nat
        })
    }
}

/// The in-degree of `v`: how many vertices of the node set have an
/// edge into it.
pub open spec fn in_degree_of(g: AdjacencyGraph, v: u64) -> nat {
    in_degree_over(g, g.node_seq(), v)
}

/// Any two members of one listed component are joined by a walk that
/// ignores edge direction.
pub open spec fn components_connected(g: AdjacencyGraph, comps: Seq<Vec<u64>>) -> bool {
    forall|i: int, u: u64, v: u64|
        #![trigger comps[i]@.contains(u), comps[i]@.contains(v)]
        0 <= i < comps.len() && comps[i]@.contains(u) && comps[i]@.contains(v)
            ==> weakly_connected(g, u, v)
}

/// `m` strictly increases along every edge of `g`.
pub open spec fn edge_monotone(g: AdjacencyGraph, m: Map<u64, int>) -> bool {
    forall|f: u64, t: u64|
        #[trigger] g.spec_has_edge(f, t) ==> m.contains_key(f) && m.contains_key(t) && m[f] < m[t]
}

/// Acyclicity, witnessed by a numbering of the vertices that strictly
/// increases along every edge; such a graph admits no cycle
/// (`lemma_acyclic_no_cycle`).
pub open spec fn acyclic(g: AdjacencyGraph) -> bool {
    exists|m: Map<u64, int>| #[trigger] edge_monotone(g, m)
}

/// Along any walk of two or more vertices the numbering strictly
/// increases from the first vertex to the last.
pub proof fn lemma_path_monotone(g: AdjacencyGraph, m: Map<u64, int>, p: Seq<u64>)
    requires
        edge_monotone(g, m),
        is_path(g, p),
        p.len() >= 2,
    ensures
        m.contains_key(p.first()),
        m.contains_key(p.last()),
        m[p.first()] < m[p.last()],
    decreases p.len(),
{
    if p.len() == 2 {
        assert(g.spec_has_edge(p[0], p[1]));
    } else {
        let q = p.drop_last();
        assert(is_path(g, q)) by {
            assert forall|i: int| 0 <= i < q.len() - 1 implies #[trigger] g.spec_has_edge(
                q[i],
                q[i + 1],
            ) by {
                assert(g.spec_has_edge(p[i], p[i + 1]));
            }
        }
        lemma_path_monotone(g, m, q);
        assert(g.spec_has_edge(p[p.len() - 2], p[p.len() - 1]));
        assert(q.last() == p[p.len() - 2]);
    }
}

/// An acyclically numbered graph has no closed walk: every walk along
/// two or more vertices ends somewhere else than it began.
pub proof fn lemma_acyclic_no_cycle(g: AdjacencyGraph, p: Seq<u64>)
    requires
        acyclic(g),
        is_path(g, p),
        p.len() >= 2,
    ensures
        p.first() != p.last(),
{
    let m = choose|m: Map<u64, int>| #[trigger] edge_monotone(g, m);
    lemma_path_monotone(g, m, p);
}

/// Reachability extends along an edge.
pub proof fn lemma_reaches_step(g: AdjacencyGraph, a: u64, b: u64, c: u64)
    requires
        reaches(g, a, b),
        g.spec_has_edge(b, c),
    ensures
        reaches(g, a, c),
{
    let p = choose|p: Seq<u64>| is_path(g, p) && p.first() == a && p.last() == b;
    let q = p.push(c);
    assert(is_path(g, q)) by {
        assert forall|i: int| 0 <= i < q.len() - 1 implies #[trigger] g.spec_has_edge(
            q[i],
            q[i + 1],
        ) by {
            if i < p.len() - 1 {
                assert(q[i] == p[i] && q[i + 1] == p[i + 1]);
                assert(g.spec_has_edge(p[i], p[i + 1]));
            } else {
                assert(q[i] == p.last() && q[i + 1] == c);
            }
        }
    }
    assert(q.first() == a && q.last() == c);
}

/// A vertex list that holds the first vertex of a walk and is closed
/// under the edges of the graph holds every vertex the walk visits.
pub proof fn lemma_closed_list_reaches(g: AdjacencyGraph, cset: Seq<u64>, p: Seq<u64>)
    requires
        is_path(g, p),
        cset.contains(p.first()),
        forall|v: u64, w: u64|
            #![trigger cset.contains(v), g.spec_has_edge(v, w)]
            cset.contains(v) && g.spec_has_edge(v, w) ==> cset.contains(w),
    ensures
        cset.contains(p.last()),
    decreases p.len(),
{
    if p.len() > 1 {
        let q = p.drop_last();
        assert(is_path(g, q)) by {
            assert forall|i: int| 0 <= i < q.len() - 1 implies g.spec_has_edge(
                #[trigger] q[i],
                q[i + 1],
            ) by {
                assert(g.spec_has_edge(p[i], p[i + 1]));
            }
        }
        assert(q.first() == p.first());
        lemma_closed_list_reaches(g, cset, q);
        assert(g.spec_has_edge(p[p.len() - 2], p[p.len() - 1]));
        assert(q.last() == p[p.len() - 2]);
        assert(cset.contains(p[p.len() - 2]));
    }
}

/// Every vertex reaches itself, by the one-vertex walk.
pub proof fn lemma_reaches_self(g: AdjacencyGraph, a: u64)
    ensures
        reaches(g, a, a),
{
    let p = seq![a];
    assert(is_path(g, p));
    assert(p.first() == a && p.last() == a);
}

impl AdjacencyGraph {
    /// The node set, in insertion order.
    pub closed spec fn node_seq(&self) -> Seq<u64> {
        self.nodes@
    }

    pub open spec fn node_set(&self) -> Set<u64> {
        self.node_seq().to_set()
    }

    /// The vertices with a recorded successor list, in insertion order.
    pub closed spec fn key_seq(&self) -> Seq<u64> {
        row_keys(self.adjacencies@)
    }

    /// The successors of `v`, in insertion order; empty when unknown.
    pub closed spec fn nbrs(&self, v: u64) -> Seq<u64> {
        let ki = key_index(self.adjacencies@, v);
        if ki >= 0 {
            self.adjacencies@[ki].1@
        } else {
            Seq::empty()
        }
    }

    pub open spec fn spec_has_edge(&self, f: u64, t: u64) -> bool {
        self.nbrs(f).contains(t)
    }

    /// Internal consistency: no duplicate nodes, keys or successors,
    /// and every recorded vertex is a member of the node set.
    pub closed spec fn wf(&self) -> bool {
        &&& self.nodes@.no_duplicates()
        &&& row_keys(self.adjacencies@).no_duplicates()
        &&& forall|i: int|
            0 <= i < self.adjacencies@.len() ==> {
                &&& (#[trigger] self.adjacencies@[i]).1@.no_duplicates()
                &&& self.nodes@.contains(self.adjacencies@[i].0)
                &&& forall|k: int|
                    0 <= k < self.adjacencies@[i].1@.len() ==> self.nodes@.contains(
                        #[trigger] self.adjacencies@[i].1@[k],
                    )
            }
    }

    /// The consequences of well-formedness, stated over the public model.
    pub proof fn lemma_wf_facts(&self)
        requires
            self.wf(),
        ensures
            self.node_seq().no_duplicates(),
            self.key_seq().no_duplicates(),
            forall|v: u64| (#[trigger] self.nbrs(v)).no_duplicates(),
            forall|v: u64, t: u64|
                #[trigger] self.nbrs(v).contains(t) ==> self.node_set().contains(v)
                    && self.node_set().contains(t),
            forall|v: u64| #[trigger] self.key_seq().contains(v) ==> self.node_set().contains(v),
            forall|v: u64| !self.key_seq().contains(v) ==> self.nbrs(v) == Seq::<u64>::empty(),
    {
        let rows = self.adjacencies@;
        assert forall|v: u64| (#[trigger] self.nbrs(v)).no_duplicates() by {
            lemma_key_index(rows, v);
        }
        assert forall|v: u64, t: u64| #[trigger] self.nbrs(v).contains(t) implies self.node_set()
            .contains(v) && self.node_set().contains(t) by {
            lemma_key_index(rows, v);
            let ki = key_index(rows, v);
            assert(self.nodes@.contains(rows[ki].0));
            let k = choose|k: int| 0 <= k < rows[ki].1@.len() && rows[ki].1@[k] == t;
            assert(self.nodes@.contains(rows[ki].1@[k]));
        }
        assert forall|v: u64| #[trigger] self.key_seq().contains(v) implies self.node_set()
            .contains(v) by {
            let j = choose|j: int| 0 <= j < rows.len() && row_keys(rows)[j] == v;
            assert(rows[j].0 == v);
            assert(self.nodes@.contains(rows[j].0));
        }
        assert forall|v: u64| !self.key_seq().contains(v) implies self.nbrs(v) == Seq::<
            u64,
        >::empty() by {
            lemma_key_index(rows, v);
        }
    }

    /// Index of the adjacency row for `v`, if there is one.
    fn find_row(&self, v: u64) -> (r: Option<usize>)
        requires
            self.wf(),
        ensures
            match r {
                Some(i) => i < self.adjacencies@.len() && key_index(self.adjacencies@, v)
                    == i as int,
                None => key_index(self.adjacencies@, v) == -1,
            },
    {
        let rows_len = self.adjacencies.len();
        let mut i: usize = 0;
        while i < rows_len
            invariant
                self.wf(),
                i <= rows_len,
                rows_len == self.adjacencies@.len(),
                forall|j: int| 0 <= j < i ==> self.adjacencies@[j].0 != v,
            decreases rows_len - i,
        {
            if self.adjacencies[i].0 == v {
                proof {
                    lemma_key_index_locates(self.adjacencies@, v, i as int);
                }
                return Some(i);
            }
            i += 1;
        }
        proof {
            lemma_key_index(self.adjacencies@, v);
        }
        None
    }

    /// An empty graph.
    pub fn new() -> (r: AdjacencyGraph)
        ensures
            r.wf(),
            r.node_seq() == Seq::<u64>::empty(),
            r.key_seq() == Seq::<u64>::empty(),
            forall|v: u64| r.nbrs(v) == Seq::<u64>::empty(),
    {
        let r = AdjacencyGraph { nodes: Vec::new(), adjacencies: Vec::new() };
        proof {
            assert(r.key_seq() =~= Seq::<u64>::empty());
            assert forall|v: u64| r.nbrs(v) == Seq::<u64>::empty() by {
                lemma_key_index(r.adjacencies@, v);
            }
        }
        r
    }

    /// Inserts `node` into the node set; a no-op when already present.
    pub fn add_node(&mut self, node: u64)
        requires
            old(self).wf(),
        ensures
            final(self).wf(),
            final(self).node_seq() == push_unique(old(self).node_seq(), node),
            final(self).key_seq() == old(self).key_seq(),
            forall|v: u64| final(self).nbrs(v) == old(self).nbrs(v),
    {
        if !vec_contains_u64(&self.nodes, node) {
            self.nodes.push(node);
            proof {
                lemma_push_unique(old(self).node_seq(), node);
                assert forall|i: int| 0 <= i < self.adjacencies@.len() implies {
                    &&& (#[trigger] self.adjacencies@[i]).1@.no_duplicates()
                    &&& self.nodes@.contains(self.adjacencies@[i].0)
                    &&& forall|k: int|
                        0 <= k < self.adjacencies@[i].1@.len() ==> self.nodes@.contains(
                            #[trigger] self.adjacencies@[i].1@[k],
                        )
                } by {
                    assert(old(self).adjacencies@[i] == self.adjacencies@[i]);
                    assert forall|k: int|
                        0 <= k < self.adjacencies@[i].1@.len() implies self.nodes@.contains(
                        #[trigger] self.adjacencies@[i].1@[k],
                    ) by {
                        assert(old(self).nodes@.contains(self.adjacencies@[i].1@[k]));
                        lemma_push_unique(old(self).node_seq(), node);
                    }
                }
            }
        }
    }

    /// Inserts the edge `from -> to`, inserting both endpoints into the
    /// node set first; a no-op when the edge is already present.
    pub fn add_edge(&mut self, from: u64, to: u64)
        requires
            old(self).wf(),
        ensures
            final(self).wf(),
            final(self).node_seq() == push_unique(
                push_unique(old(self).node_seq(), from),
                to,
            ),
            final(self).key_seq() == push_unique(old(self).key_seq(), from),
            final(self).nbrs(from) == push_unique(old(self).nbrs(from), to),
            forall|v: u64| v != from ==> final(self).nbrs(v) == old(self).nbrs(v),
    {
        self.add_node(from);
        self.add_node(to);
        let ghost pre = *self;
        proof {
            lemma_push_unique(old(self).node_seq(), from);
            lemma_push_unique(push_unique(old(self).node_seq(), from), to);
        }
        match self.find_row(from) {
            Some(i) => {
                let mut lst = copy_vec_u64(&self.adjacencies[i].1);
                if !vec_contains_u64(&lst, to) {
                    lst.push(to);
                }
                self.adjacencies[i] = (from, lst);
                proof {
                    self.lemma_after_row_update(pre, i as int, from, to);
                    lemma_key_index(pre.adjacencies@, from);
                    assert(pre.key_seq().contains(from));
                }
            },
            None => {
                let mut lst: Vec<u64> = Vec::new();
                lst.push(to);
                self.adjacencies.push((from, lst));
                proof {
                    self.lemma_after_row_push(pre, from, to);
                }
            },
        }
    }

    /// Facts after replacing row `i` with the extended successor list.
    proof fn lemma_after_row_update(&self, pre: AdjacencyGraph, i: int, from: u64, to: u64)
        requires
            pre.wf(),
            pre.node_seq().contains(from),
            pre.node_seq().contains(to),
            0 <= i < pre.adjacencies@.len(),
            key_index(pre.adjacencies@, from) == i,
            self.nodes@ == pre.nodes@,
            self.adjacencies@.len() == pre.adjacencies@.len(),
            forall|j: int| 0 <= j < pre.adjacencies@.len() && j != i ==> self.adjacencies@[j] == pre.adjacencies@[j],
            self.adjacencies@[i].0 == from,
            self.adjacencies@[i].1@ == push_unique(pre.adjacencies@[i].1@, to),
        ensures
            self.wf(),
            self.node_seq() == pre.node_seq(),
            self.key_seq() == pre.key_seq(),
            self.nbrs(from) == push_unique(pre.nbrs(from), to),
            forall|v: u64| v != from ==> self.nbrs(v) == pre.nbrs(v),
    {
        let old_rows = pre.adjacencies@;
        let new_rows = self.adjacencies@;
        lemma_key_index(old_rows, from);
        assert(old_rows[i].0 == from);
        assert(row_keys(new_rows) =~= row_keys(old_rows)) by {
            assert forall|j: int| 0 <= j < old_rows.len() implies row_keys(new_rows)[j]
                == row_keys(old_rows)[j] by {
                assert(row_keys(new_rows)[j] == new_rows[j].0);
                assert(row_keys(old_rows)[j] == old_rows[j].0);
            }
        }
        assert forall|v: u64| key_index(new_rows, v) == key_index(old_rows, v) by {
            lemma_key_index_same_keys(new_rows, old_rows, v);
        }
        lemma_push_unique(old_rows[i].1@, to);
        assert(self.nbrs(from) == push_unique(pre.nbrs(from), to));
        assert forall|v: u64| v != from implies self.nbrs(v) == pre.nbrs(v) by {
            lemma_key_index(old_rows, v);
            let ki = key_index(old_rows, v);
            if ki >= 0 {
                assert(ki != i);
                assert(new_rows[ki] == old_rows[ki]);
            }
        }
        assert forall|j: int| 0 <= j < new_rows.len() implies {
            &&& (#[trigger] new_rows[j]).1@.no_duplicates()
            &&& self.nodes@.contains(new_rows[j].0)
            &&& forall|k: int|
                0 <= k < new_rows[j].1@.len() ==> self.nodes@.contains(
                    #[trigger] new_rows[j].1@[k],
                )
        } by {
            if j == i {
                lemma_push_unique(old_rows[i].1@, to);
                assert forall|k: int| 0 <= k < new_rows[j].1@.len() implies self.nodes@.contains(
                    #[trigger] new_rows[j].1@[k],
                ) by {
                    if new_rows[j].1@[k] != to {
                        assert(old_rows[i].1@.contains(new_rows[j].1@[k])) by {
                            if !old_rows[i].1@.contains(to) {
                                assert(new_rows[j].1@ == old_rows[i].1@.push(to));
                                assert(old_rows[i].1@[k] == new_rows[j].1@[k]);
                            }
                        }
                        let k2 = choose|k2: int|
                            0 <= k2 < old_rows[i].1@.len() && old_rows[i].1@[k2] == new_rows[j].1@[k];
                        assert(pre.nodes@.contains(old_rows[i].1@[k2]));
                    }
                }
            } else {
                assert(new_rows[j] == old_rows[j]);
                assert forall|k: int| 0 <= k < new_rows[j].1@.len() implies self.nodes@.contains(
                    #[trigger] new_rows[j].1@[k],
                ) by {
                    assert(pre.nodes@.contains(old_rows[j].1@[k]));
                }
            }
        }
    }

    /// Facts after appending a fresh row `(from, [to])`.
    proof fn lemma_after_row_push(&self, pre: AdjacencyGraph, from: u64, to: u64)
        requires
            pre.wf(),
            pre.node_seq().contains(from),
            pre.node_seq().contains(to),
            key_index(pre.adjacencies@, from) == -1,
            self.nodes@ == pre.nodes@,
            self.adjacencies@.len() == pre.adjacencies@.len() + 1,
            forall|j: int| 0 <= j < pre.adjacencies@.len() ==> self.adjacencies@[j] == pre.adjacencies@[j],
            self.adjacencies@.last().0 == from,
            self.adjacencies@.last().1@ == Seq::<u64>::empty().push(to),
        ensures
            self.wf(),
            self.node_seq() == pre.node_seq(),
            self.key_seq() == push_unique(pre.key_seq(), from),
            self.nbrs(from) == push_unique(pre.nbrs(from), to),
            forall|v: u64| v != from ==> self.nbrs(v) == pre.nbrs(v),
    {
        let old_rows = pre.adjacencies@;
        let new_rows = self.adjacencies@;
        lemma_key_index(old_rows, from);
        assert(!pre.key_seq().contains(from));
        assert(self.key_seq() =~= pre.key_seq().push(from)) by {
            assert forall|j: int| 0 <= j < new_rows.len() implies row_keys(new_rows)[j]
                == pre.key_seq().push(from)[j] by {
                assert(row_keys(new_rows)[j] == new_rows[j].0);
                if j < old_rows.len() {
                    assert(row_keys(old_rows)[j] == old_rows[j].0);
                }
            }
        }
        lemma_push_unique(pre.key_seq(), from);
        assert(self.key_seq() == push_unique(pre.key_seq(), from));
        assert(new_rows.last().0 == from);
        assert(key_index(new_rows, from) == new_rows.len() - 1);
        assert(pre.nbrs(from) == Seq::<u64>::empty());
        assert(self.nbrs(from) =~= Seq::<u64>::empty().push(to));
        lemma_push_unique(Seq::<u64>::empty(), to);
        assert forall|v: u64| v != from implies self.nbrs(v) == pre.nbrs(v) by {
            assert(new_rows.drop_last() =~= old_rows);
            assert(key_index(new_rows, v) == key_index(old_rows, v));
            lemma_key_index(old_rows, v);
            let ki = key_index(old_rows, v);
            if ki >= 0 {
                assert(new_rows[ki] == old_rows[ki]);
            }
        }
        assert forall|j: int| 0 <= j < new_rows.len() implies {
            &&& (#[trigger] new_rows[j]).1@.no_duplicates()
            &&& self.nodes@.contains(new_rows[j].0)
            &&& forall|k: int|
                0 <= k < new_rows[j].1@.len() ==> self.nodes@.contains(
                    #[trigger] new_rows[j].1@[k],
                )
        } by {
            if j < old_rows.len() {
                assert(new_rows[j] == old_rows[j]);
                assert forall|k: int| 0 <= k < new_rows[j].1@.len() implies self.nodes@.contains(
                    #[trigger] new_rows[j].1@[k],
                ) by {
                    assert(pre.nodes@.contains(old_rows[j].1@[k]));
                }
            } else {
                assert(new_rows[j].1@ =~= Seq::<u64>::empty().push(to));
            }
        }
        assert(row_keys(new_rows).no_duplicates());
    }

    /// The successors of `node`, as an owned list; empty when unknown.
    pub fn neighbors(&self, node: u64) -> (r: Vec<u64>)
        requires
            self.wf(),
        ensures
            r@ == self.nbrs(node),
    {
        match self.find_row(node) {
            Some(i) => copy_vec_u64(&self.adjacencies[i].1),
            None => Vec::new(),
        }
    }

    /// The recorded successor list of `node`, if any.
    pub fn get_adjacencies(&self, node: u64) -> (r: Option<&Vec<u64>>)
        requires
            self.wf(),
        ensures
            match r {
                Some(l) => self.key_seq().contains(node) && l@ == self.nbrs(node),
                None => !self.key_seq().contains(node) && self.nbrs(node) == Seq::<u64>::empty(),
            },
    {
        proof {
            lemma_key_index(self.adjacencies@, node);
        }
        match self.find_row(node) {
            Some(i) => {
                proof {
                    assert(row_keys(self.adjacencies@)[i as int] == self.adjacencies@[i as int].0);
                }
                Some(&self.adjacencies[i].1)
            },
            None => None,
        }
    }

    /// The whole adjacency table: each recorded vertex paired with its
    /// successor list, in insertion order.
    pub fn adjacencies(&self) -> (r: &Vec<(u64, Vec<u64>)>)
        requires
            self.wf(),
        ensures
            r@.len() == self.key_seq().len(),
            forall|i: int|
                0 <= i < r@.len() ==> (#[trigger] r@[i]).0 == self.key_seq()[i] && r@[i].1@
                    == self.nbrs(r@[i].0),
    {
        proof {
            assert forall|i: int| 0 <= i < self.adjacencies@.len() implies (
            #[trigger] self.adjacencies@[i]).0 == self.key_seq()[i] && self.adjacencies@[i].1@
                == self.nbrs(self.adjacencies@[i].0) by {
                assert(row_keys(self.adjacencies@)[i] == self.adjacencies@[i].0);
                lemma_key_index_locates(self.adjacencies@, self.adjacencies@[i].0, i);
            }
        }
        &self.adjacencies
    }

    /// How many vertices the node set holds.
    pub fn node_count(&self) -> (r: usize)
        ensures
            r == self.node_seq().len(),
    {
        self.nodes.len()
    }

    /// The node set, as an owned list in insertion order.
    pub fn nodes(&self) -> (r: Vec<u64>)
        ensures
            r@ == self.node_seq(),
    {
        copy_vec_u64(&self.nodes)
    }

    /// All edges as `(from, to)` pairs, grouped by source in table order.
    pub fn edges(&self) -> (r: Vec<(u64, u64)>)
        requires
            self.wf(),
        ensures
            r@.no_duplicates(),
            forall|f: u64, t: u64| #[trigger] r@.contains((f, t)) <==> self.spec_has_edge(f, t),
    {
        let rows_len = self.adjacencies.len();
        let mut r: Vec<(u64, u64)> = Vec::new();
        let mut i: usize = 0;
        while i < rows_len
            invariant
                self.wf(),
                i <= rows_len,
                rows_len == self.adjacencies@.len(),
                r@.no_duplicates(),
                forall|f: u64, t: u64|
                    #[trigger] r@.contains((f, t)) <==> exists|j: int|
                        0 <= j < i && (#[trigger] self.adjacencies@[j]).0 == f
                            && self.adjacencies@[j].1@.contains(t),
            decreases rows_len - i,
        {
            let row_len = self.adjacencies[i].1.len();
            let key = self.adjacencies[i].0;
            let mut k: usize = 0;
            while k < row_len
                invariant
                    self.wf(),
                    i < rows_len,
                    rows_len == self.adjacencies@.len(),
                    k <= row_len,
                    row_len == self.adjacencies@[i as int].1@.len(),
                    key == self.adjacencies@[i as int].0,
                    r@.no_duplicates(),
                    forall|f: u64, t: u64|
                        #[trigger] r@.contains((f, t)) <==> (exists|j: int|
                            0 <= j < i && (#[trigger] self.adjacencies@[j]).0 == f
                                && self.adjacencies@[j].1@.contains(t)) || (f == key
                            && self.adjacencies@[i as int].1@.subrange(0, k as int).contains(t)),
                decreases row_len - k,
            {
                let t = self.adjacencies[i].1[k];
                proof {
                    let row = self.adjacencies@[i as int].1@;
                    // the pair is fresh: no earlier row has this key, and
                    // the prefix of this row cannot repeat the value
                    if r@.contains((key, row[k as int])) {
                        if exists|j: int|
                            0 <= j < i && (#[trigger] self.adjacencies@[j]).0 == key
                                && self.adjacencies@[j].1@.contains(row[k as int]) {
                            let j = choose|j: int|
                                0 <= j < i && (#[trigger] self.adjacencies@[j]).0 == key
                                    && self.adjacencies@[j].1@.contains(row[k as int]);
                            assert(row_keys(self.adjacencies@)[j] == key);
                            assert(row_keys(self.adjacencies@)[i as int] == key);
                        } else {
                            let k2 = choose|k2: int|
                                0 <= k2 < k && row.subrange(0, k as int)[k2] == row[k as int];
                            assert(row[k2] == row[k as int]);
                        }
                    }
                }
                let ghost r_pre = r@;
                r.push((key, t));
                proof {
                    let row = self.adjacencies@[i as int].1@;
                    assert(row.subrange(0, k + 1 as int) =~= row.subrange(0, k as int).push(
                        row[k as int],
                    ));
                    assert forall|f: u64, t2: u64| #[trigger] r@.contains((f, t2)) implies (
                    exists|j: int|
                        0 <= j < i && (#[trigger] self.adjacencies@[j]).0 == f
                            && self.adjacencies@[j].1@.contains(t2)) || (f == key && row.subrange(
                        0,
                        k + 1 as int,
                    ).contains(t2)) by {
                        let ri = choose|ri: int| 0 <= ri < r@.len() && r@[ri] == (f, t2);
                        if ri < r@.len() - 1 {
                            assert(r_pre[ri] == (f, t2));
                            assert(r_pre.contains((f, t2)));
                        } else {
                            assert((f, t2) == (key, row[k as int]));
                            assert(row.subrange(0, k + 1 as int)[k as int] == t2);
                        }
                    }
                    assert forall|f: u64, t2: u64|
                        (exists|j: int|
                            0 <= j < i && (#[trigger] self.adjacencies@[j]).0 == f
                                && self.adjacencies@[j].1@.contains(t2)) || (f == key
                            && row.subrange(0, k + 1 as int).contains(t2)) implies #[trigger] r@
                        .contains((f, t2)) by {
                        if f == key && row.subrange(0, k + 1 as int).contains(t2) && !row.subrange(
                            0,
                            k as int,
                        ).contains(t2) {
                            assert(r@[r@.len() - 1] == (f, t2));
                        } else {
                            assert(r_pre.contains((f, t2)));
                            let ri = choose|ri: int|
                                0 <= ri < r_pre.len() && r_pre[ri] == (f, t2);
                            assert(r@[ri] == (f, t2));
                        }
                    }
                }
                k += 1;
            }
            proof {
                let row = self.adjacencies@[i as int].1@;
                assert(row.subrange(0, row.len() as int) =~= row);
                assert forall|f: u64, t: u64| #[trigger] r@.contains((f, t)) implies exists|j: int|
                    0 <= j < i + 1 && (#[trigger] self.adjacencies@[j]).0 == f
                        && self.adjacencies@[j].1@.contains(t) by {
                    if f == key && row.contains(t) {
                        assert((#[trigger] self.adjacencies@[i as int]).0 == f);
                    }
                }
            }
            i += 1;
        }
        proof {
            let rows = self.adjacencies@;
            assert forall|f: u64, t: u64| #[trigger] r@.contains((f, t)) implies self.spec_has_edge(
                f,
                t,
            ) by {
                let j = choose|j: int|
                    0 <= j < rows.len() && (#[trigger] rows[j]).0 == f && rows[j].1@.contains(t);
                lemma_key_index_locates(rows, f, j);
            }
            assert forall|f: u64, t: u64| self.spec_has_edge(f, t) implies #[trigger] r@.contains(
                (f, t),
            ) by {
                lemma_key_index(rows, f);
                let ki = key_index(rows, f);
                assert(0 <= ki < rows.len() && rows[ki].0 == f && rows[ki].1@.contains(t));
            }
        }
        r
    }

    /// Builds a graph from a list of edges, inserted in order.
    pub fn from_edges(edges: &[(u64, u64)]) -> (r: AdjacencyGraph)
        ensures
            r.wf(),
            forall|f: u64, t: u64| #[trigger] r.spec_has_edge(f, t) <==> edges@.contains((f, t)),
            forall|v: u64|
                #[trigger] r.node_set().contains(v) <==> exists|e: (u64, u64)|
                    #[trigger] edges@.contains(e) && (v == e.0 || v == e.1),
            r.node_seq() == nodes_of_edges(edges@),
    {
        let mut g = AdjacencyGraph::new();
        proof {
            assert(edges@.subrange(0, 0) =~= Seq::<(u64, u64)>::empty());
            assert(g.node_set() =~= Set::<u64>::empty());
            assert(g.node_seq() == nodes_of_edges(edges@.subrange(0, 0)));
        }
        let len = edges.len();
        let mut i: usize = 0;
        while i < len
            invariant
                g.wf(),
                i <= len,
                len == edges@.len(),
                forall|f: u64, t: u64|
                    #[trigger] g.spec_has_edge(f, t) <==> edges@.subrange(0, i as int).contains(
                        (f, t),
                    ),
                forall|v: u64|
                    #[trigger] g.node_set().contains(v) <==> exists|e: (u64, u64)|
                        #[trigger] edges@.subrange(0, i as int).contains(e) && (v == e.0 || v
                            == e.1),
                g.node_seq() == nodes_of_edges(edges@.subrange(0, i as int)),
            decreases len - i,
        {
            let e = edges[i];
            let ghost pre = g;
            g.add_edge(e.0, e.1);
            proof {
                lemma_push_unique(pre.nbrs(e.0), e.1);
                lemma_push_unique(pre.node_seq(), e.0);
                lemma_push_unique(push_unique(pre.node_seq(), e.0), e.1);
                let sub1 = edges@.subrange(0, i + 1 as int);
                assert(sub1 =~= edges@.subrange(0, i as int).push(e));
                assert(g.node_seq() == nodes_of_edges(sub1)) by {
                    assert(sub1.drop_last() =~= edges@.subrange(0, i as int));
                    assert(sub1.last() == e);
                }
                assert forall|f: u64, t: u64| #[trigger] g.spec_has_edge(f, t) implies sub1
                    .contains((f, t)) by {
                    if pre.spec_has_edge(f, t) {
                        let ri = choose|ri: int|
                            0 <= ri < i && edges@.subrange(0, i as int)[ri] == (f, t);
                        assert(sub1[ri] == (f, t));
                    } else {
                        assert(sub1[i as int] == (f, t));
                    }
                }
                assert forall|f: u64, t: u64| sub1.contains((f, t)) implies #[trigger] g
                    .spec_has_edge(f, t) by {
                    let ri = choose|ri: int| 0 <= ri < sub1.len() && sub1[ri] == (f, t);
                    if ri < i {
                        assert(edges@.subrange(0, i as int)[ri] == (f, t));
                        assert(pre.spec_has_edge(f, t));
                    }
                }
                assert forall|v: u64| #[trigger] g.node_set().contains(v) implies exists|e2: (u64, u64)|
                    #[trigger] sub1.contains(e2) && (v == e2.0 || v == e2.1) by {
                    if pre.node_set().contains(v) {
                        let e2 = choose|e2: (u64, u64)|
                            #[trigger] edges@.subrange(0, i as int).contains(e2) && (v == e2.0 || v
                                == e2.1);
                        let ri = choose|ri: int|
                            0 <= ri < i && edges@.subrange(0, i as int)[ri] == e2;
                        assert(sub1[ri] == e2);
                        assert(sub1.contains(e2));
                    } else {
                        assert(sub1[i as int] == e);
                        assert(sub1.contains(e));
                    }
                }
                assert forall|v: u64|
                    (exists|e2: (u64, u64)| #[trigger] sub1.contains(e2) && (v == e2.0 || v == e2.1))
                    implies #[trigger] g.node_set().contains(v) by {
                    let e2 = choose|e2: (u64, u64)|
                        #[trigger] sub1.contains(e2) && (v == e2.0 || v == e2.1);
                    let ri = choose|ri: int| 0 <= ri < sub1.len() && sub1[ri] == e2;
                    if ri < i {
                        assert(edges@.subrange(0, i as int)[ri] == e2);
                        assert(edges@.subrange(0, i as int).contains(e2));
                        assert(pre.node_set().contains(v));
                    }
                }
            }
            i += 1;
        }
        proof {
            assert(edges@.subrange(0, len as int) =~= edges@);
        }
        g
    }

    /// The graph with every edge reversed; its node set is the set of
    /// edge endpoints.
    pub fn opposite(&self) -> (r: AdjacencyGraph)
        requires
            self.wf(),
        ensures
            r.wf(),
            forall|f: u64, t: u64| #[trigger] r.spec_has_edge(f, t) <==> self.spec_has_edge(t, f),
            forall|v: u64| #[trigger] r.node_set().contains(v) <==> touches(*self, v),
    {
        let edges = self.edges();
        let mut r = AdjacencyGraph::new();
        proof {
            assert(r.node_set() =~= Set::<u64>::empty());
        }
        let len = edges.len();
        let mut i: usize = 0;
        while i < len
            invariant
                self.wf(),
                r.wf(),
                i <= len,
                len == edges@.len(),
                forall|f: u64, t: u64| #[trigger] edges@.contains((f, t)) <==> self.spec_has_edge(f, t),
                forall|f: u64, t: u64|
                    #[trigger] r.spec_has_edge(f, t) <==> edges@.subrange(0, i as int).contains(
                        (t, f),
                    ),
                forall|v: u64|
                    #[trigger] r.node_set().contains(v) <==> exists|e: (u64, u64)|
                        #[trigger] edges@.subrange(0, i as int).contains(e) && (v == e.0 || v
                            == e.1),
            decreases len - i,
        {
            let e = edges[i];
            let ghost pre = r;
            r.add_edge(e.1, e.0);
            proof {
                lemma_push_unique(pre.nbrs(e.1), e.0);
                lemma_push_unique(pre.node_seq(), e.1);
                lemma_push_unique(push_unique(pre.node_seq(), e.1), e.0);
                let sub1 = edges@.subrange(0, i + 1 as int);
                assert(sub1 =~= edges@.subrange(0, i as int).push(e));
                assert forall|f: u64, t: u64| #[trigger] r.spec_has_edge(f, t) implies sub1
                    .contains((t, f)) by {
                    if pre.spec_has_edge(f, t) {
                        let ri = choose|ri: int|
                            0 <= ri < i && edges@.subrange(0, i as int)[ri] == (t, f);
                        assert(sub1[ri] == (t, f));
                    } else {
                        assert(sub1[i as int] == (t, f));
                    }
                }
                assert forall|f: u64, t: u64| sub1.contains((t, f)) implies #[trigger] r
                    .spec_has_edge(f, t) by {
                    let ri = choose|ri: int| 0 <= ri < sub1.len() && sub1[ri] == (t, f);
                    if ri < i {
                        assert(edges@.subrange(0, i as int)[ri] == (t, f));
                        assert(pre.spec_has_edge(f, t));
                    }
                }
                assert forall|v: u64| #[trigger] r.node_set().contains(v) implies exists|e2: (u64, u64)|
                    #[trigger] sub1.contains(e2) && (v == e2.0 || v == e2.1) by {
                    if pre.node_set().contains(v) {
                        let e2 = choose|e2: (u64, u64)|
                            #[trigger] edges@.subrange(0, i as int).contains(e2) && (v == e2.0 || v
                                == e2.1);
                        let ri = choose|ri: int|
                            0 <= ri < i && edges@.subrange(0, i as int)[ri] == e2;
                        assert(sub1[ri] == e2);
                        assert(sub1.contains(e2));
                    } else {
                        assert(sub1[i as int] == e);
                        assert(sub1.contains(e));
                    }
                }
                assert forall|v: u64|
                    (exists|e2: (u64, u64)| #[trigger] sub1.contains(e2) && (v == e2.0 || v == e2.1))
                    implies #[trigger] r.node_set().contains(v) by {
                    let e2 = choose|e2: (u64, u64)|
                        #[trigger] sub1.contains(e2) && (v == e2.0 || v == e2.1);
                    let ri = choose|ri: int| 0 <= ri < sub1.len() && sub1[ri] == e2;
                    if ri < i {
                        assert(edges@.subrange(0, i as int)[ri] == e2);
                        assert(edges@.subrange(0, i as int).contains(e2));
                        assert(pre.node_set().contains(v));
                    }
                }
            }
            i += 1;
        }
        proof {
            assert(edges@.subrange(0, i as int) =~= edges@);
            let ghost gg = *self;
            assert forall|v: u64| #[trigger] r.node_set().contains(v) implies touches(gg, v) by {
                let e2 = choose|e2: (u64, u64)|
                    #[trigger] edges@.subrange(0, i as int).contains(e2) && (v == e2.0 || v
                        == e2.1);
                assert(edges@.contains(e2));
                assert(gg.spec_has_edge(e2.0, e2.1));
                if v == e2.0 {
                    assert(gg.spec_has_edge(v, e2.1));
                } else {
                    assert(gg.spec_has_edge(e2.0, v));
                }
            }
            assert forall|v: u64| touches(gg, v) implies #[trigger] r.node_set().contains(v) by {
                let w = choose|w: u64|
                    #![trigger gg.spec_has_edge(v, w)]
                    #![trigger gg.spec_has_edge(w, v)]
                    gg.spec_has_edge(v, w) || gg.spec_has_edge(w, v);
                if gg.spec_has_edge(v, w) {
                    assert(edges@.contains((v, w)));
                    assert(edges@.subrange(0, i as int).contains((v, w)) && (v == v || v == w));
                } else {
                    assert(gg.spec_has_edge(w, v));
                    assert(edges@.contains((w, v)));
                    assert(edges@.subrange(0, i as int).contains((w, v)) && (v == w || v == v));
                }
            }
        }
        r
    }

    /// The induced subgraph over `subset`: the edges whose endpoints
    /// both lie in `subset`, re-derived by filtering each member's
    /// successors against membership in `subset`.
    pub fn restricted(&self, subset: &Vec<u64>) -> (r: AdjacencyGraph)
        requires
            self.wf(),
        ensures
            r.wf(),
            forall|f: u64, t: u64|
                #[trigger] r.spec_has_edge(f, t) <==> (self.spec_has_edge(f, t)
                    && subset@.contains(f) && subset@.contains(t)),
    {
        let mut r = AdjacencyGraph::new();
        let slen = subset.len();
        let mut i: usize = 0;
        while i < slen
            invariant
                self.wf(),
                r.wf(),
                i <= slen,
                slen == subset@.len(),
                forall|f: u64, t: u64|
                    #[trigger] r.spec_has_edge(f, t) <==> (self.spec_has_edge(f, t)
                        && subset@.subrange(0, i as int).contains(f) && subset@.contains(t)),
            decreases slen - i,
        {
            let node = subset[i];
            let nb = self.neighbors(node);
            let nblen = nb.len();
            let mut k: usize = 0;
            while k < nblen
                invariant
                    self.wf(),
                    r.wf(),
                    i < slen,
                    slen == subset@.len(),
                    node == subset@[i as int],
                    nb@ == self.nbrs(node),
                    k <= nblen,
                    nblen == nb@.len(),
                    forall|f: u64, t: u64|
                        #[trigger] r.spec_has_edge(f, t) <==> (self.spec_has_edge(f, t) && (
                        subset@.subrange(0, i as int).contains(f) || (f == node && self.nbrs(
                            node,
                        ).index_of(t) < k)) && subset@.contains(t)),
                decreases nblen - k,
            {
                let t = nb[k];
                proof {
                    self.lemma_wf_facts();
                    assert(self.nbrs(node)[k as int] == t);
                    assert(self.nbrs(node).index_of(t) == k) by {
                        let io = self.nbrs(node).index_of(t);
                        assert(self.nbrs(node).contains(t));
                        assert(self.nbrs(node)[io] == t);
                    }
                }
                if vec_contains_u64(subset, t) {
                    let ghost pre = r;
                    r.add_edge(node, t);
                    proof {
                        lemma_push_unique(pre.nbrs(node), t);
                        assert forall|f2: u64, t2: u64| #[trigger] r.spec_has_edge(f2, t2) <==> (
                        pre.spec_has_edge(f2, t2) || (f2 == node && t2 == t)) by {
                            if f2 == node {
                                assert(r.nbrs(f2) == push_unique(pre.nbrs(f2), t));
                            } else {
                                assert(r.nbrs(f2) == pre.nbrs(f2));
                            }
                        }
                    }
                }
                proof {
                    assert forall|f2: u64, t2: u64| #[trigger] r.spec_has_edge(f2, t2) implies (
                    self.spec_has_edge(f2, t2) && (subset@.subrange(0, i as int).contains(f2) || (
                    f2 == node && self.nbrs(node).index_of(t2) < k + 1)) && subset@.contains(
                        t2,
                    )) by {
                        if f2 == node && t2 == t && subset@.contains(t) {
                            assert(self.nbrs(node).index_of(t) == k);
                        }
                    }
                    assert forall|f2: u64, t2: u64|
                        (self.spec_has_edge(f2, t2) && (subset@.subrange(0, i as int).contains(f2)
                            || (f2 == node && self.nbrs(node).index_of(t2) < k + 1))
                            && subset@.contains(t2)) implies #[trigger] r.spec_has_edge(
                        f2,
                        t2,
                    ) by {
                        if f2 == node && !subset@.subrange(0, i as int).contains(f2) {
                            let io = self.nbrs(node).index_of(t2);
                            assert(self.nbrs(node).contains(t2));
                            assert(self.nbrs(node)[io] == t2);
                            if io == k {
                                assert(t2 == t);
                            }
                        }
                    }
                }
                k += 1;
            }
            proof {
                assert(subset@.subrange(0, i + 1 as int) =~= subset@.subrange(0, i as int).push(
                    subset@[i as int],
                ));
                assert forall|f2: u64, t2: u64| #[trigger] r.spec_has_edge(f2, t2) implies (
                self.spec_has_edge(f2, t2) && subset@.subrange(0, i + 1 as int).contains(f2)
                    && subset@.contains(t2)) by {
                    if subset@.subrange(0, i as int).contains(f2) {
                        let j = choose|j: int| 0 <= j < i && subset@.subrange(0, i as int)[j] == f2;
                        assert(subset@.subrange(0, i + 1 as int)[j] == f2);
                    } else {
                        assert(f2 == node);
                        assert(subset@.subrange(0, i + 1 as int)[i as int] == f2);
                    }
                }
                assert forall|f2: u64, t2: u64|
                    (self.spec_has_edge(f2, t2) && subset@.subrange(0, i + 1 as int).contains(f2)
                        && subset@.contains(t2)) implies #[trigger] r.spec_has_edge(f2, t2) by {
                    let j = choose|j: int|
                        0 <= j < i + 1 && (#[trigger] subset@.subrange(0, i + 1 as int)[j]) == f2;
                    if j < i {
                        assert(subset@.subrange(0, i as int)[j] == f2);
                    } else {
                        assert(f2 == node);
                        let io = self.nbrs(node).index_of(t2);
                        assert(self.nbrs(node).contains(t2));
                        assert(self.nbrs(node)[io] == t2);
                        self.lemma_wf_facts();
                        assert(io < nb@.len());
                    }
                }
            }
            i += 1;
        }
        proof {
            assert(subset@.subrange(0, slen as int) =~= subset@);
        }
        r
    }

    /// Removes the edge `from -> to`; a no-op when absent.
    pub fn remove_edge(&mut self, from: u64, to: u64)
        requires
            old(self).wf(),
        ensures
            final(self).wf(),
            final(self).node_seq() == old(self).node_seq(),
            final(self).key_seq() == old(self).key_seq(),
            final(self).nbrs(from) == old(self).nbrs(from).remove_value(to),
            forall|v: u64| v != from ==> final(self).nbrs(v) == old(self).nbrs(v),
    {
        match self.find_row(from) {
            Some(i) => {
                let lst = crate::remove_value_u64(&self.adjacencies[i].1, to);
                let key = self.adjacencies[i].0;
                proof {
                    lemma_key_index(self.adjacencies@, from);
                }
                self.adjacencies[i] = (key, lst);
                proof {
                    self.lemma_after_row_removed(*old(self), i as int, from, to);
                }
            },
            None => {
                proof {
                    assert(self.nbrs(from) == Seq::<u64>::empty());
                    old(self).nbrs(from).index_of_first_ensures(to);
                }
            },
        }
    }

    /// Facts after replacing row `i` with the shortened successor list.
    proof fn lemma_after_row_removed(&self, pre: AdjacencyGraph, i: int, from: u64, to: u64)
        requires
            pre.wf(),
            0 <= i < pre.adjacencies@.len(),
            key_index(pre.adjacencies@, from) == i,
            self.nodes@ == pre.nodes@,
            self.adjacencies@.len() == pre.adjacencies@.len(),
            forall|j: int|
                0 <= j < pre.adjacencies@.len() && j != i ==> self.adjacencies@[j]
                    == pre.adjacencies@[j],
            self.adjacencies@[i].0 == from,
            self.adjacencies@[i].1@ == pre.adjacencies@[i].1@.remove_value(to),
        ensures
            self.wf(),
            self.node_seq() == pre.node_seq(),
            self.key_seq() == pre.key_seq(),
            self.nbrs(from) == pre.nbrs(from).remove_value(to),
            forall|v: u64| v != from ==> self.nbrs(v) == pre.nbrs(v),
    {
        let old_rows = pre.adjacencies@;
        let new_rows = self.adjacencies@;
        let old_row = old_rows[i].1@;
        lemma_key_index(old_rows, from);
        assert(old_rows[i].0 == from);
        assert(row_keys(new_rows) =~= row_keys(old_rows)) by {
            assert forall|j: int| 0 <= j < old_rows.len() implies row_keys(new_rows)[j]
                == row_keys(old_rows)[j] by {
                assert(row_keys(new_rows)[j] == new_rows[j].0);
                assert(row_keys(old_rows)[j] == old_rows[j].0);
            }
        }
        assert forall|v: u64| key_index(new_rows, v) == key_index(old_rows, v) by {
            lemma_key_index_same_keys(new_rows, old_rows, v);
        }
        old_row.index_of_first_ensures(to);
        assert forall|w: u64| old_row.remove_value(to).contains(w) implies old_row.contains(w) by {
            match old_row.index_of_first(to) {
                Some(fi) => {
                    old_row.remove_ensures(fi);
                    let nr = old_row.remove(fi);
                    let k = choose|k: int| 0 <= k < nr.len() && nr[k] == w;
                    if k < fi {
                        assert(old_row[k] == w);
                    } else {
                        assert(old_row[k + 1] == w);
                    }
                },
                None => {},
            }
        }
        assert(old_row.remove_value(to).no_duplicates()) by {
            match old_row.index_of_first(to) {
                Some(fi) => {
                    old_row.remove_ensures(fi);
                    let nr = old_row.remove(fi);
                    assert forall|a: int, b: int|
                        0 <= a < nr.len() && 0 <= b < nr.len() && a != b implies nr[a] != nr[b] by {
                        let oa = if a < fi { a } else { a + 1 };
                        let ob = if b < fi { b } else { b + 1 };
                        assert(nr[a] == old_row[oa]);
                        assert(nr[b] == old_row[ob]);
                        assert(old_row[oa] != old_row[ob]);
                    }
                },
                None => {},
            }
        }
        assert forall|v: u64| v != from implies self.nbrs(v) == pre.nbrs(v) by {
            lemma_key_index(old_rows, v);
            let ki = key_index(old_rows, v);
            if ki >= 0 {
                assert(ki != i);
                assert(new_rows[ki] == old_rows[ki]);
            }
        }
        assert forall|j: int| 0 <= j < new_rows.len() implies {
            &&& (#[trigger] new_rows[j]).1@.no_duplicates()
            &&& self.nodes@.contains(new_rows[j].0)
            &&& forall|k: int|
                0 <= k < new_rows[j].1@.len() ==> self.nodes@.contains(
                    #[trigger] new_rows[j].1@[k],
                )
        } by {
            if j == i {
                assert forall|k: int| 0 <= k < new_rows[j].1@.len() implies self.nodes@.contains(
                    #[trigger] new_rows[j].1@[k],
                ) by {
                    assert(old_row.contains(new_rows[j].1@[k])) by {
                        assert(new_rows[j].1@.contains(new_rows[j].1@[k]));
                    }
                    let k2 = choose|k2: int|
                        0 <= k2 < old_row.len() && old_row[k2] == new_rows[j].1@[k];
                    assert(pre.nodes@.contains(old_rows[i].1@[k2]));
                }
            } else {
                assert(new_rows[j] == old_rows[j]);
                assert forall|k: int| 0 <= k < new_rows[j].1@.len() implies self.nodes@.contains(
                    #[trigger] new_rows[j].1@[k],
                ) by {
                    assert(pre.nodes@.contains(old_rows[j].1@[k]));
                }
            }
        }
    }

    /// Collects the weak connectivity classes by exhausting, for each
    /// unvisited vertex in node-set order, a stack-driven traversal
    /// that follows edges of `self` forwards and edges of `op`
    /// (the reversed graph) backwards.
    pub(crate) fn weak_components(&self, op: &AdjacencyGraph) -> (r: Vec<Vec<u64>>)
        requires
            self.wf(),
            op.wf(),
            forall|a: u64, b: u64| #[trigger] op.spec_has_edge(a, b) <==> self.spec_has_edge(b, a),
        ensures
            is_partition(*self, r@),
            components_closed(*self, r@),
            components_connected(*self, r@),
    {
        let ghost g = *self;
        proof {
            self.lemma_wf_facts();
            op.lemma_wf_facts();
        }
        let nodes_vec = self.nodes();
        let nlen = nodes_vec.len();
        let mut visited: Vec<u64> = Vec::new();
        let mut result: Vec<Vec<u64>> = Vec::new();
        let mut n: usize = 0;
        while n < nlen
            invariant
                self.wf(),
                op.wf(),
                g == *self,
                forall|a: u64, b: u64|
                    #[trigger] op.spec_has_edge(a, b) <==> self.spec_has_edge(b, a),
                nodes_vec@ == g.node_seq(),
                nlen == nodes_vec@.len(),
                n <= nlen,
                visited@.no_duplicates(),
                forall|v: u64| #[trigger] visited@.contains(v) ==> g.node_set().contains(v),
                forall|v: u64, w: u64|
                    #[trigger] visited@.contains(v) && #[trigger] linked(g, v, w) ==> visited@.contains(w),
                forall|i: int|
                    0 <= i < result@.len() ==> (#[trigger] result@[i])@.len() > 0
                        && result@[i]@.no_duplicates(),
                forall|i: int, v: u64|
                    0 <= i < result@.len() && #[trigger] result@[i]@.contains(v)
                        ==> visited@.contains(v),
                forall|v: u64|
                    #[trigger] visited@.contains(v) ==> exists|i: int|
                        0 <= i < result@.len() && (#[trigger] result@[i])@.contains(v),
                forall|i1: int, i2: int, v: u64|
                    #![trigger result@[i1]@.contains(v), result@[i2]@.contains(v)]
                    0 <= i1 < result@.len() && 0 <= i2 < result@.len() && i1 != i2
                        && result@[i1]@.contains(v) ==> !result@[i2]@.contains(v),
                forall|j: int| 0 <= j < n ==> visited@.contains(#[trigger] g.node_seq()[j]),
                components_closed(g, result@),
                components_connected(g, result@),
            decreases nlen - n,
        {
            let node = nodes_vec[n];
            proof {
                assert(g.node_seq()[n as int] == node);
                assert(g.node_set().contains(node));
            }
            if !vec_contains_u64(&visited, node) {
                let mut cc: Vec<u64> = Vec::new();
                let mut stack: Vec<u64> = Vec::new();
                stack.push(node);
                proof {
                    assert(stack@[0] == node);
                    assert(stack@.contains(node));
                    lemma_weakly_connected_self(g, node);
                }
                while stack.len() > 0
                    invariant
                        self.wf(),
                        op.wf(),
                        g == *self,
                        forall|a: u64, b: u64|
                            #[trigger] op.spec_has_edge(a, b) <==> self.spec_has_edge(b, a),
                        visited@.no_duplicates(),
                        cc@.no_duplicates(),
                        forall|v: u64| #[trigger] cc@.contains(v) ==> g.node_set().contains(v),
                        forall|v: u64| #[trigger] cc@.contains(v) ==> !visited@.contains(v),
                        forall|k: int|
                            0 <= k < stack@.len() ==> g.node_set().contains(#[trigger] stack@[k])
                                && !visited@.contains(stack@[k]),
                        forall|v: u64| #[trigger] visited@.contains(v) ==> g.node_set().contains(v),
                        forall|v: u64, w: u64|
                            #[trigger] visited@.contains(v) && #[trigger] linked(g, v, w) ==> visited@.contains(
                                w,
                            ),
                        forall|v: u64, w: u64|
                            #[trigger] cc@.contains(v) && #[trigger] linked(g, v, w) ==> cc@.contains(w)
                                || stack@.contains(w),
                        cc@.contains(node) || stack@.contains(node),
                        forall|k: int|
                            0 <= k < stack@.len() ==> weakly_connected(
                                g,
                                node,
                                #[trigger] stack@[k],
                            ),
                        forall|v: u64|
                            #[trigger] cc@.contains(v) ==> weakly_connected(g, node, v),
                    decreases g.node_seq().len() - cc@.len(), stack@.len(),
                {
                    proof {
                        crate::lemma_distinct_subset_len(cc@, g.node_seq());
                        self.lemma_wf_facts();
                        op.lemma_wf_facts();
                    }
                    let ghost stack_pre = stack@;
                    let node2 = stack.pop().unwrap();
                    proof {
                        assert(node2 == stack_pre.last());
                        assert(g.node_set().contains(node2) && !visited@.contains(node2)
                            && weakly_connected(g, node, node2)) by {
                            assert(stack_pre[stack_pre.len() - 1] == node2);
                        }
                    }
                    let ghost stack_popped = stack@;
                    if !vec_contains_u64(&cc, node2) {
                        let ghost ccp = cc@;
                        cc.push(node2);
                        let fwd = self.neighbors(node2);
                        extend_vec_u64(&mut stack, &fwd);
                        let bwd = op.neighbors(node2);
                        extend_vec_u64(&mut stack, &bwd);
                        proof {
                            assert(cc@ == ccp.push(node2));
                            assert(cc@.last() == node2);
                            // the pushed neighbors are unvisited graph members
                            assert forall|k: int|
                                0 <= k < stack@.len() implies g.node_set().contains(
                                #[trigger] stack@[k],
                            ) && !visited@.contains(stack@[k]) by {
                                if k < stack_popped.len() {
                                    assert(stack_popped[k] == stack_pre[k]);
                                    assert(stack_pre[k] == stack@[k]);
                                } else {
                                    let w = stack@[k];
                                    assert(g.nbrs(node2).contains(w) || op.nbrs(node2).contains(
                                        w,
                                    )) by {
                                        if k < stack_popped.len() + fwd@.len() {
                                            assert(fwd@[k - stack_popped.len()] == w);
                                        } else {
                                            assert(bwd@[k - stack_popped.len() - fwd@.len()] == w);
                                        }
                                    }
                                    if g.nbrs(node2).contains(w) {
                                        assert(g.spec_has_edge(node2, w));
                                    } else {
                                        assert(op.spec_has_edge(node2, w));
                                        assert(g.spec_has_edge(w, node2));
                                    }
                                    assert(linked(g, node2, w));
                                    if visited@.contains(w) {
                                        assert(linked(g, w, node2));
                                        assert(visited@.contains(node2));
                                    }
                                }
                            }
                            // the frontier and the component stay
                            // within reach of the root
                            assert forall|k: int|
                                0 <= k < stack@.len() implies weakly_connected(
                                g,
                                node,
                                #[trigger] stack@[k],
                            ) by {
                                if k < stack_popped.len() {
                                    assert(stack_popped[k] == stack_pre[k]);
                                    assert(stack_pre[k] == stack@[k]);
                                } else {
                                    let w = stack@[k];
                                    assert(g.nbrs(node2).contains(w) || op.nbrs(node2).contains(
                                        w,
                                    )) by {
                                        if k < stack_popped.len() + fwd@.len() {
                                            assert(fwd@[k - stack_popped.len()] == w);
                                        } else {
                                            assert(bwd@[k - stack_popped.len() - fwd@.len()] == w);
                                        }
                                    }
                                    if g.nbrs(node2).contains(w) {
                                        assert(g.spec_has_edge(node2, w));
                                    } else {
                                        assert(op.spec_has_edge(node2, w));
                                        assert(g.spec_has_edge(w, node2));
                                    }
                                    assert(linked(g, node2, w));
                                    lemma_weakly_connected_step(g, node, node2, w);
                                }
                            }
                            assert forall|v: u64| #[trigger] cc@.contains(v)
                                implies weakly_connected(g, node, v) by {
                                if v != node2 {
                                    let j = choose|j: int| 0 <= j < cc@.len() && cc@[j] == v;
                                    assert(j < cc@.len() - 1);
                                    assert(ccp[j] == v);
                                    assert(ccp.contains(v));
                                }
                            }
                            // closure in progress
                            assert forall|v: u64, w: u64|
                                #[trigger] cc@.contains(v) && #[trigger] linked(g, v, w)
                                implies cc@.contains(w) || stack@.contains(w) by {
                                if v != node2 {
                                    assert(ccp.contains(v)) by {
                                        let j = choose|j: int| 0 <= j < cc@.len() && cc@[j] == v;
                                        assert(j < cc@.len() - 1);
                                        assert(ccp[j] == v);
                                    }
                                    if ccp.contains(w) {
                                        let j = choose|j: int| 0 <= j < ccp.len() && ccp[j] == w;
                                        assert(cc@[j] == w);
                                    } else {
                                        assert(stack_pre.contains(w));
                                        let j = choose|j: int|
                                            0 <= j < stack_pre.len() && stack_pre[j] == w;
                                        if j < stack_pre.len() - 1 {
                                            assert(stack_popped[j] == w);
                                            assert(stack@[j] == w);
                                        } else {
                                            assert(w == node2);
                                            assert(cc@.last() == node2);
                                        }
                                    }
                                } else {
                                    // every link of node2 is a pushed neighbor
                                    if g.spec_has_edge(node2, w) {
                                        let j = choose|j: int|
                                            0 <= j < g.nbrs(node2).len() && g.nbrs(node2)[j] == w;
                                        assert(stack@[stack_popped.len() + j] == w);
                                    } else {
                                        assert(g.spec_has_edge(w, node2));
                                        assert(op.spec_has_edge(node2, w));
                                        let j = choose|j: int|
                                            0 <= j < op.nbrs(node2).len() && op.nbrs(node2)[j]
                                                == w;
                                        assert(stack@[stack_popped.len() + g.nbrs(node2).len()
                                            + j] == w);
                                    }
                                }
                            }
                            assert forall|v: u64| #[trigger] cc@.contains(v) implies g.node_set()
                                .contains(v) && !visited@.contains(v) by {
                                if v != node2 {
                                    let j = choose|j: int| 0 <= j < cc@.len() && cc@[j] == v;
                                    assert(j < cc@.len() - 1);
                                    assert(ccp[j] == v);
                                    assert(ccp.contains(v));
                                }
                            }
                            assert(cc@.no_duplicates()) by {
                                assert(!ccp.contains(node2));
                                assert forall|a: int, b: int|
                                    0 <= a < cc@.len() && 0 <= b < cc@.len() && a != b
                                        implies cc@[a] != cc@[b] by {
                                    let last = cc@.len() - 1;
                                    if a < last && b < last {
                                        assert(ccp[a] == cc@[a] && ccp[b] == cc@[b]);
                                    } else if a == last && b < last {
                                        if cc@[b] == node2 {
                                            assert(ccp[b] == node2);
                                            assert(ccp.contains(node2));
                                        }
                                    } else if b == last && a < last {
                                        if cc@[a] == node2 {
                                            assert(ccp[a] == node2);
                                            assert(ccp.contains(node2));
                                        }
                                    }
                                }
                            }
                            assert(cc@.contains(node) || stack@.contains(node)) by {
                                if node == node2 {
                                    assert(cc@.last() == node);
                                } else if ccp.contains(node) {
                                    let j = choose|j: int| 0 <= j < ccp.len() && ccp[j] == node;
                                    assert(cc@[j] == node);
                                } else {
                                    assert(stack_pre.contains(node));
                                    let j = choose|j: int|
                                        0 <= j < stack_pre.len() && stack_pre[j] == node;
                                    assert(j < stack_pre.len() - 1);
                                    assert(stack_popped[j] == node);
                                    assert(stack@[j] == node);
                                }
                            }
                            // cardinality for termination
                            assert forall|v: u64| #[trigger] cc@.contains(v) implies g.node_seq()
                                .contains(v) by {
                                assert(g.node_set().contains(v));
                            }
                            crate::lemma_distinct_subset_len(cc@, g.node_seq());
                        }
                    } else {
                        proof {
                            // the popped vertex was already collected; the
                            // shortened stack still backs the closure facts
                            assert forall|v: u64, w: u64|
                                #[trigger] cc@.contains(v) && #[trigger] linked(g, v, w)
                                implies cc@.contains(w) || stack@.contains(w) by {
                                if !cc@.contains(w) {
                                    assert(stack_pre.contains(w));
                                    let j = choose|j: int|
                                        0 <= j < stack_pre.len() && stack_pre[j] == w;
                                    if j < stack_pre.len() - 1 {
                                        assert(stack@[j] == w);
                                    } else {
                                        assert(w == node2);
                                    }
                                }
                            }
                            assert forall|k: int|
                                0 <= k < stack@.len() implies g.node_set().contains(
                                #[trigger] stack@[k],
                            ) && !visited@.contains(stack@[k]) && weakly_connected(
                                g,
                                node,
                                stack@[k],
                            ) by {
                                assert(stack_pre[k] == stack@[k]);
                            }
                            assert(cc@.contains(node) || stack@.contains(node)) by {
                                if !cc@.contains(node) {
                                    assert(stack_pre.contains(node));
                                    let j = choose|j: int|
                                        0 <= j < stack_pre.len() && stack_pre[j] == node;
                                    if j < stack_pre.len() - 1 {
                                        assert(stack@[j] == node);
                                    } else {
                                        assert(node == node2);
                                        assert(cc@.contains(node2));
                                    }
                                }
                            }
                        }
                    }
                }
                let ghost ccv = cc@;
                let ghost visited_pre = visited@;
                let ghost result_pre = result@;
                extend_vec_u64(&mut visited, &cc);
                result.push(cc);
                proof {
                    assert(ccv.contains(node));
                    assert(ccv.len() > 0);
                    // membership in the extended visited list
                    assert forall|v: u64| #[trigger] visited@.contains(v) implies (
                    visited_pre.contains(v) || ccv.contains(v)) by {
                        let j = choose|j: int| 0 <= j < visited@.len() && visited@[j] == v;
                        if j < visited_pre.len() {
                            assert(visited_pre[j] == v);
                        } else {
                            assert(ccv[j - visited_pre.len()] == v);
                        }
                    }
                    assert forall|v: u64| visited_pre.contains(v) || ccv.contains(v)
                        implies #[trigger] visited@.contains(v) by {
                        if visited_pre.contains(v) {
                            let j = choose|j: int|
                                0 <= j < visited_pre.len() && visited_pre[j] == v;
                            assert(visited@[j] == v);
                        } else {
                            let j = choose|j: int| 0 <= j < ccv.len() && ccv[j] == v;
                            assert(visited@[visited_pre.len() + j] == v);
                        }
                    }
                    assert(visited@.no_duplicates()) by {
                        assert forall|a: int, b: int|
                            0 <= a < visited@.len() && 0 <= b < visited@.len() && a != b
                                implies visited@[a] != visited@[b] by {
                            let vl = visited_pre.len() as int;
                            if a < vl && b < vl {
                                assert(visited_pre[a] == visited@[a]);
                                assert(visited_pre[b] == visited@[b]);
                            } else if a >= vl && b >= vl {
                                assert(ccv[a - vl] == visited@[a]);
                                assert(ccv[b - vl] == visited@[b]);
                            } else if a < vl && b >= vl {
                                assert(visited_pre[a] == visited@[a]);
                                assert(ccv[b - vl] == visited@[b]);
                                if visited@[a] == visited@[b] {
                                    assert(ccv.contains(visited@[b]));
                                    assert(visited_pre.contains(visited@[a]));
                                }
                            } else {
                                assert(visited_pre[b] == visited@[b]);
                                assert(ccv[a - vl] == visited@[a]);
                                if visited@[a] == visited@[b] {
                                    assert(ccv.contains(visited@[a]));
                                    assert(visited_pre.contains(visited@[b]));
                                }
                            }
                        }
                    }
                    // closure of the extended visited list
                    assert forall|v: u64, w: u64|
                        #[trigger] visited@.contains(v) && #[trigger] linked(g, v, w) implies visited@
                        .contains(w) by {
                        if visited_pre.contains(v) {
                            assert(visited_pre.contains(w));
                        } else {
                            assert(ccv.contains(v));
                            assert(ccv.contains(w) || Seq::<u64>::empty().contains(w));
                        }
                    }
                    // the partition bookkeeping
                    assert forall|i: int| 0 <= i < result@.len() implies (
                    #[trigger] result@[i])@.len() > 0 && result@[i]@.no_duplicates() by {
                        if i < result_pre.len() {
                            assert(result@[i] == result_pre[i]);
                        }
                    }
                    assert forall|i: int, v: u64|
                        0 <= i < result@.len() && #[trigger] result@[i]@.contains(v)
                            implies visited@.contains(v) by {
                        if i < result_pre.len() {
                            assert(result@[i] == result_pre[i]);
                            assert(visited_pre.contains(v));
                        } else {
                            assert(ccv.contains(v));
                        }
                    }
                    assert forall|v: u64| #[trigger] visited@.contains(v) implies exists|i: int|
                        0 <= i < result@.len() && (#[trigger] result@[i])@.contains(v) by {
                        if visited_pre.contains(v) {
                            let i = choose|i: int|
                                0 <= i < result_pre.len() && (#[trigger] result_pre[i])@.contains(
                                    v,
                                );
                            assert((result@[i])@.contains(v));
                        } else {
                            assert((result@[result@.len() - 1])@.contains(v));
                        }
                    }
                    assert forall|i1: int, i2: int, v: u64|
                        0 <= i1 < result@.len() && 0 <= i2 < result@.len() && i1 != i2 && (
                        #[trigger] result@[i1]@.contains(v)) implies !(#[trigger] result@[i2]@
                        .contains(v)) by {
                        let rl = result_pre.len() as int;
                        if i1 < rl && i2 < rl {
                            assert(result@[i1] == result_pre[i1]);
                            assert(result@[i2] == result_pre[i2]);
                        } else if i1 == rl {
                            assert(result@[i2] == result_pre[i2]);
                            assert(ccv.contains(v));
                            if result_pre[i2]@.contains(v) {
                                assert(visited_pre.contains(v));
                            }
                        } else {
                            assert(result@[i1] == result_pre[i1]);
                            if ccv.contains(v) {
                                assert(visited_pre.contains(v));
                            }
                        }
                    }
                    assert forall|i: int, v: u64, w: u64|
                        0 <= i < result@.len() && #[trigger] result@[i]@.contains(v)
                            && #[trigger] linked(g, v, w) implies result@[i]@.contains(w) by {
                        if i < result_pre.len() {
                            assert(result@[i] == result_pre[i]);
                        } else {
                            assert(result@[i] == result@[result@.len() - 1]);
                            assert(ccv.contains(v));
                            assert(ccv.contains(w) || Seq::<u64>::empty().contains(w));
                        }
                    }
                    assert forall|i: int, u: u64, v: u64|
                        #![trigger result@[i]@.contains(u), result@[i]@.contains(v)]
                        0 <= i < result@.len() && result@[i]@.contains(u) && result@[i]@.contains(
                            v,
                        ) implies weakly_connected(g, u, v) by {
                        if i < result_pre.len() {
                            assert(result@[i] == result_pre[i]);
                        } else {
                            assert(result@[i] == result@[result@.len() - 1]);
                            assert(ccv.contains(u) && ccv.contains(v));
                            assert(weakly_connected(g, node, u));
                            assert(weakly_connected(g, node, v));
                            lemma_weakly_connected_sym(g, node, u);
                            lemma_weakly_connected_trans(g, u, node, v);
                        }
                    }
                }
            }
            n += 1;
        }
        proof {
            assert forall|v: u64| #[trigger] g.node_set().contains(v) implies exists|i: int|
                0 <= i < result@.len() && (#[trigger] result@[i])@.contains(v) by {
                let j = choose|j: int| 0 <= j < g.node_seq().len() && g.node_seq()[j] == v;
                assert(visited@.contains(g.node_seq()[j]));
            }
            assert forall|v: u64|
                (exists|i: int| 0 <= i < result@.len() && (#[trigger] result@[i])@.contains(v))
                implies #[trigger] g.node_set().contains(v) by {
                let i = choose|i: int|
                    0 <= i < result@.len() && (#[trigger] result@[i])@.contains(v);
                assert(visited@.contains(v));
            }
        }
        result
    }

    /// Removes `node` from the node set and from every successor
    /// list, so that no dangling reference to it remains; a no-op
    /// when the vertex is absent. The other vertices keep their
    /// insertion order and their edges among themselves.
    pub fn remove_node(&mut self, node: u64)
        requires
            old(self).wf(),
        ensures
            final(self).wf(),
            final(self).node_seq() == old(self).node_seq().remove_value(node),
            forall|a: u64, b: u64|
                #[trigger] final(self).spec_has_edge(a, b) <==> (old(self).spec_has_edge(a, b) && a
                    != node && b != node),
    {
        let ghost g0 = *self;
        proof {
            g0.lemma_wf_facts();
            crate::lemma_remove_value_distinct(g0.node_seq(), node);
        }
        let new_nodes = crate::remove_value_u64(&self.nodes, node);
        let edges = self.edges();
        let mut g2 = AdjacencyGraph::new();
        let nn_len = new_nodes.len();
        let mut i: usize = 0;
        proof {
            assert(g2.node_seq() =~= new_nodes@.subrange(0, 0));
        }
        while i < nn_len
            invariant
                g2.wf(),
                new_nodes@ == g0.node_seq().remove_value(node),
                new_nodes@.no_duplicates(),
                nn_len == new_nodes@.len(),
                i <= nn_len,
                g2.node_seq() == new_nodes@.subrange(0, i as int),
                forall|v: u64| g2.nbrs(v) == Seq::<u64>::empty(),
            decreases nn_len - i,
        {
            let v = new_nodes[i];
            let ghost pre = g2;
            g2.add_node(v);
            proof {
                lemma_push_unique(pre.node_seq(), v);
                assert(!pre.node_seq().contains(v)) by {
                    if pre.node_seq().contains(v) {
                        let j = choose|j: int|
                            0 <= j < i && new_nodes@.subrange(0, i as int)[j] == v;
                        assert(new_nodes@[j] == v);
                        assert(new_nodes@[i as int] == v);
                    }
                }
                assert(g2.node_seq() =~= new_nodes@.subrange(0, i + 1));
            }
            i += 1;
        }
        proof {
            assert(g2.node_seq() =~= new_nodes@) by {
                assert(new_nodes@.subrange(0, nn_len as int) =~= new_nodes@);
            }
        }
        let e_len = edges.len();
        let mut e: usize = 0;
        while e < e_len
            invariant
                g2.wf(),
                g0.wf(),
                new_nodes@ == g0.node_seq().remove_value(node),
                g2.node_seq() == new_nodes@,
                e <= e_len,
                e_len == edges@.len(),
                forall|f: u64, t: u64| #[trigger] edges@.contains((f, t)) <==> g0.spec_has_edge(f, t),
                forall|a: u64, b: u64|
                    #[trigger] g2.spec_has_edge(a, b) <==> (edges@.subrange(0, e as int).contains(
                        (a, b),
                    ) && a != node && b != node),
            decreases e_len - e,
        {
            let ed = edges[e];
            let ghost pre = g2;
            let ghost sub1 = edges@.subrange(0, e + 1);
            proof {
                assert(sub1 =~= edges@.subrange(0, e as int).push(ed));
            }
            if ed.0 != node && ed.1 != node {
                proof {
                    g0.lemma_wf_facts();
                    assert(edges@.contains((ed.0, ed.1))) by {
                        assert(edges@[e as int] == ed);
                    }
                    assert(g0.spec_has_edge(ed.0, ed.1));
                    assert(g0.node_set().contains(ed.0) && g0.node_set().contains(ed.1));
                    crate::lemma_remove_value_distinct(g0.node_seq(), node);
                    assert(new_nodes@.contains(ed.0) && new_nodes@.contains(ed.1));
                    lemma_push_unique(pre.node_seq(), ed.0);
                    lemma_push_unique(push_unique(pre.node_seq(), ed.0), ed.1);
                    lemma_push_unique(pre.nbrs(ed.0), ed.1);
                }
                g2.add_edge(ed.0, ed.1);
                proof {
                    assert(g2.node_seq() =~= new_nodes@);
                    assert forall|a: u64, b: u64| #[trigger] g2.spec_has_edge(a, b) <==> (
                    sub1.contains((a, b)) && a != node && b != node) by {
                        lemma_push_unique(pre.nbrs(ed.0), ed.1);
                        if a == ed.0 {
                            assert(g2.nbrs(a) == push_unique(pre.nbrs(ed.0), ed.1));
                            assert(g2.spec_has_edge(a, b) <==> (pre.spec_has_edge(a, b) || b
                                == ed.1));
                        } else {
                            assert(g2.nbrs(a) == pre.nbrs(a));
                            assert(g2.spec_has_edge(a, b) <==> pre.spec_has_edge(a, b));
                        }
                        if pre.spec_has_edge(a, b) {
                            let ri = choose|ri: int|
                                0 <= ri < e && edges@.subrange(0, e as int)[ri] == (a, b);
                            assert(sub1[ri] == (a, b));
                        }
                        if g2.spec_has_edge(a, b) && !pre.spec_has_edge(a, b) {
                            assert(a == ed.0 && b == ed.1);
                            assert(sub1[e as int] == ed);
                        }
                        if sub1.contains((a, b)) && a != node && b != node {
                            let ri = choose|ri: int| 0 <= ri < sub1.len() && sub1[ri] == (a, b);
                            if ri < e {
                                assert(edges@.subrange(0, e as int)[ri] == (a, b));
                                assert(pre.spec_has_edge(a, b));
                            } else {
                                assert((a, b) == ed);
                                assert(g2.spec_has_edge(ed.0, ed.1));
                            }
                        }
                    }
                }
            } else {
                proof {
                    assert forall|a: u64, b: u64| #[trigger] g2.spec_has_edge(a, b) <==> (
                    sub1.contains((a, b)) && a != node && b != node) by {
                        if pre.spec_has_edge(a, b) {
                            let ri = choose|ri: int|
                                0 <= ri < e && edges@.subrange(0, e as int)[ri] == (a, b);
                            assert(sub1[ri] == (a, b));
                        }
                        if sub1.contains((a, b)) && a != node && b != node {
                            let ri = choose|ri: int| 0 <= ri < sub1.len() && sub1[ri] == (a, b);
                            if ri < e {
                                assert(edges@.subrange(0, e as int)[ri] == (a, b));
                            } else {
                                assert((a, b) == ed);
                            }
                        }
                    }
                }
            }
            e += 1;
        }
        proof {
            assert(edges@.subrange(0, e_len as int) =~= edges@);
        }
        *self = g2;
    }

    /// The degree table: for each vertex, in node-set order, its
    /// total, incoming and outgoing degree.
    pub fn degrees(&self) -> (r: Vec<(u64, (usize, usize, usize))>)
        requires
            self.wf(),
            self.node_seq().len() < usize::MAX / 2,
        ensures
            r@.len() == self.node_seq().len(),
            forall|i: int|
                0 <= i < r@.len() ==> (#[trigger] r@[i]).0 == self.node_seq()[i] && r@[i].1.2
                    == self.nbrs(r@[i].0).len() && r@[i].1.1 == in_degree_of(*self, r@[i].0)
                    && r@[i].1.0 == r@[i].1.1 + r@[i].1.2,
    {
        let ghost g = *self;
        proof {
            self.lemma_wf_facts();
        }
        let nodes_vec = self.nodes();
        let nlen = nodes_vec.len();
        let mut r: Vec<(u64, (usize, usize, usize))> = Vec::new();
        let mut n: usize = 0;
        while n < nlen
            invariant
                self.wf(),
                g == *self,
                nodes_vec@ == g.node_seq(),
                nlen == nodes_vec@.len(),
                nlen < usize::MAX / 2,
                n <= nlen,
                r@.len() == n,
                forall|i: int|
                    0 <= i < r@.len() ==> (#[trigger] r@[i]).0 == g.node_seq()[i] && r@[i].1.2
                        == g.nbrs(r@[i].0).len() && r@[i].1.1 == in_degree_of(g, r@[i].0)
                        && r@[i].1.0 == r@[i].1.1 + r@[i].1.2,
            decreases nlen - n,
        {
            let v = nodes_vec[n];
            let out_degree = self.neighbors(v).len();
            proof {
                self.lemma_wf_facts();
                crate::lemma_distinct_subset_len(g.nbrs(v), g.node_seq());
            }
            let mut in_degree: usize = 0;
            let mut j: usize = 0;
            proof {
                assert(g.node_seq().subrange(0, 0) =~= Seq::<u64>::empty());
            }
            while j < nlen
                invariant
                    self.wf(),
                    g == *self,
                    nodes_vec@ == g.node_seq(),
                    nlen == nodes_vec@.len(),
                    j <= nlen,
                    in_degree <= j,
                    in_degree == in_degree_over(g, g.node_seq().subrange(0, j as int), v),
                decreases nlen - j,
            {
                let f = nodes_vec[j];
                let ghost pre = g.node_seq().subrange(0, j as int);
                let has = self.has_edge(f, v);
                if has {
                    in_degree += 1;
                }
                proof {
                    let cur = g.node_seq().subrange(0, j + 1);
                    assert(cur.drop_last() =~= pre);
                    assert(cur.last() == g.node_seq()[j as int]);
                    assert(cur.last() == f);
                }
                j += 1;
            }
            proof {
                assert(g.node_seq().subrange(0, nlen as int) =~= g.node_seq());
                assert(in_degree == in_degree_of(g, v));
            }
            let total = in_degree + out_degree;
            let ghost r_pre = r@;
            r.push((v, (total, in_degree, out_degree)));
            proof {
                assert forall|i: int|
                    0 <= i < r@.len() implies (#[trigger] r@[i]).0 == g.node_seq()[i] && r@[i].1.2
                    == g.nbrs(r@[i].0).len() && r@[i].1.1 == in_degree_of(g, r@[i].0) && r@[i].1.0
                    == r@[i].1.1 + r@[i].1.2 by {
                    if i < r_pre.len() {
                        assert(r@[i] == r_pre[i]);
                    } else {
                        assert(r@[i] == (v, (total, in_degree, out_degree)));
                        assert(g.node_seq()[n as int] == v);
                    }
                }
            }
            n += 1;
        }
        r
    }

    /// The weakly connected components: the partition of the node set
    /// obtained by walking edges in both directions, using a
    /// precomputed reversed graph for the backwards steps.
    pub fn compute_ccs(&self) -> (r: Vec<Vec<u64>>)
        requires
            self.wf(),
        ensures
            is_partition(*self, r@),
            components_closed(*self, r@),
            components_connected(*self, r@),
    {
        let op = self.opposite();
        self.weak_components(&op)
    }

    /// Depth-first preorder from `node`: a vertex is reported exactly
    /// when it is reachable from the start, each exactly once, and the
    /// start itself is always reported.
    pub fn dfs(&self, node: u64) -> (r: Vec<u64>)
        requires
            self.wf(),
        ensures
            r@.no_duplicates(),
            r@.contains(node),
            forall|v: u64| #[trigger] r@.contains(v) ==> reaches(*self, node, v),
            forall|v: u64| #[trigger] reaches(*self, node, v) ==> r@.contains(v),
    {
        let ghost g = *self;
        let ghost sup = g.node_seq().push(node);
        let mut visited: Vec<u64> = Vec::new();
        let mut stack: Vec<u64> = Vec::new();
        stack.push(node);
        proof {
            self.lemma_wf_facts();
            lemma_reaches_self(g, node);
            assert(stack@[0] == node);
            assert(stack@.contains(node));
            assert(sup[sup.len() - 1] == node);
        }
        while stack.len() > 0
            invariant
                self.wf(),
                g == *self,
                sup == g.node_seq().push(node),
                visited@.no_duplicates(),
                forall|v: u64| #[trigger] visited@.contains(v) ==> sup.contains(v),
                forall|v: u64| #[trigger] visited@.contains(v) ==> reaches(g, node, v),
                forall|k: int| 0 <= k < stack@.len() ==> reaches(g, node, #[trigger] stack@[k]),
                forall|k: int| 0 <= k < stack@.len() ==> sup.contains(#[trigger] stack@[k]),
                visited@.contains(node) || stack@.contains(node),
                forall|v2: u64, w: u64|
                    #![trigger visited@.contains(v2), g.spec_has_edge(v2, w)]
                    visited@.contains(v2) && g.spec_has_edge(v2, w) ==> visited@.contains(w)
                        || stack@.contains(w),
            decreases sup.len() - visited@.len(), stack@.len(),
        {
            proof {
                crate::lemma_distinct_subset_len(visited@, sup);
            }
            let ghost stack_pre = stack@;
            let v = stack.pop().unwrap();
            proof {
                assert(v == stack_pre.last());
                assert(stack_pre[stack_pre.len() - 1] == v);
            }
            if !vec_contains_u64(&visited, v) {
                let ghost visited_pre = visited@;
                visited.push(v);
                let nb = self.neighbors(v);
                extend_vec_u64(&mut stack, &nb);
                proof {
                    self.lemma_wf_facts();
                    crate::lemma_vec_push_distinct(visited_pre, v);
                    assert forall|v2: u64| #[trigger] visited@.contains(v2) implies sup.contains(
                        v2,
                    ) && reaches(g, node, v2) by {
                        if v2 != v {
                            assert(visited_pre.contains(v2));
                        }
                    }
                    let base = stack_pre.len() - 1;
                    assert forall|k: int| 0 <= k < stack@.len() implies reaches(
                        g,
                        node,
                        #[trigger] stack@[k],
                    ) && sup.contains(stack@[k]) by {
                        if k < base {
                            assert(stack_pre[k] == stack@[k]);
                        } else {
                            let w = stack@[k];
                            assert(nb@[k - base] == w);
                            assert(g.nbrs(v).contains(w));
                            assert(g.spec_has_edge(v, w));
                            lemma_reaches_step(g, node, v, w);
                            assert(g.node_set().contains(w));
                            let j = choose|j: int|
                                0 <= j < g.node_seq().len() && g.node_seq()[j] == w;
                            assert(sup[j] == w);
                        }
                    }
                    assert(visited@.contains(node) || stack@.contains(node)) by {
                        if v != node && !visited_pre.contains(node) {
                            let j = choose|j: int|
                                0 <= j < stack_pre.len() && stack_pre[j] == node;
                            assert(j < stack_pre.len() - 1);
                            assert(stack@[j] == node);
                        } else if v == node {
                            assert(visited@[visited@.len() - 1] == node);
                        }
                    }
                    assert forall|v2: u64, w: u64|
                        #![trigger visited@.contains(v2), g.spec_has_edge(v2, w)]
                        visited@.contains(v2) && g.spec_has_edge(v2, w)
                        implies visited@.contains(w) || stack@.contains(w) by {
                        if v2 == v {
                            let idx = choose|idx: int|
                                0 <= idx < g.nbrs(v).len() && g.nbrs(v)[idx] == w;
                            assert(stack@[base + idx] == w);
                        } else {
                            assert(visited_pre.contains(v2));
                            if visited_pre.contains(w) {
                                let k = choose|k: int|
                                    0 <= k < visited_pre.len() && visited_pre[k] == w;
                                assert(visited@[k] == w);
                            } else if stack_pre.contains(w) {
                                let j = choose|j: int|
                                    0 <= j < stack_pre.len() && stack_pre[j] == w;
                                if j < base {
                                    assert(stack@[j] == w);
                                } else {
                                    assert(w == v);
                                    assert(visited@[visited@.len() - 1] == v);
                                }
                            }
                        }
                    }
                    crate::lemma_distinct_subset_len(visited@, sup);
                }
            } else {
                proof {
                    assert forall|k: int| 0 <= k < stack@.len() implies reaches(
                        g,
                        node,
                        #[trigger] stack@[k],
                    ) && sup.contains(stack@[k]) by {
                        assert(stack_pre[k] == stack@[k]);
                    }
                    assert(visited@.contains(node) || stack@.contains(node)) by {
                        if !visited@.contains(node) {
                            let j = choose|j: int|
                                0 <= j < stack_pre.len() && stack_pre[j] == node;
                            if j < stack_pre.len() - 1 {
                                assert(stack@[j] == node);
                            } else {
                                assert(v == node);
                            }
                        }
                    }
                    assert forall|v2: u64, w: u64|
                        #![trigger visited@.contains(v2), g.spec_has_edge(v2, w)]
                        visited@.contains(v2) && g.spec_has_edge(v2, w)
                        implies visited@.contains(w) || stack@.contains(w) by {
                        if !visited@.contains(w) {
                            assert(stack_pre.contains(w));
                            let j = choose|j: int|
                                0 <= j < stack_pre.len() && stack_pre[j] == w;
                            if j < stack_pre.len() - 1 {
                                assert(stack@[j] == w);
                            } else {
                                assert(w == v);
                                assert(visited@.contains(v));
                            }
                        }
                    }
                }
            }
        }
        proof {
            // the survey is closed under the edges once the work stack
            // has drained, so it holds every reachable vertex
            assert forall|v: u64| #[trigger] reaches(g, node, v) implies visited@.contains(v) by {
                let p = choose|p: Seq<u64>| is_path(g, p) && p.first() == node && p.last() == v;
                assert(visited@.contains(node));
                lemma_closed_list_reaches(g, visited@, p);
            }
        }
        visited
    }

    /// The weakly connected components again, this time by merging a
    /// disjoint-set forest over integer vertex indices, one union per
    /// edge, and grouping the node set by the resulting roots. The
    /// result is a true partition of the node set.
    pub fn compute_ccs_2(&self) -> (r: Vec<Vec<u64>>)
        requires
            self.wf(),
        ensures
            is_partition(*self, r@),
            components_closed(*self, r@),
            components_connected(*self, r@),
    {
        let ghost g = *self;
        proof {
            self.lemma_wf_facts();
        }
        let nodes_vec = self.nodes();
        let nlen = nodes_vec.len();
        // index the vertices by their node-set position
        let mut index: crate::node_map::NodeMap<usize> = crate::node_map::NodeMap::new();
        let mut i: usize = 0;
        proof {
            assert(index.key_list() =~= g.node_seq().subrange(0, 0));
        }
        while i < nlen
            invariant
                self.wf(),
                g == *self,
                nodes_vec@ == g.node_seq(),
                nlen == nodes_vec@.len(),
                i <= nlen,
                index.wf(),
                index.key_list() == g.node_seq().subrange(0, i as int),
                forall|j: int|
                    0 <= j < i ==> index.spec_contains(#[trigger] g.node_seq()[j])
                        && index.val_of(g.node_seq()[j]) == j,
            decreases nlen - i,
        {
            let node = nodes_vec[i];
            proof {
                assert(g.node_seq()[i as int] == node);
                if index.spec_contains(node) {
                    let j = choose|j: int|
                        0 <= j < i && g.node_seq().subrange(0, i as int)[j] == node;
                    assert(g.node_seq()[j] == node);
                    assert(g.node_seq().no_duplicates());
                }
            }
            let ghost index_pre = index;
            index.insert(node, i);
            proof {
                assert(index.key_list() =~= g.node_seq().subrange(0, i + 1 as int)) by {
                    assert(g.node_seq().subrange(0, i + 1 as int) =~= g.node_seq().subrange(
                        0,
                        i as int,
                    ).push(node));
                }
                assert forall|j: int| 0 <= j < i + 1 implies index.spec_contains(
                    #[trigger] g.node_seq()[j],
                ) && index.val_of(g.node_seq()[j]) == j by {
                    if j < i {
                        assert(index_pre.spec_contains(g.node_seq()[j]));
                        assert(g.node_seq()[j] != node) by {
                            assert(g.node_seq().no_duplicates());
                        }
                    }
                }
            }
            i += 1;
        }
        proof {
            assert(index.key_list() == g.node_seq()) by {
                assert(g.node_seq().subrange(0, nlen as int) =~= g.node_seq());
            }
        }
        // merge the endpoint classes of every edge
        let mut uf = crate::disjoint_set::DisjointSets::new(nlen);
        proof {
            assert forall|j: int, k2: int|
                0 <= j < nlen && 0 <= k2 < nlen && #[trigger] crate::disjoint_set::same_set(
                    uf.spec_parents(),
                    j,
                    k2,
                ) implies weakly_connected(g, g.node_seq()[j], g.node_seq()[k2]) by {
                assert(crate::disjoint_set::root_of(uf.spec_parents(), j) == j);
                assert(crate::disjoint_set::root_of(uf.spec_parents(), k2) == k2);
                assert(j == k2);
                lemma_weakly_connected_self(g, g.node_seq()[j]);
            }
        }
        let edges = self.edges();
        let elen = edges.len();
        let mut e: usize = 0;
        while e < elen
            invariant
                self.wf(),
                g == *self,
                nlen == g.node_seq().len(),
                e <= elen,
                elen == edges@.len(),
                forall|f: u64, t: u64| #[trigger] edges@.contains((f, t)) <==> g.spec_has_edge(f, t),
                index.wf(),
                index.key_list() == g.node_seq(),
                forall|j: int|
                    0 <= j < nlen ==> index.spec_contains(#[trigger] g.node_seq()[j])
                        && index.val_of(g.node_seq()[j]) == j,
                uf.wf(),
                uf.spec_len() == nlen,
                forall|j: int, k2: int|
                    0 <= j < nlen && 0 <= k2 < nlen && #[trigger] crate::disjoint_set::same_set(
                        uf.spec_parents(),
                        j,
                        k2,
                    ) ==> weakly_connected(g, g.node_seq()[j], g.node_seq()[k2]),
                forall|e2: int|
                    0 <= e2 < e ==> index.val_of((#[trigger] edges@[e2]).0) < nlen
                        && index.val_of(edges@[e2].1) < nlen && crate::disjoint_set::same_set(
                        uf.spec_parents(),
                        index.val_of(edges@[e2].0) as int,
                        index.val_of(edges@[e2].1) as int,
                    ),
            decreases elen - e,
        {
            let ed = edges[e];
            proof {
                self.lemma_wf_facts();
                assert(edges@.contains((ed.0, ed.1))) by {
                    assert(edges@[e as int] == ed);
                }
                assert(g.spec_has_edge(ed.0, ed.1));
                assert(g.node_set().contains(ed.0) && g.node_set().contains(ed.1));
                assert(index.spec_contains(ed.0) && index.val_of(ed.0) < nlen) by {
                    let j = choose|j: int| 0 <= j < g.node_seq().len() && g.node_seq()[j] == ed.0;
                    assert(index.val_of(g.node_seq()[j]) == j);
                }
                assert(index.spec_contains(ed.1) && index.val_of(ed.1) < nlen) by {
                    let j = choose|j: int| 0 <= j < g.node_seq().len() && g.node_seq()[j] == ed.1;
                    assert(index.val_of(g.node_seq()[j]) == j);
                }
            }
            let fi = index.get(ed.0);
            let ti = index.get(ed.1);
            let ghost parents_pre = uf.spec_parents();
            uf.union(fi, ti);
            proof {
                // the endpoints of the new edge sit at their own
                // positions of the node list
                assert(g.node_seq()[fi as int] == ed.0) by {
                    let j = choose|j: int| 0 <= j < g.node_seq().len() && g.node_seq()[j] == ed.0;
                    assert(index.val_of(g.node_seq()[j]) == j);
                }
                assert(g.node_seq()[ti as int] == ed.1) by {
                    let j = choose|j: int| 0 <= j < g.node_seq().len() && g.node_seq()[j] == ed.1;
                    assert(index.val_of(g.node_seq()[j]) == j);
                }
                assert(weakly_connected(g, ed.0, ed.1)) by {
                    lemma_weakly_connected_self(g, ed.0);
                    assert(linked(g, ed.0, ed.1));
                    lemma_weakly_connected_step(g, ed.0, ed.0, ed.1);
                }
                assert forall|j: int, k2: int|
                    0 <= j < nlen && 0 <= k2 < nlen && #[trigger] crate::disjoint_set::same_set(
                        uf.spec_parents(),
                        j,
                        k2,
                    ) implies weakly_connected(g, g.node_seq()[j], g.node_seq()[k2]) by {
                    if crate::disjoint_set::same_set(parents_pre, j, k2) {
                    } else if crate::disjoint_set::same_set(parents_pre, j, fi as int)
                        && crate::disjoint_set::same_set(parents_pre, k2, ti as int) {
                        assert(weakly_connected(g, g.node_seq()[j], ed.0));
                        assert(weakly_connected(g, g.node_seq()[k2], ed.1));
                        lemma_weakly_connected_trans(g, g.node_seq()[j], ed.0, ed.1);
                        lemma_weakly_connected_sym(g, g.node_seq()[k2], ed.1);
                        lemma_weakly_connected_trans(g, g.node_seq()[j], ed.1, g.node_seq()[k2]);
                    } else {
                        assert(crate::disjoint_set::same_set(parents_pre, j, ti as int)
                            && crate::disjoint_set::same_set(parents_pre, k2, fi as int));
                        assert(weakly_connected(g, g.node_seq()[j], ed.1));
                        assert(weakly_connected(g, g.node_seq()[k2], ed.0));
                        lemma_weakly_connected_sym(g, ed.0, ed.1);
                        lemma_weakly_connected_trans(g, g.node_seq()[j], ed.1, ed.0);
                        lemma_weakly_connected_sym(g, g.node_seq()[k2], ed.0);
                        lemma_weakly_connected_trans(g, g.node_seq()[j], ed.0, g.node_seq()[k2]);
                    }
                }
                assert forall|e2: int| 0 <= e2 < e + 1 implies index.val_of(
                    (#[trigger] edges@[e2]).0,
                ) < nlen && index.val_of(edges@[e2].1) < nlen && crate::disjoint_set::same_set(
                    uf.spec_parents(),
                    index.val_of(edges@[e2].0) as int,
                    index.val_of(edges@[e2].1) as int,
                ) by {
                    if e2 < e {
                        assert(crate::disjoint_set::same_set(
                            parents_pre,
                            index.val_of(edges@[e2].0) as int,
                            index.val_of(edges@[e2].1) as int,
                        ));
                    } else {
                        assert(edges@[e2] == ed);
                    }
                }
            }
            e += 1;
        }
        // group the node set by the root of each vertex's class
        let ghost parents0 = uf.spec_parents();
        proof {
            assert(edges@.subrange(0, elen as int) =~= edges@);
        }
        let mut comps: Vec<Vec<u64>> = Vec::new();
        let mut groups: crate::node_map::NodeMap<usize> = crate::node_map::NodeMap::new();
        let ghost mut rootseq: Seq<int> = Seq::empty();
        let ghost mut grpkeys: Seq<u64> = Seq::empty();
        let mut k: usize = 0;
        while k < nlen
            invariant
                self.wf(),
                g == *self,
                nodes_vec@ == g.node_seq(),
                nlen == nodes_vec@.len(),
                k <= nlen,
                uf.wf(),
                uf.spec_len() == nlen,
                groups.wf(),
                forall|rt: u64|
                    #[trigger] groups.spec_contains(rt) ==> groups.val_of(rt) < comps@.len(),
                forall|p: int|
                    0 <= p < comps@.len() ==> (#[trigger] comps@[p])@.len() > 0
                        && comps@[p]@.no_duplicates(),
                forall|p: int, v: u64|
                    0 <= p < comps@.len() && #[trigger] comps@[p]@.contains(v) ==> g.node_seq()
                        .subrange(0, k as int).contains(v),
                forall|v: u64|
                    #[trigger] g.node_seq().subrange(0, k as int).contains(v) ==> exists|p: int|
                        0 <= p < comps@.len() && (#[trigger] comps@[p])@.contains(v),
                forall|p1: int, p2: int, v: u64|
                    #![trigger comps@[p1]@.contains(v), comps@[p2]@.contains(v)]
                    0 <= p1 < comps@.len() && 0 <= p2 < comps@.len() && p1 != p2 && comps@[p1]@
                        .contains(v) ==> !comps@[p2]@.contains(v),
                parents0.len() == nlen,
                forall|j: int|
                    0 <= j < nlen ==> crate::disjoint_set::root_of(#[trigger] uf.spec_parents(), j)
                        == crate::disjoint_set::root_of(parents0, j),
                forall|j: int, k2: int|
                    0 <= j < nlen && 0 <= k2 < nlen && #[trigger] crate::disjoint_set::same_set(
                        parents0,
                        j,
                        k2,
                    ) ==> weakly_connected(g, g.node_seq()[j], g.node_seq()[k2]),
                forall|e2: int|
                    0 <= e2 < elen ==> index.val_of((#[trigger] edges@[e2]).0) < nlen
                        && index.val_of(edges@[e2].1) < nlen && crate::disjoint_set::same_set(
                        parents0,
                        index.val_of(edges@[e2].0) as int,
                        index.val_of(edges@[e2].1) as int,
                    ),
                index.wf(),
                index.key_list() == g.node_seq(),
                forall|j: int|
                    0 <= j < nlen ==> index.spec_contains(#[trigger] g.node_seq()[j])
                        && index.val_of(g.node_seq()[j]) == j,
                forall|f: u64, t: u64| #[trigger] edges@.contains((f, t)) <==> g.spec_has_edge(f, t),
                elen == edges@.len(),
                rootseq.len() == comps@.len(),
                forall|p: int, u: u64|
                    0 <= p < comps@.len() && #[trigger] comps@[p]@.contains(u) ==> exists|j: int|
                        0 <= j < nlen && g.node_seq()[j] == u && crate::disjoint_set::root_of(
                            parents0,
                            j,
                        ) == rootseq[p],
                forall|rt: u64|
                    #[trigger] groups.spec_contains(rt) ==> rootseq[groups.val_of(rt) as int]
                        == rt as int,
                grpkeys.len() == comps@.len(),
                forall|p: int|
                    0 <= p < comps@.len() ==> groups.spec_contains(#[trigger] grpkeys[p])
                        && groups.val_of(grpkeys[p]) == p && grpkeys[p] as int == rootseq[p],
            decreases nlen - k,
        {
            let node = nodes_vec[k];
            proof {
                assert(g.node_seq()[k as int] == node);
                assert(g.node_seq().no_duplicates());
                if g.node_seq().subrange(0, k as int).contains(node) {
                    let j = choose|j: int|
                        0 <= j < k && g.node_seq().subrange(0, k as int)[j] == node;
                    assert(g.node_seq()[j] == node);
                }
            }
            let ghost parents_before_find = uf.spec_parents();
            let root = uf.find(k);
            let rootk = root as u64;
            proof {
                assert forall|j: int| 0 <= j < nlen implies crate::disjoint_set::root_of(
                    #[trigger] uf.spec_parents(),
                    j,
                ) == crate::disjoint_set::root_of(parents0, j) by {
                    assert(crate::disjoint_set::root_of(uf.spec_parents(), j)
                        == crate::disjoint_set::root_of(parents_before_find, j));
                }
                assert(root == crate::disjoint_set::root_of(parents0, k as int));
            }
            let ghost comps_pre = comps@;
            if groups.contains(rootk) {
                let pos = groups.get(rootk);
                let mut cv = Vec::new();
                let clen = comps[pos].len();
                let mut ci: usize = 0;
                while ci < clen
                    invariant
                        pos < comps@.len(),
                        clen == comps@[pos as int]@.len(),
                        ci <= clen,
                        cv@ == comps@[pos as int]@.subrange(0, ci as int),
                    decreases clen - ci,
                {
                    cv.push(comps[pos][ci]);
                    proof {
                        assert(cv@ =~= comps@[pos as int]@.subrange(0, ci + 1 as int));
                    }
                    ci += 1;
                }
                proof {
                    assert(cv@ =~= comps@[pos as int]@);
                }
                let ghost old_comp = comps@[pos as int]@;
                cv.push(node);
                comps[pos] = cv;
                proof {
                    assert(comps@[pos as int]@ == old_comp.push(node));
                    assert(!old_comp.contains(node)) by {
                        if old_comp.contains(node) {
                            assert(comps_pre[pos as int]@.contains(node));
                            assert(g.node_seq().subrange(0, k as int).contains(node));
                        }
                    }
                    crate::lemma_vec_push_distinct(old_comp, node);
                    self.lemma_ccs2_push_facts(g, comps_pre, comps@, pos as int, node, k as int);
                    // the grown component still gathers one root class
                    assert(rootseq[pos as int] == rootk as int);

                    assert forall|p: int, u: u64|
                        0 <= p < comps@.len() && #[trigger] comps@[p]@.contains(u) implies exists|
                        j: int,
                    |
                        0 <= j < nlen && g.node_seq()[j] == u && crate::disjoint_set::root_of(
                            parents0,
                            j,
                        ) == rootseq[p] by {
                        if p == pos as int {
                            if u == node {
                                assert(g.node_seq()[k as int] == node);
                                assert(crate::disjoint_set::root_of(parents0, k as int)
                                    == rootseq[pos as int]);
                            } else {
                                assert(old_comp.contains(u)) by {
                                    let j2 = choose|j2: int|
                                        0 <= j2 < comps@[p]@.len() && comps@[p]@[j2] == u;
                                    assert(j2 < comps@[p]@.len() - 1);
                                    assert(old_comp[j2] == u);
                                }
                                assert(comps_pre[p]@.contains(u));
                            }
                        } else {
                            assert(comps@[p] == comps_pre[p]);
                            assert(comps_pre[p]@.contains(u));
                        }
                    }
                }
            } else {
                let ghost groups_pre = groups;
                groups.insert(rootk, comps.len());
                let mut nc: Vec<u64> = Vec::new();
                nc.push(node);
                comps.push(nc);
                proof {
                    assert(comps@[comps@.len() - 1]@ =~= Seq::<u64>::empty().push(node));
                    assert(comps@[comps@.len() - 1]@.contains(node)) by {
                        assert(comps@[comps@.len() - 1]@[0] == node);
                    }
                    self.lemma_ccs2_new_group_facts(g, comps_pre, comps@, node, k as int);
                    let ghost rootseq_pre = rootseq;
                    rootseq = rootseq.push(root as int);
                    assert forall|p: int, u: u64|
                        0 <= p < comps@.len() && #[trigger] comps@[p]@.contains(u) implies exists|
                        j: int,
                    |
                        0 <= j < nlen && g.node_seq()[j] == u && crate::disjoint_set::root_of(
                            parents0,
                            j,
                        ) == rootseq[p] by {
                        if p < comps_pre.len() {
                            assert(comps@[p] == comps_pre[p]);
                            assert(comps_pre[p]@.contains(u));
                            assert(rootseq[p] == rootseq_pre[p]);
                        } else {
                            assert(u == node) by {
                                let j2 = choose|j2: int|
                                    0 <= j2 < comps@[p]@.len() && comps@[p]@[j2] == u;
                            }
                            assert(g.node_seq()[k as int] == node);
                            assert(rootseq[p] == root as int);
                        }
                    }
                    assert forall|rt: u64| #[trigger] groups.spec_contains(rt)
                        implies rootseq[groups.val_of(rt) as int] == rt as int by {
                        if rt != rootk {
                            assert(rootseq[groups.val_of(rt) as int] == rootseq_pre[groups.val_of(
                                rt,
                            ) as int]);
                        } else {
                            assert(groups.val_of(rootk) == comps_pre.len());
                            assert(rootseq[comps_pre.len() as int] == root as int);
                        }
                    }
                    let ghost grpkeys_pre = grpkeys;
                    grpkeys = grpkeys.push(rootk);
                    assert forall|p: int| 0 <= p < comps@.len() implies groups.spec_contains(
                        #[trigger] grpkeys[p],
                    ) && groups.val_of(grpkeys[p]) == p && grpkeys[p] as int == rootseq[p] by {
                        if p == comps_pre.len() {
                            assert(grpkeys[p] == rootk);
                            assert(groups.spec_contains(rootk) && groups.val_of(rootk) == p);
                            assert(rootk as int == rootseq[p]);
                        } else {
                            assert(grpkeys[p] == grpkeys_pre[p]);
                            assert(rootseq[p] == rootseq_pre[p]);
                            assert(groups_pre.spec_contains(grpkeys_pre[p]));
                            assert(grpkeys_pre[p] != rootk);
                        }
                    }
                }
            }
            k += 1;
        }
        proof {
            assert(g.node_seq().subrange(0, nlen as int) =~= g.node_seq());
            assert forall|v: u64| #[trigger] g.node_set().contains(v) implies exists|p: int|
                0 <= p < comps@.len() && (#[trigger] comps@[p])@.contains(v) by {
                assert(g.node_seq().contains(v));
            }
            assert forall|v: u64|
                (exists|p: int| 0 <= p < comps@.len() && (#[trigger] comps@[p])@.contains(v))
                implies #[trigger] g.node_set().contains(v) by {
                let p = choose|p: int|
                    0 <= p < comps@.len() && (#[trigger] comps@[p])@.contains(v);
                assert(g.node_seq().contains(v));
            }
            // two members of one group share a class, so a walk joins
            // them; and an edge between two groups would merge their
            // classes, so none exists
            assert forall|p: int, u: u64, v: u64|
                #![trigger comps@[p]@.contains(u), comps@[p]@.contains(v)]
                0 <= p < comps@.len() && comps@[p]@.contains(u) && comps@[p]@.contains(v)
                implies weakly_connected(g, u, v) by {
                let ju = choose|j: int|
                    0 <= j < nlen && g.node_seq()[j] == u && crate::disjoint_set::root_of(
                        parents0,
                        j,
                    ) == rootseq[p];
                let jv = choose|j: int|
                    0 <= j < nlen && g.node_seq()[j] == v && crate::disjoint_set::root_of(
                        parents0,
                        j,
                    ) == rootseq[p];
                assert(crate::disjoint_set::same_set(parents0, ju, jv));
                assert(weakly_connected(g, g.node_seq()[ju], g.node_seq()[jv]));
            }
            assert(components_connected(g, comps@));
            assert forall|p: int, v: u64, w: u64|
                0 <= p < comps@.len() && #[trigger] comps@[p]@.contains(v) && #[trigger] linked(
                    g,
                    v,
                    w,
                ) implies comps@[p]@.contains(w) by {
                self.lemma_wf_facts();
                let jv = choose|j: int|
                    0 <= j < nlen && g.node_seq()[j] == v && crate::disjoint_set::root_of(
                        parents0,
                        j,
                    ) == rootseq[p];
                assert(index.val_of(g.node_seq()[jv]) == jv);
                assert(g.node_set().contains(w)) by {
                    if g.spec_has_edge(v, w) {
                        assert(g.nbrs(v).contains(w));
                    } else {
                        assert(g.nbrs(w).contains(v));
                    }
                }
                let q = choose|q: int|
                    0 <= q < comps@.len() && (#[trigger] comps@[q])@.contains(w);
                let jw = choose|j: int|
                    0 <= j < nlen && g.node_seq()[j] == w && crate::disjoint_set::root_of(
                        parents0,
                        j,
                    ) == rootseq[q];
                assert(index.val_of(g.node_seq()[jw]) == jw);
                // the edge was merged, in whichever direction it runs
                assert(crate::disjoint_set::same_set(parents0, jv, jw)) by {
                    if g.spec_has_edge(v, w) {
                        assert(edges@.contains((v, w)));
                        let e2 = choose|e2: int| 0 <= e2 < elen && edges@[e2] == (v, w);
                        assert(crate::disjoint_set::same_set(
                            parents0,
                            index.val_of(edges@[e2].0) as int,
                            index.val_of(edges@[e2].1) as int,
                        ));
                    } else {
                        assert(g.spec_has_edge(w, v));
                        assert(edges@.contains((w, v)));
                        let e2 = choose|e2: int| 0 <= e2 < elen && edges@[e2] == (w, v);
                        assert(crate::disjoint_set::same_set(
                            parents0,
                            index.val_of(edges@[e2].0) as int,
                            index.val_of(edges@[e2].1) as int,
                        ));
                    }
                }
                assert(rootseq[p] == rootseq[q]);
                assert(rootseq[p] == grpkeys[p] as int);
                assert(rootseq[q] == grpkeys[q] as int);
                assert(grpkeys[p] == grpkeys[q]);
                assert(groups.val_of(grpkeys[p]) == p && groups.val_of(grpkeys[q]) == q);
                assert(p == q);
            }
            assert(components_closed(g, comps@));
        }
        comps
    }

    /// Facts after appending a fresh vertex to the component at `pos`.
    proof fn lemma_ccs2_push_facts(
        &self,
        g: AdjacencyGraph,
        comps_pre: Seq<Vec<u64>>,
        comps_now: Seq<Vec<u64>>,
        pos: int,
        node: u64,
        k: int,
    )
        requires
            g == *self,
            g.wf(),
            0 <= k < g.node_seq().len(),
            g.node_seq()[k] == node,
            !g.node_seq().subrange(0, k).contains(node),
            0 <= pos < comps_pre.len(),
            comps_now.len() == comps_pre.len(),
            forall|p: int| 0 <= p < comps_pre.len() && p != pos ==> comps_now[p] == comps_pre[p],
            comps_now[pos]@ == comps_pre[pos]@.push(node),
            comps_now[pos]@.no_duplicates(),
            forall|p: int|
                0 <= p < comps_pre.len() ==> (#[trigger] comps_pre[p])@.len() > 0
                    && comps_pre[p]@.no_duplicates(),
            forall|p: int, v: u64|
                0 <= p < comps_pre.len() && #[trigger] comps_pre[p]@.contains(v) ==> g.node_seq()
                    .subrange(0, k).contains(v),
            forall|v: u64|
                #[trigger] g.node_seq().subrange(0, k).contains(v) ==> exists|p: int|
                    0 <= p < comps_pre.len() && (#[trigger] comps_pre[p])@.contains(v),
            forall|p1: int, p2: int, v: u64|
                #![trigger comps_pre[p1]@.contains(v), comps_pre[p2]@.contains(v)]
                0 <= p1 < comps_pre.len() && 0 <= p2 < comps_pre.len() && p1 != p2 && comps_pre[p1]@
                    .contains(v) ==> !comps_pre[p2]@.contains(v),
        ensures
            forall|p: int|
                0 <= p < comps_now.len() ==> (#[trigger] comps_now[p])@.len() > 0
                    && comps_now[p]@.no_duplicates(),
            forall|p: int, v: u64|
                0 <= p < comps_now.len() && #[trigger] comps_now[p]@.contains(v) ==> g.node_seq()
                    .subrange(0, k + 1).contains(v),
            forall|v: u64|
                #[trigger] g.node_seq().subrange(0, k + 1).contains(v) ==> exists|p: int|
                    0 <= p < comps_now.len() && (#[trigger] comps_now[p])@.contains(v),
            forall|p1: int, p2: int, v: u64|
                #![trigger comps_now[p1]@.contains(v), comps_now[p2]@.contains(v)]
                0 <= p1 < comps_now.len() && 0 <= p2 < comps_now.len() && p1 != p2 && comps_now[p1]@
                    .contains(v) ==> !comps_now[p2]@.contains(v),
    {
        let prefix1 = g.node_seq().subrange(0, k + 1);
        assert(prefix1 =~= g.node_seq().subrange(0, k).push(node));
        assert forall|p: int, v: u64|
            0 <= p < comps_now.len() && #[trigger] comps_now[p]@.contains(v) implies prefix1
            .contains(v) by {
            if p == pos && v == node {
                assert(prefix1[prefix1.len() - 1] == node);
            } else if p == pos {
                assert(comps_pre[pos]@.contains(v)) by {
                    let j = choose|j: int|
                        0 <= j < comps_now[pos]@.len() && comps_now[pos]@[j] == v;
                    assert(j < comps_now[pos]@.len() - 1);
                    assert(comps_pre[pos]@[j] == v);
                }
                assert(g.node_seq().subrange(0, k).contains(v));
                let j = choose|j: int| 0 <= j < k && g.node_seq().subrange(0, k)[j] == v;
                assert(prefix1[j] == v);
            } else {
                assert(comps_pre[p]@.contains(v));
                assert(g.node_seq().subrange(0, k).contains(v));
                let j = choose|j: int| 0 <= j < k && g.node_seq().subrange(0, k)[j] == v;
                assert(prefix1[j] == v);
            }
        }
        assert forall|v: u64| prefix1.contains(v) implies exists|p: int|
            0 <= p < comps_now.len() && (#[trigger] comps_now[p])@.contains(v) by {
            if v == node {
                assert(comps_now[pos]@.contains(v)) by {
                    assert(comps_now[pos]@[comps_now[pos]@.len() - 1] == node);
                }
            } else {
                let j = choose|j: int| 0 <= j < prefix1.len() && prefix1[j] == v;
                assert(j < k);
                assert(g.node_seq().subrange(0, k)[j] == v);
                assert(g.node_seq().subrange(0, k).contains(v));
                let p = choose|p: int|
                    0 <= p < comps_pre.len() && (#[trigger] comps_pre[p])@.contains(v);
                if p == pos {
                    assert(comps_now[pos]@.contains(v)) by {
                        let j2 = choose|j2: int|
                            0 <= j2 < comps_pre[pos]@.len() && comps_pre[pos]@[j2] == v;
                        assert(comps_now[pos]@[j2] == v);
                    }
                } else {
                    assert(comps_now[p]@.contains(v));
                }
            }
        }
        assert forall|p1: int, p2: int, v: u64|
            0 <= p1 < comps_now.len() && 0 <= p2 < comps_now.len() && p1 != p2 && (
        #[trigger] comps_now[p1]@.contains(v)) implies !(#[trigger] comps_now[p2]@.contains(
            v,
        )) by {
            if comps_now[p2]@.contains(v) {
                let w1 = if p1 == pos {
                    v
                } else {
                    v
                };
                // membership in the pre-state components
                if p1 == pos {
                    if v != node {
                        let j = choose|j: int|
                            0 <= j < comps_now[pos]@.len() && comps_now[pos]@[j] == v;
                        assert(j < comps_now[pos]@.len() - 1);
                        assert(comps_pre[pos]@[j] == v);
                        assert(comps_pre[pos]@.contains(v));
                        assert(comps_pre[p2]@.contains(v));
                    } else {
                        assert(comps_pre[p2]@.contains(node));
                        assert(g.node_seq().subrange(0, k).contains(node));
                    }
                } else if p2 == pos {
                    if v != node {
                        let j = choose|j: int|
                            0 <= j < comps_now[pos]@.len() && comps_now[pos]@[j] == v;
                        assert(j < comps_now[pos]@.len() - 1);
                        assert(comps_pre[pos]@[j] == v);
                        assert(comps_pre[pos]@.contains(v));
                        assert(comps_pre[p1]@.contains(v));
                    } else {
                        assert(comps_pre[p1]@.contains(node));
                        assert(g.node_seq().subrange(0, k).contains(node));
                    }
                } else {
                    assert(comps_pre[p1]@.contains(v));
                    assert(comps_pre[p2]@.contains(v));
                }
            }
        }
    }

    /// Facts after opening a new singleton component for a fresh
    /// vertex.
    proof fn lemma_ccs2_new_group_facts(
        &self,
        g: AdjacencyGraph,
        comps_pre: Seq<Vec<u64>>,
        comps_now: Seq<Vec<u64>>,
        node: u64,
        k: int,
    )
        requires
            g == *self,
            g.wf(),
            0 <= k < g.node_seq().len(),
            g.node_seq()[k] == node,
            !g.node_seq().subrange(0, k).contains(node),
            comps_now.len() == comps_pre.len() + 1,
            forall|p: int| 0 <= p < comps_pre.len() ==> comps_now[p] == comps_pre[p],
            comps_now[comps_now.len() - 1]@ == Seq::<u64>::empty().push(node),
            forall|p: int|
                0 <= p < comps_pre.len() ==> (#[trigger] comps_pre[p])@.len() > 0
                    && comps_pre[p]@.no_duplicates(),
            forall|p: int, v: u64|
                0 <= p < comps_pre.len() && #[trigger] comps_pre[p]@.contains(v) ==> g.node_seq()
                    .subrange(0, k).contains(v),
            forall|v: u64|
                #[trigger] g.node_seq().subrange(0, k).contains(v) ==> exists|p: int|
                    0 <= p < comps_pre.len() && (#[trigger] comps_pre[p])@.contains(v),
            forall|p1: int, p2: int, v: u64|
                #![trigger comps_pre[p1]@.contains(v), comps_pre[p2]@.contains(v)]
                0 <= p1 < comps_pre.len() && 0 <= p2 < comps_pre.len() && p1 != p2 && comps_pre[p1]@
                    .contains(v) ==> !comps_pre[p2]@.contains(v),
        ensures
            forall|p: int|
                0 <= p < comps_now.len() ==> (#[trigger] comps_now[p])@.len() > 0
                    && comps_now[p]@.no_duplicates(),
            forall|p: int, v: u64|
                0 <= p < comps_now.len() && #[trigger] comps_now[p]@.contains(v) ==> g.node_seq()
                    .subrange(0, k + 1).contains(v),
            forall|v: u64|
                #[trigger] g.node_seq().subrange(0, k + 1).contains(v) ==> exists|p: int|
                    0 <= p < comps_now.len() && (#[trigger] comps_now[p])@.contains(v),
            forall|p1: int, p2: int, v: u64|
                #![trigger comps_now[p1]@.contains(v), comps_now[p2]@.contains(v)]
                0 <= p1 < comps_now.len() && 0 <= p2 < comps_now.len() && p1 != p2 && comps_now[p1]@
                    .contains(v) ==> !comps_now[p2]@.contains(v),
    {
        let prefix1 = g.node_seq().subrange(0, k + 1);
        let last = comps_now.len() - 1;
        assert(prefix1 =~= g.node_seq().subrange(0, k).push(node));
        assert(comps_now[last]@.len() == 1 && comps_now[last]@[0] == node);
        assert forall|p: int, v: u64|
            0 <= p < comps_now.len() && #[trigger] comps_now[p]@.contains(v) implies prefix1
            .contains(v) by {
            if p == last {
                assert(v == node) by {
                    let j = choose|j: int| 0 <= j < comps_now[p]@.len() && comps_now[p]@[j] == v;
                }
                assert(prefix1[prefix1.len() - 1] == node);
            } else {
                assert(comps_pre[p]@.contains(v));
                assert(g.node_seq().subrange(0, k).contains(v));
                let j = choose|j: int| 0 <= j < k && g.node_seq().subrange(0, k)[j] == v;
                assert(prefix1[j] == v);
            }
        }
        assert forall|v: u64| prefix1.contains(v) implies exists|p: int|
            0 <= p < comps_now.len() && (#[trigger] comps_now[p])@.contains(v) by {
            if v == node {
                assert(comps_now[last]@.contains(v)) by {
                    assert(comps_now[last]@[0] == node);
                }
            } else {
                let j = choose|j: int| 0 <= j < prefix1.len() && prefix1[j] == v;
                assert(j < k);
                assert(g.node_seq().subrange(0, k)[j] == v);
                assert(g.node_seq().subrange(0, k).contains(v));
                let p = choose|p: int|
                    0 <= p < comps_pre.len() && (#[trigger] comps_pre[p])@.contains(v);
                assert(comps_now[p]@.contains(v));
            }
        }
        assert forall|p1: int, p2: int, v: u64|
            0 <= p1 < comps_now.len() && 0 <= p2 < comps_now.len() && p1 != p2 && (
        #[trigger] comps_now[p1]@.contains(v)) implies !(#[trigger] comps_now[p2]@.contains(
            v,
        )) by {
            if comps_now[p2]@.contains(v) {
                if p1 == last {
                    assert(v == node) by {
                        let j = choose|j: int|
                            0 <= j < comps_now[p1]@.len() && comps_now[p1]@[j] == v;
                    }
                    assert(comps_pre[p2]@.contains(node));
                    assert(g.node_seq().subrange(0, k).contains(node));
                } else if p2 == last {
                    assert(v == node) by {
                        let j = choose|j: int|
                            0 <= j < comps_now[p2]@.len() && comps_now[p2]@[j] == v;
                    }
                    assert(comps_pre[p1]@.contains(node));
                    assert(g.node_seq().subrange(0, k).contains(node));
                } else {
                    assert(comps_pre[p1]@.contains(v));
                    assert(comps_pre[p2]@.contains(v));
                }
            }
        }
    }


    /// Breadth-first hop distances from every vertex: for each member
    /// of the node set, in order, the table of vertices discovered
    /// from it. The source sits at distance zero in its own table, and
    /// a vertex appears in a table exactly when it is reachable from
    /// the table's source.
    pub fn shortest_path_matrix(&self) -> (r: Vec<(u64, crate::node_map::NodeMap<usize>)>)
        requires
            self.wf(),
        ensures
            r@.len() == self.node_seq().len(),
            forall|i: int|
                0 <= i < r@.len() ==> {
                    &&& (#[trigger] r@[i]).0 == self.node_seq()[i]
                    &&& r@[i].1.wf()
                    &&& r@[i].1.spec_contains(r@[i].0)
                    &&& r@[i].1.val_of(r@[i].0) == 0
                    &&& forall|w: u64|
                        #[trigger] r@[i].1.spec_contains(w) ==> reaches(*self, r@[i].0, w)
                    &&& forall|w: u64|
                        #[trigger] reaches(*self, r@[i].0, w) ==> r@[i].1.spec_contains(w)
                },
    {
        let ghost g = *self;
        proof {
            self.lemma_wf_facts();
        }
        let nodes_vec = self.nodes();
        let nlen = nodes_vec.len();
        let mut r: Vec<(u64, crate::node_map::NodeMap<usize>)> = Vec::new();
        let mut n: usize = 0;
        while n < nlen
            invariant
                self.wf(),
                g == *self,
                nodes_vec@ == g.node_seq(),
                nlen == nodes_vec@.len(),
                n <= nlen,
                r@.len() == n,
                forall|i: int|
                    0 <= i < r@.len() ==> {
                        &&& (#[trigger] r@[i]).0 == g.node_seq()[i]
                        &&& r@[i].1.wf()
                        &&& r@[i].1.spec_contains(r@[i].0)
                        &&& r@[i].1.val_of(r@[i].0) == 0
                        &&& forall|w: u64|
                            #[trigger] r@[i].1.spec_contains(w) ==> reaches(g, r@[i].0, w)
                        &&& forall|w: u64|
                            #[trigger] reaches(g, r@[i].0, w) ==> r@[i].1.spec_contains(w)
                    },
            decreases nlen - n,
        {
            let node = nodes_vec[n];
            proof {
                assert(g.node_seq()[n as int] == node);
                assert(g.node_set().contains(node));
                lemma_reaches_self(g, node);
            }
            let mut distances: crate::node_map::NodeMap<usize> = crate::node_map::NodeMap::new();
            let mut visited: Vec<u64> = Vec::new();
            let mut queue: Vec<u64> = Vec::new();
            distances.insert(node, 0);
            queue.push(node);
            let mut qi: usize = 0;
            proof {
                assert(queue@[0] == node);
                assert(queue@.contains(node));
            }
            while qi < queue.len()
                invariant
                    self.wf(),
                    g == *self,
                    nlen == g.node_seq().len(),
                    distances.wf(),
                    qi <= queue@.len(),
                    queue@.len() <= distances.count(),
                    distances.count() <= nlen,
                    forall|w: u64| #[trigger] distances.spec_contains(w) ==> g.node_set().contains(
                        w,
                    ),
                    forall|w: u64| #[trigger] distances.spec_contains(w) ==> reaches(g, node, w),
                    forall|w: u64|
                        #[trigger] distances.spec_contains(w) ==> distances.val_of(w)
                            < distances.count(),
                    forall|k: int|
                        0 <= k < queue@.len() ==> distances.spec_contains(#[trigger] queue@[k]),
                    distances.spec_contains(node),
                    distances.val_of(node) == 0,
                    forall|w: u64| #[trigger] distances.spec_contains(w) ==> queue@.contains(w),
                    forall|kk: int| 0 <= kk < qi ==> visited@.contains(#[trigger] queue@[kk]),
                    forall|v2: u64, w: u64|
                        #![trigger visited@.contains(v2), g.spec_has_edge(v2, w)]
                        visited@.contains(v2) && g.spec_has_edge(v2, w)
                            ==> distances.spec_contains(w),
                decreases nlen + 1 - qi,
            {
                let v = queue[qi];
                qi += 1;
                proof {
                    assert(queue@[qi - 1] == v);
                }
                if vec_contains_u64(&visited, v) {
                    continue;
                }
                let ghost visited_pre = visited@;
                visited.push(v);
                proof {
                    assert(visited@[visited@.len() - 1] == v);
                    assert forall|kk: int| 0 <= kk < qi implies visited@.contains(
                        #[trigger] queue@[kk],
                    ) by {
                        if kk < qi - 1 {
                            assert(visited_pre.contains(queue@[kk]));
                            let j = choose|j: int|
                                0 <= j < visited_pre.len() && visited_pre[j] == queue@[kk];
                            assert(visited@[j] == queue@[kk]);
                        }
                    }
                    assert forall|v2: u64, w: u64|
                        #![trigger visited@.contains(v2), g.spec_has_edge(v2, w)]
                        visited@.contains(v2) && v2 != v && g.spec_has_edge(v2, w)
                        implies distances.spec_contains(w) by {
                        let j = choose|j: int| 0 <= j < visited@.len() && visited@[j] == v2;
                        assert(j < visited_pre.len());
                        assert(visited_pre[j] == v2);
                        assert(visited_pre.contains(v2));
                    }
                }
                let d = distances.get(v);
                let nb = self.neighbors(v);
                let nblen = nb.len();
                let mut k: usize = 0;
                while k < nblen
                    invariant
                        self.wf(),
                        g == *self,
                        nlen == g.node_seq().len(),
                        distances.wf(),
                        k <= nblen,
                        nblen == nb@.len(),
                        nb@ == g.nbrs(v),
                        qi <= queue@.len(),
                        queue@.len() <= distances.count(),
                        distances.count() <= nlen,
                        d < distances.count(),
                        reaches(g, node, v),
                        forall|w: u64|
                            #[trigger] distances.spec_contains(w) ==> g.node_set().contains(w),
                        forall|w: u64|
                            #[trigger] distances.spec_contains(w) ==> reaches(g, node, w),
                        forall|w: u64|
                            #[trigger] distances.spec_contains(w) ==> distances.val_of(w)
                                < distances.count(),
                        forall|kk: int|
                            0 <= kk < queue@.len() ==> distances.spec_contains(
                                #[trigger] queue@[kk],
                            ),
                        distances.spec_contains(node),
                        distances.val_of(node) == 0,
                        forall|w: u64|
                            #[trigger] distances.spec_contains(w) ==> queue@.contains(w),
                        forall|kk: int| 0 <= kk < qi ==> visited@.contains(#[trigger] queue@[kk]),
                        visited@.last() == v,
                        visited@.len() >= 1,
                        forall|v2: u64, w: u64|
                            #![trigger visited@.contains(v2), g.spec_has_edge(v2, w)]
                            visited@.contains(v2) && v2 != v && g.spec_has_edge(v2, w)
                                ==> distances.spec_contains(w),
                        forall|j: int| 0 <= j < k ==> distances.spec_contains(#[trigger] nb@[j]),
                    decreases nblen - k,
                {
                    let adj = nb[k];
                    if !distances.contains(adj) {
                        proof {
                            self.lemma_wf_facts();
                            assert(g.nbrs(v).contains(adj)) by {
                                assert(g.nbrs(v)[k as int] == adj);
                            }
                            assert(g.node_set().contains(adj));
                            lemma_reaches_step(g, node, v, adj);
                        }
                        let ghost dpre = distances;
                        let ghost qpre = queue@;
                        distances.insert(adj, d + 1);
                        queue.push(adj);
                        proof {
                            assert forall|w: u64| #[trigger] distances.spec_contains(w) implies g
                                .node_set().contains(w) && reaches(g, node, w) && distances.val_of(
                                w,
                            ) < distances.count() by {
                                if w != adj {
                                    assert(dpre.spec_contains(w));
                                    assert(distances.val_of(w) == dpre.val_of(w));
                                }
                            }
                            assert forall|kk: int|
                                0 <= kk < queue@.len() implies distances.spec_contains(
                                #[trigger] queue@[kk],
                            ) by {
                                if kk < queue@.len() - 1 {
                                    assert(dpre.spec_contains(queue@[kk]));
                                }
                            }
                            assert forall|w: u64| #[trigger] distances.spec_contains(w)
                                implies queue@.contains(w) by {
                                if w != adj {
                                    assert(dpre.spec_contains(w));
                                    assert(qpre.contains(w));
                                    let j = choose|j: int| 0 <= j < qpre.len() && qpre[j] == w;
                                    assert(queue@[j] == w);
                                } else {
                                    assert(queue@[queue@.len() - 1] == adj);
                                }
                            }
                            // one fresh vertex per enqueue keeps the
                            // table within the node set's size
                            distances.lemma_keys_distinct();
                            assert forall|w: u64| #[trigger] distances.key_list().contains(w)
                                implies g.node_seq().contains(w) by {
                                assert(distances.spec_contains(w));
                                assert(g.node_set().contains(w));
                            }
                            crate::lemma_distinct_subset_len(
                                distances.key_list(),
                                g.node_seq(),
                            );
                        }
                    }
                    k += 1;
                }
                proof {
                    assert forall|v2: u64, w: u64|
                        #![trigger visited@.contains(v2), g.spec_has_edge(v2, w)]
                        visited@.contains(v2) && g.spec_has_edge(v2, w) implies distances
                        .spec_contains(w) by {
                        if v2 == v {
                            let j = choose|j: int|
                                0 <= j < g.nbrs(v).len() && g.nbrs(v)[j] == w;
                            assert(nb@[j] == w);
                        }
                    }
                }
            }
            proof {
                // every recorded vertex was enqueued and processed, so
                // the table is closed under the edges and holds every
                // vertex reachable from the source
                assert forall|w: u64| #[trigger] reaches(g, node, w) implies distances
                    .spec_contains(w) by {
                    assert forall|v2: u64, w2: u64|
                        #![trigger distances.key_list().contains(v2), g.spec_has_edge(v2, w2)]
                        distances.key_list().contains(v2) && g.spec_has_edge(v2, w2)
                        implies distances.key_list().contains(w2) by {
                        assert(distances.spec_contains(v2));
                        assert(queue@.contains(v2));
                        let kk = choose|kk: int| 0 <= kk < queue@.len() && queue@[kk] == v2;
                        assert(visited@.contains(queue@[kk]));
                        assert(distances.spec_contains(w2));
                    }
                    let p = choose|p: Seq<u64>|
                        is_path(g, p) && p.first() == node && p.last() == w;
                    assert(distances.key_list().contains(node)) by {
                        assert(distances.spec_contains(node));
                    }
                    lemma_closed_list_reaches(g, distances.key_list(), p);
                    assert(distances.spec_contains(w));
                }
            }
            r.push((node, distances));
            n += 1;
        }
        r
    }

    /// Reclaims every vertex whose successor list is empty, dropping
    /// it from the node set and the adjacency table. On a symmetric
    /// graph these are exactly the isolated vertices, and no dangling
    /// reference can remain.
    pub fn gc(&mut self)
        requires
            old(self).wf(),
            is_symmetric(*old(self)),
        ensures
            final(self).wf(),
            is_symmetric(*final(self)),
            forall|v: u64|
                #[trigger] final(self).node_set().contains(v) <==> (old(self).node_set().contains(
                    v,
                ) && old(self).nbrs(v).len() > 0),
            forall|v: u64| final(self).nbrs(v) == old(self).nbrs(v),
    {
        let ghost g0 = *old(self);
        proof {
            self.lemma_wf_facts();
        }
        let mut new_nodes: Vec<u64> = Vec::new();
        let nlen = self.nodes.len();
        let mut n: usize = 0;
        while n < nlen
            invariant
                self.wf(),
                *self == g0,
                nlen == self.nodes@.len(),
                n <= nlen,
                new_nodes@.no_duplicates(),
                forall|v: u64|
                    #[trigger] new_nodes@.contains(v) <==> (self.nodes@.subrange(0, n as int)
                        .contains(v) && self.nbrs(v).len() > 0),
            decreases nlen - n,
        {
            let v = self.nodes[n];
            let keep = match self.get_adjacencies(v) {
                Some(l) => l.len() > 0,
                None => false,
            };
            let ghost pre = new_nodes@;
            if keep {
                proof {
                    if new_nodes@.contains(v) {
                        assert(self.nodes@.subrange(0, n as int).contains(v));
                        let j = choose|j: int|
                            0 <= j < n && self.nodes@.subrange(0, n as int)[j] == v;
                        assert(self.nodes@[j] == v);
                        assert(self.nodes@[n as int] == v);
                    }
                }
                new_nodes.push(v);
            }
            proof {
                assert(self.nodes@.subrange(0, n + 1 as int) =~= self.nodes@.subrange(
                    0,
                    n as int,
                ).push(self.nodes@[n as int]));
                assert forall|v2: u64| #[trigger] new_nodes@.contains(v2) implies (self.nodes@
                    .subrange(0, n + 1 as int).contains(v2) && self.nbrs(v2).len() > 0) by {
                    if pre.contains(v2) {
                        let j = choose|j: int|
                            0 <= j < n && self.nodes@.subrange(0, n as int)[j] == v2;
                        assert(self.nodes@.subrange(0, n + 1 as int)[j] == v2);
                    } else {
                        assert(keep && v2 == v);
                        assert(self.nodes@.subrange(0, n + 1 as int)[n as int] == v2);
                    }
                }
                assert forall|v2: u64|
                    (self.nodes@.subrange(0, n + 1 as int).contains(v2) && self.nbrs(v2).len()
                        > 0) implies #[trigger] new_nodes@.contains(v2) by {
                    let j = choose|j: int|
                        0 <= j < n + 1 && (#[trigger] self.nodes@.subrange(0, n + 1 as int)[j])
                            == v2;
                    if j < n {
                        assert(self.nodes@.subrange(0, n as int)[j] == v2);
                        assert(pre.contains(v2));
                        let j2 = choose|j2: int| 0 <= j2 < pre.len() && pre[j2] == v2;
                        assert(new_nodes@[j2] == v2);
                    } else {
                        assert(v2 == v);
                        assert(keep) by {
                            if !keep {
                                assert(self.nbrs(v) == Seq::<u64>::empty());
                            }
                        }
                        assert(new_nodes@[new_nodes@.len() - 1] == v2);
                    }
                }
                if keep {
                    assert(new_nodes@.no_duplicates()) by {
                        assert(!pre.contains(v));
                        assert forall|a: int, b: int|
                            0 <= a < new_nodes@.len() && 0 <= b < new_nodes@.len() && a != b
                                implies new_nodes@[a] != new_nodes@[b] by {
                            let last = new_nodes@.len() - 1;
                            if a < last && b < last {
                                assert(pre[a] == new_nodes@[a] && pre[b] == new_nodes@[b]);
                            } else if a == last && b < last {
                                if new_nodes@[b] == v {
                                    assert(pre[b] == v);
                                    assert(pre.contains(v));
                                }
                            } else if b == last && a < last {
                                if new_nodes@[a] == v {
                                    assert(pre[a] == v);
                                    assert(pre.contains(v));
                                }
                            }
                        }
                    }
                }
            }
            n += 1;
        }
        let mut new_rows: Vec<(u64, Vec<u64>)> = Vec::new();
        let rlen = self.adjacencies.len();
        let mut i: usize = 0;
        while i < rlen
            invariant
                self.wf(),
                *self == g0,
                rlen == self.adjacencies@.len(),
                i <= rlen,
                row_keys(new_rows@).no_duplicates(),
                forall|j: int|
                    0 <= j < new_rows@.len() ==> exists|j0: int|
                        0 <= j0 < i && #[trigger] new_rows@[j] == (
                        self.adjacencies@[j0].0,
                        new_rows@[j].1,
                    ) && new_rows@[j].1@ == self.adjacencies@[j0].1@
                            && self.adjacencies@[j0].1@.len() > 0,
                forall|v: u64|
                    #[trigger] row_keys(new_rows@).contains(v) <==> (row_keys(
                        self.adjacencies@.subrange(0, i as int),
                    ).contains(v) && self.nbrs(v).len() > 0),
                forall|v: u64|
                    #[trigger] row_keys(new_rows@).contains(v) ==> key_index(new_rows@, v) >= 0
                        && new_rows@[key_index(new_rows@, v)].1@ == self.nbrs(v),
            decreases rlen - i,
        {
            let key = self.adjacencies[i].0;
            let list_len = self.adjacencies[i].1.len();
            let ghost prer = new_rows@;
            proof {
                lemma_key_index_locates(self.adjacencies@, key, i as int);
                assert(self.nbrs(key) == self.adjacencies@[i as int].1@);
                assert(row_keys(self.adjacencies@)[i as int] == key);
            }
            if list_len > 0 {
                let lst = copy_vec_u64(&self.adjacencies[i].1);
                proof {
                    if row_keys(prer).contains(key) {
                        assert(row_keys(self.adjacencies@.subrange(0, i as int)).contains(key));
                        let j = choose|j: int|
                            0 <= j < i && row_keys(self.adjacencies@.subrange(0, i as int))[j]
                                == key;
                        assert(self.adjacencies@.subrange(0, i as int)[j].0 == key);
                        assert(self.adjacencies@[j].0 == key);
                        assert(row_keys(self.adjacencies@)[j] == key);
                    }
                }
                new_rows.push((key, lst));
            }
            proof {
                let subn = self.adjacencies@.subrange(0, i + 1 as int);
                assert(subn =~= self.adjacencies@.subrange(0, i as int).push(
                    self.adjacencies@[i as int],
                ));
                assert forall|j: int| 0 <= j < new_rows@.len() implies exists|j0: int|
                    0 <= j0 < i + 1 && #[trigger] new_rows@[j] == (
                    self.adjacencies@[j0].0,
                    new_rows@[j].1,
                ) && new_rows@[j].1@ == self.adjacencies@[j0].1@ && self.adjacencies@[j0].1@.len()
                    > 0 by {
                    if j < prer.len() {
                        assert(prer[j] == new_rows@[j]);
                        let j0 = choose|j0: int|
                            0 <= j0 < i && #[trigger] prer[j] == (
                            self.adjacencies@[j0].0,
                            prer[j].1,
                        ) && prer[j].1@ == self.adjacencies@[j0].1@
                                && self.adjacencies@[j0].1@.len() > 0;
                        assert(0 <= j0 < i + 1 && new_rows@[j] == (
                            self.adjacencies@[j0].0,
                            new_rows@[j].1,
                        ) && new_rows@[j].1@ == self.adjacencies@[j0].1@
                            && self.adjacencies@[j0].1@.len() > 0);
                    } else {
                        assert(new_rows@[j].0 == key && new_rows@[j].1@
                            == self.adjacencies@[i as int].1@);
                        assert(new_rows@[j] == (self.adjacencies@[i as int].0, new_rows@[j].1)
                            && new_rows@[j].1@ == self.adjacencies@[i as int].1@
                            && self.adjacencies@[i as int].1@.len() > 0);
                    }
                }
                assert forall|v: u64| #[trigger] row_keys(new_rows@).contains(v) implies (row_keys(
                    subn,
                ).contains(v) && self.nbrs(v).len() > 0) by {
                    let j = choose|j: int|
                        0 <= j < new_rows@.len() && row_keys(new_rows@)[j] == v;
                    if j < prer.len() {
                        assert(prer[j].0 == v);
                        assert(row_keys(prer)[j] == v);
                        assert(row_keys(prer).contains(v));
                        let j2 = choose|j2: int|
                            0 <= j2 < i && row_keys(self.adjacencies@.subrange(0, i as int))[j2]
                                == v;
                        assert(subn[j2].0 == v);
                        assert(row_keys(subn)[j2] == v);
                    } else {
                        assert(new_rows@[j].0 == key);
                        assert(subn[i as int].0 == key);
                        assert(row_keys(subn)[i as int] == key);
                    }
                }
                assert forall|v: u64|
                    (row_keys(subn).contains(v) && self.nbrs(v).len() > 0)
                        implies #[trigger] row_keys(new_rows@).contains(v) by {
                    let j = choose|j: int| 0 <= j < i + 1 && row_keys(subn)[j] == v;
                    assert(subn[j].0 == v);
                    if j < i {
                        assert(self.adjacencies@.subrange(0, i as int)[j].0 == v);
                        assert(row_keys(self.adjacencies@.subrange(0, i as int))[j] == v);
                        assert(row_keys(prer).contains(v));
                        let j2 = choose|j2: int| 0 <= j2 < prer.len() && prer[j2].0 == v;
                        assert(new_rows@[j2].0 == v);
                        assert(row_keys(new_rows@)[j2] == v);
                    } else {
                        assert(v == key);
                        assert(self.nbrs(key).len() > 0);
                        assert(new_rows@[new_rows@.len() - 1].0 == key);
                        assert(row_keys(new_rows@)[new_rows@.len() - 1] == key);
                    }
                }
                if list_len > 0 {
                    assert(row_keys(new_rows@).no_duplicates()) by {
                        assert(!row_keys(prer).contains(key));
                        assert forall|a: int, b: int|
                            0 <= a < new_rows@.len() && 0 <= b < new_rows@.len() && a != b
                                implies row_keys(new_rows@)[a] != row_keys(new_rows@)[b] by {
                            let last = new_rows@.len() - 1;
                            assert(row_keys(new_rows@)[a] == new_rows@[a].0);
                            assert(row_keys(new_rows@)[b] == new_rows@[b].0);
                            if a < last && b < last {
                                assert(prer[a] == new_rows@[a] && prer[b] == new_rows@[b]);
                                assert(row_keys(prer)[a] == prer[a].0);
                                assert(row_keys(prer)[b] == prer[b].0);
                            } else if a == last && b < last {
                                if new_rows@[b].0 == key {
                                    assert(row_keys(prer)[b] == key);
                                    assert(row_keys(prer).contains(key));
                                }
                            } else if b == last && a < last {
                                if new_rows@[a].0 == key {
                                    assert(row_keys(prer)[a] == key);
                                    assert(row_keys(prer).contains(key));
                                }
                            }
                        }
                    }
                }
                assert forall|v: u64|
                    #[trigger] row_keys(new_rows@).contains(v) implies key_index(new_rows@, v) >= 0
                        && new_rows@[key_index(new_rows@, v)].1@ == self.nbrs(v) by {
                    lemma_key_index(new_rows@, v);
                    let ki = key_index(new_rows@, v);
                    assert(new_rows@[ki].0 == v);
                    if ki < prer.len() && prer.len() < new_rows@.len() {
                        assert(prer[ki] == new_rows@[ki]);
                        assert(row_keys(prer)[ki] == v);
                        assert(row_keys(prer).contains(v));
                        lemma_key_index(prer, v);
                        lemma_key_index_locates(prer, v, ki);
                        assert(prer[ki].1@ == self.nbrs(v));
                    } else if ki < prer.len() {
                        assert(prer[ki] == new_rows@[ki]);
                        assert(row_keys(prer)[ki] == v);
                        assert(row_keys(prer).contains(v));
                        lemma_key_index_locates(prer, v, ki);
                        assert(prer[ki].1@ == self.nbrs(v));
                    } else {
                        assert(v == key);
                        assert(new_rows@[ki].1@ == self.nbrs(key));
                    }
                }
            }
            i += 1;
        }
        let ghost g1 = (AdjacencyGraph { nodes: new_nodes, adjacencies: new_rows });
        proof {
            let rows1 = g1.adjacencies@;
            assert(rows1 == new_rows@);
            assert(g1.nodes@ == new_nodes@);
            assert(self.nodes@.subrange(0, nlen as int) =~= g0.nodes@);
            assert(self.adjacencies@.subrange(0, rlen as int) =~= g0.adjacencies@);
            // the new successor function agrees with the old one
            assert forall|v: u64| g1.nbrs(v) == g0.nbrs(v) by {
                lemma_key_index(rows1, v);
                let ki = key_index(rows1, v);
                if ki >= 0 {
                    assert(rows1[ki].0 == v);
                    assert(row_keys(rows1)[ki] == v);
                    assert(row_keys(rows1).contains(v));
                    assert(rows1[key_index(rows1, v)].1@ == self.nbrs(v));
                    assert(g1.nbrs(v) == rows1[ki].1@);
                } else {
                    assert(!row_keys(rows1).contains(v));
                    if g0.nbrs(v).len() > 0 {
                        lemma_key_index(g0.adjacencies@, v);
                        let k0 = key_index(g0.adjacencies@, v);
                        assert(k0 >= 0);
                        assert(g0.adjacencies@[k0].0 == v);
                        assert(row_keys(g0.adjacencies@)[k0] == v);
                        assert(row_keys(self.adjacencies@.subrange(0, rlen as int))[k0] == v);
                        assert(row_keys(self.adjacencies@.subrange(0, rlen as int)).contains(v));
                        assert(row_keys(new_rows@).contains(v));
                        assert(false);
                    }
                    assert(g0.nbrs(v) == Seq::<u64>::empty());
                    assert(g1.nbrs(v) == Seq::<u64>::empty());
                }
            }
            // the new node list keeps exactly the vertices with successors
            assert forall|v: u64| #[trigger] g1.node_set().contains(v) implies (g0.node_set()
                .contains(v) && g0.nbrs(v).len() > 0) by {
                assert(new_nodes@.contains(v));
                assert(self.nodes@.subrange(0, nlen as int).contains(v));
                let j = choose|j: int|
                    0 <= j < nlen && self.nodes@.subrange(0, nlen as int)[j] == v;
                assert(g0.nodes@[j] == v);
            }
            assert forall|v: u64| (g0.node_set().contains(v) && g0.nbrs(v).len() > 0)
                implies #[trigger] g1.node_set().contains(v) by {
                let j = choose|j: int| 0 <= j < g0.nodes@.len() && g0.nodes@[j] == v;
                assert(self.nodes@.subrange(0, nlen as int)[j] == v);
                assert(self.nodes@.subrange(0, nlen as int).contains(v));
                assert(new_nodes@.contains(v));
            }
            // well-formedness of the rebuilt graph
            assert forall|j: int| 0 <= j < rows1.len() implies {
                &&& (#[trigger] rows1[j]).1@.no_duplicates()
                &&& g1.nodes@.contains(rows1[j].0)
                &&& forall|k: int|
                    0 <= k < rows1[j].1@.len() ==> g1.nodes@.contains(#[trigger] rows1[j].1@[k])
            } by {
                let j0 = choose|j0: int|
                    0 <= j0 < rlen && #[trigger] new_rows@[j] == (
                    self.adjacencies@[j0].0,
                    new_rows@[j].1,
                ) && new_rows@[j].1@ == self.adjacencies@[j0].1@ && self.adjacencies@[j0].1@.len()
                    > 0;
                let v = rows1[j].0;
                assert(g0.adjacencies@[j0].1@.no_duplicates());
                // the key keeps a successor, hence survives collection
                assert(row_keys(g0.adjacencies@)[j0] == v);
                lemma_key_index_locates(g0.adjacencies@, v, j0);
                assert(g0.nbrs(v).len() > 0);
                assert(g0.nodes@.contains(v));
                assert(g0.node_set().contains(v));
                assert(g1.node_set().contains(v));
                assert(g1.nodes@.contains(v));
                assert forall|k: int| 0 <= k < rows1[j].1@.len() implies g1.nodes@.contains(
                    #[trigger] rows1[j].1@[k],
                ) by {
                    let t = rows1[j].1@[k];
                    assert(g0.nbrs(v).contains(t));
                    assert(g0.spec_has_edge(v, t));
                    assert(g0.spec_has_edge(t, v));
                    assert(g0.nbrs(t).contains(v));
                    assert(g0.nbrs(t).len() > 0);
                    assert(g0.node_set().contains(t));
                    assert(g1.node_set().contains(t));
                    assert(g1.nodes@.contains(t));
                }
            }
            assert(g1.wf());
            assert forall|a: u64, b: u64| #[trigger] g1.spec_has_edge(a, b) implies g1
                .spec_has_edge(b, a) by {
                assert(g1.nbrs(a) == g0.nbrs(a));
                assert(g0.spec_has_edge(a, b));
                assert(g0.spec_has_edge(b, a));
                assert(g1.nbrs(b) == g0.nbrs(b));
            }
            assert(is_symmetric(g1));
        }
        self.nodes = new_nodes;
        self.adjacencies = new_rows;
        proof {
            assert(*self == g1);
        }
    }

    /// Whether the edge `from -> to` is present.
    pub fn has_edge(&self, from: u64, to: u64) -> (r: bool)
        requires
            self.wf(),
        ensures
            r == self.spec_has_edge(from, to),
    {
        match self.find_row(from) {
            Some(i) => vec_contains_u64(&self.adjacencies[i].1, to),
            None => false,
        }
    }
}

} // verus!

