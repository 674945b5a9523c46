//! The undirected wrapper: every edge insertion or removal is mirrored
//! in both directions, so the adjacency stays symmetric. On this view
//! the library computes connected components and compacts maximal
//! chains of degree-2 vertices into single edges.

use vstd::prelude::*;

use crate::graph::{is_partition, is_symmetric, AdjacencyGraph};
use crate::{lemma_push_unique, lemma_remove_value_distinct, push_unique, vec_contains_u64};

verus! {

/// A graph whose adjacency is symmetric after any mutation.
#[derive(Debug)]
pub struct UndirectedGraph {
    g: AdjacencyGraph,
}

/// `v` starts a chain in `g`: its only neighbor besides itself is
/// `w`, and `w` continues into exactly one vertex beyond `v` and
/// itself. A compaction walk begun at `v` therefore gathers at least
/// three vertices and collapses the chain.
pub open spec fn chain_start(g: AdjacencyGraph, v: u64, w: u64) -> bool {
    &&& g.nbrs(v).contains(w)
    &&& w != v
    &&& forall|x: u64| #[trigger] g.nbrs(v).contains(x) ==> x == w || x == v
    &&& exists|u: u64| #[trigger] g.nbrs(w).contains(u) && u != v && u != w
    &&& forall|u1: u64, u2: u64|
        #![trigger g.nbrs(w).contains(u1), g.nbrs(w).contains(u2)]
        g.nbrs(w).contains(u1) && g.nbrs(w).contains(u2) && u1 != v && u1 != w && u2 != v && u2
            != w ==> u1 == u2
}

/// The walk cannot go on from the last vertex of `p`: either every
/// neighbor of it already lies on `p`, or at least two distinct ones
/// lie off it.
pub open spec fn chain_stalls(g: AdjacencyGraph, p: Seq<u64>) -> bool {
    ||| forall|x: u64| #[trigger] g.nbrs(p.last()).contains(x) ==> p.contains(x)
    ||| exists|x1: u64, x2: u64|
        x1 != x2 && #[trigger] g.nbrs(p.last()).contains(x1) && #[trigger] g.nbrs(
            p.last(),
        ).contains(x2) && !p.contains(x1) && !p.contains(x2)
}

/// `p` is a chain the compaction walk collapses in `g`: at least
/// three distinct vertices joined by consecutive edges; the first has
/// no neighbor beyond itself and the second; each interior vertex
/// continues into exactly the next one, every other neighbor lying
/// behind it on the walk; and the walk can go no further at the end.
pub open spec fn valid_chain(g: AdjacencyGraph, p: Seq<u64>) -> bool {
    &&& p.len() >= 3
    &&& p.no_duplicates()
    &&& forall|k: int| 0 <= k < p.len() - 1 ==> g.spec_has_edge(#[trigger] p[k], p[k + 1])
    &&& forall|x: u64| #[trigger] g.nbrs(p[0]).contains(x) ==> x == p[0] || x == p[1]
    &&& forall|k: int, x: u64|
        1 <= k < p.len() - 1 && #[trigger] g.nbrs(p[k]).contains(x) ==> p.subrange(
            0,
            k + 1,
        ).contains(x) || x == p[k + 1]
    &&& chain_stalls(g, p)
}

/// `a` and `b` are a consecutive pair among the first `k` steps of
/// the chain `p`, in either order.
pub open spec fn chain_consec_below(p: Seq<u64>, k: int, a: u64, b: u64) -> bool {
    exists|j: int|
        0 <= j < k && (((#[trigger] p[j]) == a && p[j + 1] == b) || (p[j] == b && p[j + 1] == a))
}

/// `a` and `b` are a consecutive pair of the chain `p`, in either
/// order.
pub open spec fn chain_consec(p: Seq<u64>, a: u64, b: u64) -> bool {
    chain_consec_below(p, p.len() - 1, a, b)
}

/// `post` is `pre` with the chain `p` collapsed: the consecutive
/// edges of `p` are gone, the single edge joining its two ends is
/// present, everything else — edges and node list alike — is
/// unchanged.
pub open spec fn chain_rewritten(pre: AdjacencyGraph, post: AdjacencyGraph, p: Seq<u64>) -> bool {
    &&& post.node_seq() == pre.node_seq()
    &&& forall|a: u64, b: u64|
        #[trigger] post.spec_has_edge(a, b) <==> ((pre.spec_has_edge(a, b) && !chain_consec(
            p,
            a,
            b,
        )) || (a == p.first() && b == p.last()) || (a == p.last() && b == p.first()))
}

/// How many interior vertices the listed chains hold in all.
pub open spec fn interior_total(cs: Seq<Seq<u64>>) -> int
    decreases cs.len(),
{
    if cs.len() == 0 {
        0
    } else {
        interior_total(cs.drop_last()) + cs.last().len() - 2
    }
}

/// The chains `cs`, applied in order to `g0`, pass through exactly
/// the intermediate graphs `gs`: each chain is one the walk collapses
/// in the graph it finds, and each step rewrites precisely that
/// chain.
pub open spec fn compaction_trace(
    g0: AdjacencyGraph,
    gs: Seq<AdjacencyGraph>,
    cs: Seq<Seq<u64>>,
) -> bool {
    &&& gs.len() == cs.len() + 1
    &&& gs[0] == g0
    &&& forall|k: int|
        0 <= k < cs.len() ==> valid_chain(#[trigger] gs[k], cs[k]) && chain_rewritten(
            gs[k],
            gs[k + 1],
            cs[k],
        )
}

impl UndirectedGraph {
    /// The underlying directed representation.
    pub closed spec fn spec_graph(&self) -> AdjacencyGraph {
        self.g
    }

    pub open spec fn wf(&self) -> bool {
        &&& self.spec_graph().wf()
        &&& is_symmetric(self.spec_graph())
    }

    pub open spec fn spec_has_edge(&self, a: u64, b: u64) -> bool {
        self.spec_graph().spec_has_edge(a, b)
    }

    pub fn new() -> (r: UndirectedGraph)
        ensures
            r.wf(),
            forall|a: u64, b: u64| !r.spec_has_edge(a, b),
            r.spec_graph().node_set() == Set::<u64>::empty(),
    {
        let g = AdjacencyGraph::new();
        proof {
            assert(g.node_set() =~= Set::<u64>::empty());
        }
        UndirectedGraph { g }
    }

    /// The node set, as an owned list in insertion order.
    pub fn nodes(&self) -> (r: Vec<u64>)
        ensures
            r@ == self.spec_graph().node_seq(),
    {
        self.g.nodes()
    }

    /// How many vertices the node set holds.
    pub fn node_count(&self) -> (r: usize)
        ensures
            r == self.spec_graph().node_seq().len(),
    {
        self.g.node_count()
    }

    /// The neighbors of `node`; empty when unknown.
    pub fn neighbors(&self, node: u64) -> (r: Vec<u64>)
        requires
            self.wf(),
        ensures
            r@ == self.spec_graph().nbrs(node),
    {
        self.g.neighbors(node)
    }

    /// Whether `a` and `b` are adjacent.
    pub fn has_edge(&self, a: u64, b: u64) -> (r: bool)
        requires
            self.wf(),
        ensures
            r == self.spec_has_edge(a, b),
    {
        self.g.has_edge(a, b)
    }

    /// Inserts `node` into the node set; a no-op when already present.
    pub fn add_node(&mut self, node: u64)
        requires
            old(self).wf(),
        ensures
            final(self).wf(),
            final(self).spec_graph().node_set() == old(self).spec_graph().node_set().insert(node),
            forall|a: u64, b: u64| final(self).spec_has_edge(a, b) == old(self).spec_has_edge(a, b),
    {
        let ghost g0 = self.g;
        self.g.add_node(node);
        proof {
            lemma_push_unique(g0.node_seq(), node);
            assert(self.g.node_set() =~= g0.node_set().insert(node));
            assert forall|a: u64, b: u64| #[trigger] self.g.spec_has_edge(a, b) implies self
                .g.spec_has_edge(b, a) by {
                assert(self.g.nbrs(a) == g0.nbrs(a));
                assert(g0.spec_has_edge(a, b));
                assert(g0.spec_has_edge(b, a));
                assert(self.g.nbrs(b) == g0.nbrs(b));
            }
        }
    }

    /// Inserts the edge in both directions, inserting both endpoints
    /// into the node set first.
    pub fn add_edge(&mut self, from: u64, to: u64)
        requires
            old(self).wf(),
        ensures
            final(self).wf(),
            forall|a: u64, b: u64|
                #[trigger] final(self).spec_has_edge(a, b) <==> (old(self).spec_has_edge(a, b) || (
                a == from && b == to) || (a == to && b == from)),
            final(self).spec_graph().node_seq() == push_unique(
                push_unique(old(self).spec_graph().node_seq(), from),
                to,
            ),
            final(self).spec_graph().node_set() == old(self).spec_graph().node_set().insert(
                from,
            ).insert(to),
    {
        let ghost g0 = self.g;
        self.g.add_edge(from, to);
        let ghost g1 = self.g;
        self.g.add_edge(to, from);
        proof {
            lemma_push_unique(g0.nbrs(from), to);
            lemma_push_unique(g1.nbrs(to), from);
            lemma_push_unique(g0.node_seq(), from);
            lemma_push_unique(push_unique(g0.node_seq(), from), to);
            lemma_push_unique(g1.node_seq(), to);
            lemma_push_unique(push_unique(g1.node_seq(), to), from);
            assert(self.g.node_seq() == g1.node_seq()) by {
                assert(g1.node_seq().contains(to));
                assert(push_unique(g1.node_seq(), to) == g1.node_seq());
                assert(g1.node_seq().contains(from));
            }
            assert(self.g.node_set() =~= g0.node_set().insert(from).insert(to));
            assert forall|a: u64, b: u64| #[trigger] self.g.spec_has_edge(a, b) <==> (
            g0.spec_has_edge(a, b) || (a == from && b == to) || (a == to && b == from)) by {
                if a == to {
                    assert(self.g.nbrs(a) == push_unique(g1.nbrs(to), from));
                    if a == from {
                        assert(g1.nbrs(a) == push_unique(g0.nbrs(from), to));
                    } else {
                        assert(g1.nbrs(a) == g0.nbrs(a));
                    }
                } else if a == from {
                    assert(self.g.nbrs(a) == g1.nbrs(a));
                    assert(g1.nbrs(a) == push_unique(g0.nbrs(from), to));
                } else {
                    assert(self.g.nbrs(a) == g1.nbrs(a));
                    assert(g1.nbrs(a) == g0.nbrs(a));
                }
            }
            assert(is_symmetric(self.g)) by {
                assert forall|a: u64, b: u64| #[trigger] self.g.spec_has_edge(a, b) implies self
                    .g.spec_has_edge(b, a) by {
                    if g0.spec_has_edge(a, b) {
                        assert(g0.spec_has_edge(b, a));
                    }
                }
            }
        }
    }

    /// Removes the edge in both directions; a no-op when absent.
    pub fn remove_edge(&mut self, from: u64, to: u64)
        requires
            old(self).wf(),
        ensures
            final(self).wf(),
            forall|a: u64, b: u64|
                #[trigger] final(self).spec_has_edge(a, b) <==> (old(self).spec_has_edge(a, b)
                    && !(a == from && b == to) && !(a == to && b == from)),
            final(self).spec_graph().node_seq() == old(self).spec_graph().node_seq(),
    {
        let ghost g0 = self.g;
        proof {
            g0.lemma_wf_facts();
        }
        self.g.remove_edge(from, to);
        let ghost g1 = self.g;
        self.g.remove_edge(to, from);
        proof {
            lemma_remove_value_distinct(g0.nbrs(from), to);
            lemma_remove_value_distinct(g1.nbrs(to), from);
            assert(g1.nbrs(to).no_duplicates()) by {
                g0.lemma_wf_facts();
                if to == from {
                } else {
                    assert(g1.nbrs(to) == g0.nbrs(to));
                }
            }
            assert forall|a: u64, b: u64| #[trigger] self.g.spec_has_edge(a, b) <==> (
            g0.spec_has_edge(a, b) && !(a == from && b == to) && !(a == to && b == from)) by {
                g0.lemma_wf_facts();
                if a == to {
                    assert(self.g.nbrs(a) == g1.nbrs(to).remove_value(from));
                    if a == from {
                        assert(g1.nbrs(a) == g0.nbrs(from).remove_value(to));
                    } else {
                        assert(g1.nbrs(a) == g0.nbrs(a));
                    }
                } else if a == from {
                    assert(self.g.nbrs(a) == g1.nbrs(a));
                    assert(g1.nbrs(a) == g0.nbrs(from).remove_value(to));
                } else {
                    assert(self.g.nbrs(a) == g1.nbrs(a));
                    assert(g1.nbrs(a) == g0.nbrs(a));
                }
            }
            assert(is_symmetric(self.g)) by {
                assert forall|a: u64, b: u64| #[trigger] self.g.spec_has_edge(a, b) implies self
                    .g.spec_has_edge(b, a) by {
                    assert(g0.spec_has_edge(a, b));
                    assert(g0.spec_has_edge(b, a));
                }
            }
            // well-formedness: the shortened lists stay duplicate-free
            // and within the node set, which remove_edge guarantees
        }
    }

    /// The connected components: since the adjacency is symmetric, the
    /// graph itself serves as its own reversed graph, and the weak
    /// traversal yields a true partition of the node set.
    pub fn connected_components(&self) -> (r: Vec<Vec<u64>>)
        requires
            self.wf(),
        ensures
            is_partition(self.spec_graph(), r@),
            crate::graph::components_closed(self.spec_graph(), r@),
            crate::graph::components_connected(self.spec_graph(), r@),
    {
        proof {
            assert forall|a: u64, b: u64| #[trigger] self.g.spec_has_edge(a, b) <==> self
                .g.spec_has_edge(b, a) by {
                if self.g.spec_has_edge(a, b) {
                    assert(self.g.spec_has_edge(b, a));
                }
                if self.g.spec_has_edge(b, a) {
                    assert(self.g.spec_has_edge(a, b));
                }
            }
        }
        self.g.weak_components(&self.g)
    }

    /// Walks every maximal chain of degree-2 continuations, replaces
    /// each chain of at least three vertices by a single edge between
    /// its two ends, reclaims the interior vertices, and returns how
    /// many vertices were compacted (saturating at the integer limit).
    /// Afterwards a vertex survives exactly when it came in and is not
    /// isolated; and when the first vertex of the node set starts a
    /// chain, at least one interior vertex is certainly compacted.
    #[verifier::rlimit(100)]
    pub fn compact_chains(&mut self) -> (r: usize)
        requires
            old(self).wf(),
        ensures
            final(self).wf(),
            forall|v: u64|
                #[trigger] final(self).spec_graph().node_set().contains(v) <==> (old(
                    self,
                ).spec_graph().node_set().contains(v) && final(self).spec_graph().nbrs(v).len()
                    > 0),
            old(self).spec_graph().node_seq().len() > 0 && (exists|w: u64|
                chain_start(
                    old(self).spec_graph(),
                    old(self).spec_graph().node_seq()[0],
                    w,
                )) ==> r >= 1,
            exists|cs: Seq<Seq<u64>>, gs: Seq<AdjacencyGraph>|
                #[trigger] compaction_trace(old(self).spec_graph(), gs, cs) && (forall|
                    a: u64,
                    b: u64,
                |
                    final(self).spec_has_edge(a, b) <==> gs.last().spec_has_edge(a, b)) && (
                forall|v: u64|
                    final(self).spec_graph().node_set().contains(v) <==> (gs.last().node_set()
                        .contains(v) && gs.last().nbrs(v).len() > 0)) && r as int == (
                if interior_total(cs) >= usize::MAX as int {
                    usize::MAX as int
                } else {
                    interior_total(cs)
                }),
    {
        let ghost orig = old(self).spec_graph().node_seq();
        let ghost gold = old(self).spec_graph();
        let ghost mut chains: Seq<Seq<u64>> = Seq::empty();
        let ghost mut trace: Seq<AdjacencyGraph> = seq![gold];
        let nodes_vec = self.g.nodes();
        let nlen = nodes_vec.len();
        let mut visited: Vec<u64> = Vec::new();
        let mut compacted: usize = 0;
        let mut n: usize = 0;
        while n < nlen
            invariant
                self.wf(),
                self.spec_graph().node_seq() == orig,
                orig == gold.node_seq(),
                nodes_vec@ == orig,
                nlen == orig.len(),
                n <= nlen,
                visited@.no_duplicates(),
                forall|v: u64| #[trigger] visited@.contains(v) ==> orig.contains(v),
                n == 0 ==> self.spec_graph() == gold && visited@.len() == 0,
                orig.len() > 0 && (exists|w: u64| chain_start(gold, orig[0], w)) && n > 0
                    ==> compacted >= 1,
                chains.len() + 1 == trace.len(),
                trace[0] == gold,
                trace.last() == self.spec_graph(),
                forall|k: int|
                    0 <= k < chains.len() ==> valid_chain(#[trigger] trace[k], chains[k])
                        && chain_rewritten(trace[k], trace[k + 1], chains[k]),
                interior_total(chains) >= 0,
                compacted as int == (if interior_total(chains) >= usize::MAX as int {
                    usize::MAX as int
                } else {
                    interior_total(chains)
                }),
            decreases nlen - n,
        {
            let node = nodes_vec[n];
            if !vec_contains_u64(&visited, node) {
                let mut stack: Vec<u64> = Vec::new();
                stack.push(node);
                proof {
                    assert(stack@[0] == node);
                    assert(orig.contains(node)) by {
                        assert(orig[n as int] == node);
                    }
                    crate::lemma_distinct_subset_len(visited@, orig);
                }
                while stack.len() > 0
                    invariant
                        self.wf(),
                        self.spec_graph().node_seq() == orig,
                        orig == gold.node_seq(),
                        n < nlen,
                        nlen == orig.len(),
                        nodes_vec@ == orig,
                        node == orig[n as int],
                        visited@.no_duplicates(),
                        visited@.len() <= orig.len(),
                        forall|v: u64| #[trigger] visited@.contains(v) ==> orig.contains(v),
                        forall|k: int| 0 <= k < stack@.len() ==> orig.contains(#[trigger] stack@[k]),
                        n == 0 && visited@.len() == 0 ==> stack@.len() == 1 && stack@[0] == node
                            && self.spec_graph() == gold,
                        orig.len() > 0 && (exists|w: u64| chain_start(gold, orig[0], w)) && (n > 0
                            || visited@.len() > 0) ==> compacted >= 1,
                        chains.len() + 1 == trace.len(),
                        trace[0] == gold,
                        trace.last() == self.spec_graph(),
                        forall|k: int|
                            0 <= k < chains.len() ==> valid_chain(#[trigger] trace[k], chains[k])
                                && chain_rewritten(trace[k], trace[k + 1], chains[k]),
                        interior_total(chains) >= 0,
                        compacted as int == (if interior_total(chains) >= usize::MAX as int {
                            usize::MAX as int
                        } else {
                            interior_total(chains)
                        }),
                    decreases orig.len() - visited@.len(), stack@.len(),
                {
                    proof {
                        crate::lemma_distinct_subset_len(visited@, orig);
                    }
                    let ghost stack_pre = stack@;
                    let node2 = stack.pop().unwrap();
                    proof {
                        assert(stack_pre[stack_pre.len() - 1] == node2);
                        assert(orig.contains(node2));
                        assert forall|k: int| 0 <= k < stack@.len() implies orig.contains(
                            #[trigger] stack@[k],
                        ) by {
                            assert(stack_pre[k] == stack@[k]);
                        }
                    }
                    if !vec_contains_u64(&visited, node2) {
                        let ghost visited_pre = visited@;
                        visited.push(node2);
                        proof {
                            crate::lemma_vec_push_distinct(visited_pre, node2);
                            assert forall|v: u64| #[trigger] visited@.contains(v)
                                implies orig.contains(v) by {
                                if v != node2 {
                                    assert(visited_pre.contains(v));
                                }
                            }
                        }
                        // walk forward while there is exactly one
                        // continuation that is not already on the path
                        let ghost marked = visited@.len();
                        let ghost gw = self.spec_graph();
                        let mut curr = node2;
                        let mut path: Vec<u64> = Vec::new();
                        path.push(curr);
                        proof {
                            assert(path@[0] == curr);
                        }
                        loop
                            invariant
                                self.wf(),
                                self.spec_graph() == gw,
                                self.spec_graph().node_seq() == orig,
                                visited@.no_duplicates(),
                                visited@.len() >= marked,
                                forall|v: u64| #[trigger] visited@.contains(v) ==> orig.contains(v),
                                path@.no_duplicates(),
                                path@.len() >= 1,
                                forall|k: int|
                                    0 <= k < path@.len() ==> orig.contains(#[trigger] path@[k]),
                                curr == path@.last(),
                                forall|k: int|
                                    0 <= k < path@.len() - 1 ==> gw.spec_has_edge(
                                        #[trigger] path@[k],
                                        path@[k + 1],
                                    ),
                                path@.len() >= 2 ==> (forall|x: u64|
                                    #[trigger] gw.nbrs(path@[0]).contains(x) ==> x == path@[0]
                                        || x == path@[1]),
                                forall|k: int, x: u64|
                                    1 <= k < path@.len() - 1 && #[trigger] gw.nbrs(
                                        path@[k],
                                    ).contains(x) ==> path@.subrange(0, k + 1).contains(x) || x
                                        == path@[k + 1],
                                (exists|w: u64| chain_start(gw, node2, w)) ==> (path@.len() >= 3
                                    || (path@.len() == 1 && path@[0] == node2) || (path@.len() == 2
                                    && path@[0] == node2 && chain_start(gw, node2, path@[1]))),
                            ensures
                                self.wf(),
                                self.spec_graph() == gw,
                                self.spec_graph().node_seq() == orig,
                                visited@.no_duplicates(),
                                visited@.len() >= marked,
                                forall|v: u64| #[trigger] visited@.contains(v) ==> orig.contains(v),
                                path@.no_duplicates(),
                                path@.len() >= 1,
                                forall|k: int|
                                    0 <= k < path@.len() ==> orig.contains(#[trigger] path@[k]),
                                curr == path@.last(),
                                forall|k: int|
                                    0 <= k < path@.len() - 1 ==> gw.spec_has_edge(
                                        #[trigger] path@[k],
                                        path@[k + 1],
                                    ),
                                path@.len() >= 2 ==> (forall|x: u64|
                                    #[trigger] gw.nbrs(path@[0]).contains(x) ==> x == path@[0]
                                        || x == path@[1]),
                                forall|k: int, x: u64|
                                    1 <= k < path@.len() - 1 && #[trigger] gw.nbrs(
                                        path@[k],
                                    ).contains(x) ==> path@.subrange(0, k + 1).contains(x) || x
                                        == path@[k + 1],
                                chain_stalls(gw, path@),
                                (exists|w: u64| chain_start(gw, node2, w)) ==> path@.len() >= 3,
                            decreases orig.len() - path@.len(),
                        {
                            proof {
                                crate::lemma_distinct_subset_len(path@, orig);
                            }
                            let adjacencies = self.g.neighbors(curr);
                            let alen = adjacencies.len();
                            let mut probe: u64 = 0;
                            let mut probe_count: usize = 0;
                            let mut ai: usize = 0;
                            while ai < alen
                                invariant
                                    self.wf(),
                                    adjacencies@ == self.spec_graph().nbrs(curr),
                                    alen == adjacencies@.len(),
                                    ai <= alen,
                                    probe_count <= ai,
                                    probe_count > 0 ==> adjacencies@.contains(probe)
                                        && !path@.contains(probe),
                                    probe_count > 0 ==> exists|j: int|
                                        0 <= j < ai && adjacencies@[j] == probe,
                                    probe_count == 0 ==> forall|j: int|
                                        0 <= j < ai ==> path@.contains(#[trigger] adjacencies@[j]),
                                    probe_count == 1 ==> forall|j: int|
                                        0 <= j < ai ==> path@.contains(#[trigger] adjacencies@[j])
                                            || adjacencies@[j] == probe,
                                    probe_count >= 2 ==> exists|j1: int, j2: int|
                                        0 <= j1 < j2 < ai && !path@.contains(
                                            #[trigger] adjacencies@[j1],
                                        ) && !path@.contains(#[trigger] adjacencies@[j2]),
                                decreases alen - ai,
                            {
                                let w = adjacencies[ai];
                                let ghost old_probe = probe;
                                let ghost old_count = probe_count;
                                if !vec_contains_u64(&path, w) {
                                    probe = w;
                                    probe_count = probe_count + 1;
                                    proof {
                                        assert(adjacencies@[ai as int] == w);
                                        if old_count == 1 {
                                            let j = choose|j: int|
                                                0 <= j < ai && adjacencies@[j] == old_probe;
                                            assert(!path@.contains(adjacencies@[j]));
                                            assert(!path@.contains(adjacencies@[ai as int]));
                                        } else if old_count >= 2 {
                                            let (j1, j2) = choose|j1: int, j2: int|
                                                0 <= j1 < j2 < ai && !path@.contains(
                                                    #[trigger] adjacencies@[j1],
                                                ) && !path@.contains(#[trigger] adjacencies@[j2]);
                                            assert(!path@.contains(adjacencies@[j1]));
                                            assert(!path@.contains(adjacencies@[j2]));
                                        }
                                    }
                                }
                                ai += 1;
                            }
                            if probe_count != 1 {
                                proof {
                                    assert(chain_stalls(gw, path@)) by {
                                        assert(adjacencies@ == gw.nbrs(path@.last()));
                                        if probe_count == 0 {
                                            assert forall|x: u64|
                                                #[trigger] gw.nbrs(path@.last()).contains(x)
                                                implies path@.contains(x) by {
                                                let j = choose|j: int|
                                                    0 <= j < adjacencies@.len()
                                                        && adjacencies@[j] == x;
                                                assert(path@.contains(adjacencies@[j]));
                                            }
                                        } else {
                                            let (j1, j2) = choose|j1: int, j2: int|
                                                0 <= j1 < j2 < adjacencies@.len()
                                                    && !path@.contains(
                                                    #[trigger] adjacencies@[j1],
                                                ) && !path@.contains(#[trigger] adjacencies@[j2]);
                                            self.spec_graph().lemma_wf_facts();
                                            assert(adjacencies@.no_duplicates());
                                            assert(adjacencies@[j1] != adjacencies@[j2]);
                                            assert(gw.nbrs(path@.last()).contains(
                                                adjacencies@[j1],
                                            )) by {
                                                assert(adjacencies@.contains(adjacencies@[j1]));
                                            }
                                            assert(gw.nbrs(path@.last()).contains(
                                                adjacencies@[j2],
                                            )) by {
                                                assert(adjacencies@.contains(adjacencies@[j2]));
                                            }
                                        }
                                    }
                                    if exists|w: u64| chain_start(gw, node2, w) {
                                        let w0 = choose|w: u64| chain_start(gw, node2, w);
                                        self.spec_graph().lemma_wf_facts();
                                        if path@.len() == 1 {
                                            // the sole continuation from the
                                            // chain start is unexplored, so the
                                            // walk cannot have stalled here
                                            assert(curr == node2);
                                            assert(gw.nbrs(node2).contains(w0));
                                            let jw = choose|j: int|
                                                0 <= j < adjacencies@.len() && adjacencies@[j]
                                                    == w0;
                                            if probe_count == 0 {
                                                assert(path@.contains(adjacencies@[jw]));
                                                assert(path@[0] == node2);
                                                assert(w0 == node2);
                                            } else {
                                                let (j1, j2) = choose|j1: int, j2: int|
                                                    0 <= j1 < j2 < adjacencies@.len()
                                                        && !path@.contains(
                                                        #[trigger] adjacencies@[j1],
                                                    ) && !path@.contains(
                                                        #[trigger] adjacencies@[j2],
                                                    );
                                                let v1 = adjacencies@[j1];
                                                let v2 = adjacencies@[j2];
                                                assert(gw.nbrs(node2).contains(v1)) by {
                                                    assert(adjacencies@.contains(v1));
                                                }
                                                assert(gw.nbrs(node2).contains(v2)) by {
                                                    assert(adjacencies@.contains(v2));
                                                }
                                                assert(path@.contains(node2)) by {
                                                    assert(path@[0] == node2);
                                                }
                                                assert(v1 == w0);
                                                assert(v2 == w0);
                                                assert(adjacencies@.no_duplicates());
                                                assert(adjacencies@[j1] != adjacencies@[j2]);
                                            }
                                        } else if path@.len() == 2 {
                                            let wb = path@[1];
                                            assert(chain_start(gw, node2, wb));
                                            assert(curr == wb);
                                            let u0 = choose|u: u64|
                                                #[trigger] gw.nbrs(wb).contains(u) && u != node2
                                                    && u != wb;
                                            let ju = choose|j: int|
                                                0 <= j < adjacencies@.len() && adjacencies@[j]
                                                    == u0;
                                            if probe_count == 0 {
                                                assert(path@.contains(adjacencies@[ju]));
                                                assert(u0 == node2 || u0 == wb);
                                            } else {
                                                let (j1, j2) = choose|j1: int, j2: int|
                                                    0 <= j1 < j2 < adjacencies@.len()
                                                        && !path@.contains(
                                                        #[trigger] adjacencies@[j1],
                                                    ) && !path@.contains(
                                                        #[trigger] adjacencies@[j2],
                                                    );
                                                let v1 = adjacencies@[j1];
                                                let v2 = adjacencies@[j2];
                                                assert(gw.nbrs(wb).contains(v1)) by {
                                                    assert(adjacencies@.contains(v1));
                                                }
                                                assert(gw.nbrs(wb).contains(v2)) by {
                                                    assert(adjacencies@.contains(v2));
                                                }
                                                assert(path@.contains(node2)) by {
                                                    assert(path@[0] == node2);
                                                }
                                                assert(path@.contains(wb)) by {
                                                    assert(path@[1] == wb);
                                                }
                                                assert(v1 != node2 && v1 != wb);
                                                assert(v2 != node2 && v2 != wb);
                                                assert(v1 == v2);
                                                assert(adjacencies@.no_duplicates());
                                                assert(adjacencies@[j1] != adjacencies@[j2]);
                                            }
                                        }
                                    }
                                }
                                break;
                            }
                            curr = probe;
                            proof {
                                self.spec_graph().lemma_wf_facts();
                                assert(adjacencies@.contains(curr));
                                assert(self.spec_graph().node_set().contains(curr));
                                assert(orig.contains(curr));
                            }
                            if !vec_contains_u64(&visited, curr) {
                                let ghost visited_pre2 = visited@;
                                visited.push(curr);
                                proof {
                                    crate::lemma_vec_push_distinct(visited_pre2, curr);
                                    assert forall|v: u64| #[trigger] visited@.contains(v)
                                        implies orig.contains(v) by {
                                        if v != curr {
                                            assert(visited_pre2.contains(v));
                                        }
                                    }
                                }
                            }
                            let ghost path_pre = path@;
                            path.push(curr);
                            proof {
                                crate::lemma_vec_push_distinct(path_pre, curr);
                                assert(path@.last() == curr);
                                // the new step extends the walked chain
                                assert(gw.spec_has_edge(path_pre.last(), curr)) by {
                                    assert(adjacencies@.contains(curr));
                                }
                                assert forall|k: int| 0 <= k < path@.len() - 1 implies gw
                                    .spec_has_edge(#[trigger] path@[k], path@[k + 1]) by {
                                    if k < path_pre.len() - 1 {
                                        assert(path@[k] == path_pre[k]);
                                        assert(path@[k + 1] == path_pre[k + 1]);
                                        assert(gw.spec_has_edge(path_pre[k], path_pre[k + 1]));
                                    } else {
                                        assert(path@[k] == path_pre.last());
                                    }
                                }
                                assert(path@.len() >= 2 ==> (forall|x: u64|
                                    #[trigger] gw.nbrs(path@[0]).contains(x) ==> x == path@[0]
                                        || x == path@[1])) by {
                                    if path_pre.len() == 1 {
                                        assert forall|x: u64|
                                            #[trigger] gw.nbrs(path@[0]).contains(x) implies x
                                            == path@[0] || x == path@[1] by {
                                            let j = choose|j: int|
                                                0 <= j < adjacencies@.len() && adjacencies@[j]
                                                    == x;
                                            assert(path_pre.contains(adjacencies@[j])
                                                || adjacencies@[j] == curr);
                                        }
                                    }
                                }
                                assert forall|k: int, x: u64|
                                    1 <= k < path@.len() - 1 && #[trigger] gw.nbrs(
                                        path@[k],
                                    ).contains(x) implies path@.subrange(0, k + 1).contains(x)
                                    || x == path@[k + 1] by {
                                    if k < path_pre.len() - 1 {
                                        assert(path@[k] == path_pre[k]);
                                        assert(path@[k + 1] == path_pre[k + 1]);
                                        assert(path@.subrange(0, k + 1) =~= path_pre.subrange(
                                            0,
                                            k + 1,
                                        ));
                                        assert(gw.nbrs(path_pre[k]).contains(x));
                                    } else {
                                        assert(k == path_pre.len() - 1);
                                        assert(path@[k] == path_pre.last());
                                        let j = choose|j: int|
                                            0 <= j < adjacencies@.len() && adjacencies@[j] == x;
                                        assert(path_pre.contains(adjacencies@[j])
                                            || adjacencies@[j] == curr);
                                        assert(path@.subrange(0, k + 1) =~= path_pre);
                                        assert(path@[k + 1] == curr);
                                    }
                                }
                                if exists|w: u64| chain_start(gw, node2, w) {
                                    let w0 = choose|w: u64| chain_start(gw, node2, w);
                                    if path_pre.len() == 1 {
                                        assert(path_pre[0] == node2);
                                        assert(path_pre.last() == node2);
                                        assert(gw.nbrs(node2).contains(curr));
                                        assert(curr == w0 || curr == node2);
                                        assert(path_pre.contains(node2));
                                        assert(curr != node2);
                                        assert(path@.len() == 2 && path@[0] == node2 && path@[1]
                                            == w0);
                                        assert(chain_start(gw, node2, path@[1]));
                                    } else if path_pre.len() == 2 {
                                        assert(path@.len() == 3);
                                    }
                                }
                                assert forall|v: u64| #[trigger] path@.contains(v)
                                    implies orig.contains(v) by {
                                    if v != curr {
                                        assert(path_pre.contains(v));
                                    } else {
                                        assert(orig.contains(curr));
                                    }
                                }
                                crate::lemma_distinct_subset_len(path@, orig);
                                assert forall|k: int| 0 <= k < path@.len() implies orig.contains(
                                    #[trigger] path@[k],
                                ) by {
                                    if k < path_pre.len() {
                                        assert(path_pre[k] == path@[k]);
                                    } else {
                                        self.spec_graph().lemma_wf_facts();
                                        assert(self.spec_graph().nbrs(path_pre.last()).contains(
                                            curr,
                                        ));
                                        assert(self.spec_graph().node_set().contains(curr));
                                    }
                                }
                            }
                        }
                        if path.len() >= 3 {
                            // cut the chain edges and bridge the ends
                            let ghost grw0 = self.spec_graph();
                            proof {
                                assert(valid_chain(grw0, path@));
                            }
                            let plen = path.len();
                            let mut k: usize = 0;
                            while k + 1 < plen
                                invariant
                                    self.wf(),
                                    self.spec_graph().node_seq() == orig,
                                    plen == path@.len(),
                                    k < plen,
                                    forall|j: int|
                                        0 <= j < path@.len() ==> orig.contains(#[trigger] path@[j]),
                                    forall|a: u64, b: u64|
                                        #[trigger] self.spec_has_edge(a, b) <==> (
                                        grw0.spec_has_edge(a, b) && !chain_consec_below(
                                            path@,
                                            k as int,
                                            a,
                                            b,
                                        )),
                                decreases plen - k,
                            {
                                let ghost kk = k as int;
                                self.remove_edge(path[k], path[k + 1]);
                                proof {
                                    assert forall|a: u64, b: u64|
                                        #[trigger] self.spec_has_edge(a, b) <==> (
                                        grw0.spec_has_edge(a, b) && !chain_consec_below(
                                            path@,
                                            kk + 1,
                                            a,
                                            b,
                                        )) by {
                                        if self.spec_has_edge(a, b) {
                                            if chain_consec_below(path@, kk + 1, a, b) {
                                                let j = choose|j: int|
                                                    0 <= j < kk + 1 && (((#[trigger] path@[j])
                                                        == a && path@[j + 1] == b) || (path@[j]
                                                        == b && path@[j + 1] == a));
                                                if j < kk {
                                                    assert(chain_consec_below(path@, kk, a, b));
                                                } else {
                                                    assert(j == kk);
                                                }
                                            }
                                        }
                                        if grw0.spec_has_edge(a, b) && !chain_consec_below(
                                            path@,
                                            kk + 1,
                                            a,
                                            b,
                                        ) {
                                            if chain_consec_below(path@, kk, a, b) {
                                                let j = choose|j: int|
                                                    0 <= j < kk && (((#[trigger] path@[j]) == a
                                                        && path@[j + 1] == b) || (path@[j] == b
                                                        && path@[j + 1] == a));
                                                assert(chain_consec_below(path@, kk + 1, a, b));
                                            }
                                            if (a == path@[kk as int] && b == path@[kk + 1]) || (
                                            a == path@[kk + 1] && b == path@[kk as int]) {
                                                assert(chain_consec_below(path@, kk + 1, a, b));
                                            }
                                        }
                                    }
                                }
                                k += 1;
                            }
                            let first = path[0];
                            let last = path[plen - 1];
                            proof {
                                assert(orig.contains(path@[0]));
                                assert(orig.contains(path@[plen - 1]));
                                lemma_push_unique(self.spec_graph().node_seq(), first);
                                lemma_push_unique(
                                    push_unique(self.spec_graph().node_seq(), first),
                                    last,
                                );
                            }
                            let ghost gcut = self.spec_graph();
                            proof {
                                assert forall|a: u64, b: u64|
                                    #[trigger] gcut.spec_has_edge(a, b) <==> (grw0.spec_has_edge(
                                        a,
                                        b,
                                    ) && !chain_consec_below(path@, plen - 1, a, b)) by {
                                    assert(self.spec_has_edge(a, b) <==> gcut.spec_has_edge(
                                        a,
                                        b,
                                    ));
                                }
                            }
                            self.add_edge(first, last);
                            proof {
                                // the mutation collapsed exactly the walked chain
                                assert(chain_rewritten(grw0, self.spec_graph(), path@)) by {
                                    assert forall|a: u64, b: u64|
                                        #[trigger] self.spec_graph().spec_has_edge(a, b) <==> ((
                                        grw0.spec_has_edge(a, b) && !chain_consec(path@, a, b))
                                            || (a == path@.first() && b == path@.last()) || (a
                                            == path@.last() && b == path@.first())) by {
                                        assert(self.spec_has_edge(a, b)
                                            <==> self.spec_graph().spec_has_edge(a, b));
                                        assert(self.spec_has_edge(a, b) <==> (gcut.spec_has_edge(
                                            a,
                                            b,
                                        ) || (a == first && b == last) || (a == last && b
                                            == first)));
                                        assert(gcut.spec_has_edge(a, b) <==> (grw0.spec_has_edge(
                                            a,
                                            b,
                                        ) && !chain_consec_below(path@, plen - 1, a, b)));
                                        assert(path@.first() == path@[0]);
                                        assert(path@.last() == path@[plen - 1]);
                                    }
                                    assert(self.spec_graph().node_seq() == grw0.node_seq());
                                }
                                let ghost chains_pre = chains;
                                let ghost trace_pre = trace;
                                chains = chains.push(path@);
                                trace = trace.push(self.spec_graph());
                                assert(trace[0] == gold) by {
                                    assert(trace[0] == trace_pre[0]);
                                }
                                assert forall|k2: int| 0 <= k2 < chains.len() implies valid_chain(
                                    #[trigger] trace[k2],
                                    chains[k2],
                                ) && chain_rewritten(trace[k2], trace[k2 + 1], chains[k2]) by {
                                    if k2 < chains_pre.len() {
                                        assert(trace[k2] == trace_pre[k2]);
                                        assert(trace[k2 + 1] == trace_pre[k2 + 1]);
                                        assert(chains[k2] == chains_pre[k2]);
                                    } else {
                                        assert(trace[k2] == trace_pre.last());
                                        assert(trace_pre.last() == grw0);
                                        assert(chains[k2] == path@);
                                        assert(trace[k2 + 1] == trace.last());
                                    }
                                }
                                assert(interior_total(chains) == interior_total(chains_pre)
                                    + path@.len() - 2) by {
                                    assert(chains.drop_last() =~= chains_pre);
                                    assert(chains.last() == path@);
                                }
                            }
                            compacted = compacted.saturating_add(plen - 2);
                        }
                        proof {
                            crate::lemma_distinct_subset_len(visited@, orig);
                            if orig.len() > 0 && (exists|w: u64| chain_start(gold, orig[0], w))
                                && gw == gold && node2 == orig[0] {
                                let w0 = choose|w: u64| chain_start(gold, orig[0], w);
                                assert(chain_start(gw, node2, w0));
                                assert(path@.len() >= 3);
                                assert(compacted >= 1);
                            }
                        }
                        // continue exploring from where the walk ended
                        let onward = self.g.neighbors(curr);
                        crate::extend_vec_u64(&mut stack, &onward);
                        proof {
                            assert forall|k2: int| 0 <= k2 < stack@.len() implies orig.contains(
                                #[trigger] stack@[k2],
                            ) by {
                                if k2 >= stack@.len() - onward@.len() {
                                    self.spec_graph().lemma_wf_facts();
                                    assert(onward@[k2 - (stack@.len() - onward@.len())]
                                        == stack@[k2]);
                                    assert(self.spec_graph().nbrs(curr).contains(stack@[k2]));
                                    assert(self.spec_graph().node_set().contains(stack@[k2]));
                                }
                            }
                        }
                    }
                }
            }
            n += 1;
        }
        let ghost before_gc = self.spec_graph();
        proof {
            assert(is_symmetric(before_gc));
        }
        self.g.gc();
        proof {
            assert(before_gc.node_set() =~= gold.node_set()) by {
                assert(before_gc.node_seq() == gold.node_seq());
            }
            assert forall|v: u64|
                #[trigger] self.spec_graph().node_set().contains(v) <==> (gold.node_set().contains(
                v,
            ) && self.spec_graph().nbrs(v).len() > 0) by {
                assert(self.spec_graph().nbrs(v) == before_gc.nbrs(v));
            }
            // the recorded chains and intermediate graphs witness the
            // whole run: collection changed nothing but the node list
            assert(compaction_trace(gold, trace, chains));
            assert(before_gc == trace.last());
            assert forall|a: u64, b: u64| self.spec_has_edge(a, b) <==> trace.last().spec_has_edge(
                a,
                b,
            ) by {
                assert(self.spec_graph().nbrs(a) == before_gc.nbrs(a));
            }
            assert forall|v: u64|
                self.spec_graph().node_set().contains(v) <==> (trace.last().node_set().contains(v)
                    && trace.last().nbrs(v).len() > 0) by {
                assert(self.spec_graph().nbrs(v) == before_gc.nbrs(v));
            }
            assert(compacted as int == (if interior_total(chains) >= usize::MAX as int {
                usize::MAX as int
            } else {
                interior_total(chains)
            }));
        }
        compacted
    }
}

impl AdjacencyGraph {
    /// The symmetric closure of this graph over its edges: each edge
    /// contributes both directions; vertices without any edge are not
    /// carried over.
    pub fn undirected(&self) -> (r: UndirectedGraph)
        requires
            self.wf(),
        ensures
            r.wf(),
            forall|a: u64, b: u64|
                #[trigger] r.spec_has_edge(a, b) <==> (self.spec_has_edge(a, b)
                    || self.spec_has_edge(b, a)),
    {
        let edges = self.edges();
        let mut r = UndirectedGraph::new();
        let len = edges.len();
        let mut i: usize = 0;
        while i < len
            invariant
                self.wf(),
                r.wf(),
                i <= len,
                len == edges@.len(),
                forall|f: u64, t: u64| #[trigger] edges@.contains((f, t)) <==> self.spec_has_edge(f, t),
                forall|a: u64, b: u64|
                    #[trigger] r.spec_has_edge(a, b) <==> (edges@.subrange(0, i as int).contains(
                        (a, b),
                    ) || edges@.subrange(0, i as int).contains((b, a))),
            decreases len - i,
        {
            let e = edges[i];
            let ghost pre = r;
            r.add_edge(e.0, e.1);
            proof {
                let sub1 = edges@.subrange(0, i + 1 as int);
                assert(sub1 =~= edges@.subrange(0, i as int).push(e));
                assert forall|a: u64, b: u64| #[trigger] r.spec_has_edge(a, b) implies (
                sub1.contains((a, b)) || sub1.contains((b, a))) by {
                    if pre.spec_has_edge(a, b) {
                        if edges@.subrange(0, i as int).contains((a, b)) {
                            let ri = choose|ri: int|
                                0 <= ri < i && edges@.subrange(0, i as int)[ri] == (a, b);
                            assert(sub1[ri] == (a, b));
                        } else {
                            let ri = choose|ri: int|
                                0 <= ri < i && edges@.subrange(0, i as int)[ri] == (b, a);
                            assert(sub1[ri] == (b, a));
                        }
                    } else {
                        assert(sub1[i as int] == e);
                        assert((a == e.0 && b == e.1) || (a == e.1 && b == e.0));
                    }
                }
                assert forall|a: u64, b: u64|
                    (sub1.contains((a, b)) || sub1.contains((b, a))) implies #[trigger] r
                    .spec_has_edge(a, b) by {
                    if sub1.contains((a, b)) {
                        let ri = choose|ri: int| 0 <= ri < sub1.len() && sub1[ri] == (a, b);
                        if ri < i {
                            assert(edges@.subrange(0, i as int)[ri] == (a, b));
                            assert(pre.spec_has_edge(a, b));
                        }
                    } else {
                        let ri = choose|ri: int| 0 <= ri < sub1.len() && sub1[ri] == (b, a);
                        if ri < i {
                            assert(edges@.subrange(0, i as int)[ri] == (b, a));
                            assert(pre.spec_has_edge(b, a));
                        }
                    }
                }
            }
            i += 1;
        }
        proof {
            assert(edges@.subrange(0, len as int) =~= edges@);
        }
        r
    }
}

} // verus!
