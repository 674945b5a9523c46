//! The acyclic wrapper: a graph together with the invariant that some
//! vertex numbering strictly increases along every edge, which rules
//! out cycles. Such graphs are produced by stripping the back edges
//! found by edge classification, and support exhaustive path
//! enumeration from a chosen start vertex.

use vstd::prelude::*;

use crate::edge_types::{EdgeType, EdgeTypes};
use crate::graph::{acyclic, edge_monotone, AdjacencyGraph};

verus! {

/// A directed graph that carries a proof of acyclicity from its
/// construction.
#[derive(Debug)]
pub struct DirectedAcyclicGraph {
    g: AdjacencyGraph,
}

impl DirectedAcyclicGraph {
    /// The underlying directed graph.
    pub closed spec fn spec_graph(&self) -> AdjacencyGraph {
        self.g
    }

    pub open spec fn wf(&self) -> bool {
        &&& self.spec_graph().wf()
        &&& acyclic(self.spec_graph())
    }

    /// Wraps a graph whose acyclicity the caller has established.
    pub fn from_graph(g: AdjacencyGraph) -> (r: DirectedAcyclicGraph)
        requires
            g.wf(),
            acyclic(g),
        ensures
            r.wf(),
            r.spec_graph() == g,
    {
        DirectedAcyclicGraph { g }
    }

    /// Read access to the underlying graph.
    pub fn graph(&self) -> (r: &AdjacencyGraph)
        ensures
            *r == self.spec_graph(),
    {
        &self.g
    }

    /// The node set, as an owned list in insertion order.
    pub fn nodes(&self) -> (r: Vec<u64>)
        ensures
            r@ == self.spec_graph().node_seq(),
    {
        self.g.nodes()
    }

    /// The successors of `node`; empty when unknown.
    pub fn neighbors(&self, node: u64) -> (r: Vec<u64>)
        requires
            self.wf(),
        ensures
            r@ == self.spec_graph().nbrs(node),
    {
        self.g.neighbors(node)
    }

    /// Whether the edge `from -> to` is present.
    pub fn has_edge(&self, from: u64, to: u64) -> (r: bool)
        requires
            self.wf(),
        ensures
            r == self.spec_graph().spec_has_edge(from, to),
    {
        self.g.has_edge(from, to)
    }

    /// The induced subgraph over `subset`: exactly the edges whose two
    /// endpoints both lie in `subset` survive, so the result is again
    /// acyclic.
    pub fn restricted(&self, subset: &Vec<u64>) -> (r: DirectedAcyclicGraph)
        requires
            self.wf(),
        ensures
            r.wf(),
            forall|f: u64, t: u64|
                #[trigger] r.spec_graph().spec_has_edge(f, t) <==> (
                self.spec_graph().spec_has_edge(f, t) && subset@.contains(f) && subset@.contains(
                    t,
                )),
    {
        let sub = self.g.restricted(subset);
        proof {
            let m = choose|m: Map<u64, int>| #[trigger] edge_monotone(self.spec_graph(), m);
            assert(edge_monotone(sub, m)) by {
                assert forall|f: u64, t: u64| #[trigger] sub.spec_has_edge(f, t) implies m
                    .contains_key(f) && m.contains_key(t) && m[f] < m[t] by {
                    assert(self.spec_graph().spec_has_edge(f, t));
                }
            }
        }
        DirectedAcyclicGraph { g: sub }
    }
}

impl DirectedAcyclicGraph {
    /// Enumerates source-to-sink walks by depth-first search from
    /// `start`, reporting, for each sink reached, the walk that led
    /// there, reconstructed from a recorded predecessor map, until
    /// `max_paths` walks have been collected. Every reported walk
    /// begins at `start`, follows edges of the graph, and ends at a
    /// vertex without successors; when `start` itself is a sink and at
    /// least one walk is asked for, the one-vertex walk is reported.
    pub fn all_paths(&self, start: u64, max_paths: usize) -> (r: Vec<Vec<u64>>)
        requires
            self.wf(),
        ensures
            r@.len() <= max_paths,
            forall|i: int|
                0 <= i < r@.len() ==> (#[trigger] r@[i])@.len() > 0 && r@[i]@[0] == start
                    && crate::graph::is_path(self.spec_graph(), r@[i]@) && self.spec_graph().nbrs(
                    r@[i]@.last(),
                ).len() == 0,
            max_paths > 0 && self.spec_graph().nbrs(start).len() == 0 ==> r@.len() >= 1,
    {
        let ghost g = self.g;
        let mut result: Vec<Vec<u64>> = Vec::new();
        let mut prev: crate::node_map::NodeMap<u64> = crate::node_map::NodeMap::new();
        let mut stack: Vec<(u64, Option<u64>)> = Vec::new();
        stack.push((start, None));
        let nlen = self.g.node_count();
        let mut steps: u64 = 0;
        proof {
            assert(stack@[0] == (start, Option::<u64>::None));
        }
        while stack.len() > 0 && result.len() < max_paths && steps < u64::MAX
            invariant
                self.wf(),
                g == self.g,
                prev.wf(),
                result@.len() <= max_paths,
                steps == 0 ==> stack@.len() == 1 && stack@[0].0 == start && stack@[0].1 is None
                    && prev.key_list().len() == 0,
                steps > 0 && max_paths > 0 && g.nbrs(start).len() == 0 ==> result@.len() >= 1,
                forall|k: int|
                    0 <= k < stack@.len() ==> ((#[trigger] stack@[k]).1 matches Some(p)
                        ==> g.spec_has_edge(p, stack@[k].0)),
                forall|c: u64|
                    #[trigger] prev.spec_contains(c) ==> g.spec_has_edge(prev.val_of(c), c),
                forall|i: int|
                    0 <= i < result@.len() ==> (#[trigger] result@[i])@.len() > 0 && result@[i]@[0]
                        == start && crate::graph::is_path(g, result@[i]@) && g.nbrs(
                        result@[i]@.last(),
                    ).len() == 0,
            decreases u64::MAX - steps,
        {
            let ghost steps0 = steps;
            steps = steps + 1;
            let ghost stack_pre = stack@;
            let frame = stack.pop().unwrap();
            let node = frame.0;
            proof {
                assert(stack_pre[stack_pre.len() - 1] == frame);
                if steps0 == 0 {
                    assert(frame == stack_pre[0]);
                    assert(node == start);
                }
            }
            match frame.1 {
                Some(p) => {
                    proof {
                        assert(g.spec_has_edge(p, node));
                    }
                    let ghost prev_pre = prev;
                    prev.set(node, p);
                    proof {
                        assert forall|c: u64| #[trigger] prev.spec_contains(c) implies g
                            .spec_has_edge(prev.val_of(c), c) by {
                            if c != node {
                                assert(prev_pre.spec_contains(c));
                                assert(prev.val_of(c) == prev_pre.val_of(c));
                            }
                        }
                    }
                },
                None => {},
            }
            let nb = self.g.neighbors(node);
            if nb.len() == 0 {
                // a sink: rebuild the walk backwards along the
                // predecessor links
                let mut path: Vec<u64> = Vec::new();
                let mut current = node;
                let mut back_steps: usize = 0;
                while prev.contains(current) && back_steps < nlen
                    invariant
                        self.wf(),
                        g == self.g,
                        prev.wf(),
                        back_steps <= nlen,
                        forall|c: u64|
                            #[trigger] prev.spec_contains(c) ==> g.spec_has_edge(
                                prev.val_of(c),
                                c,
                            ),
                        prev.key_list().len() == 0 ==> path@.len() == 0,
                        path@.len() == 0 ==> current == node,
                        path@.len() > 0 ==> path@[0] == node,
                        forall|j: int|
                            0 <= j < path@.len() - 1 ==> g.spec_has_edge(
                                #[trigger] path@[j + 1],
                                path@[j],
                            ),
                        path@.len() > 0 ==> g.spec_has_edge(current, path@.last()),
                    decreases nlen - back_steps,
                {
                    let ghost path_pre = path@;
                    path.push(current);
                    let nxt = prev.get(current);
                    proof {
                        assert(g.spec_has_edge(prev.val_of(current), current));
                        assert(path@.last() == current);
                        assert forall|j: int| 0 <= j < path@.len() - 1 implies g.spec_has_edge(
                            #[trigger] path@[j + 1],
                            path@[j],
                        ) by {
                            if j < path@.len() - 2 {
                                assert(path@[j + 1] == path_pre[j + 1]);
                                assert(path@[j] == path_pre[j]);
                                assert(g.spec_has_edge(path_pre[j + 1], path_pre[j]));
                            } else {
                                assert(path@[j] == path_pre.last());
                            }
                        }
                    }
                    current = nxt;
                    back_steps = back_steps + 1;
                }
                if current == start {
                    // the predecessor chain reaches back to the start:
                    // close the walk with it and report the whole walk
                    // in forward order
                    let ghost path_mid = path@;
                    path.push(current);
                    proof {
                        assert(path@.last() == start);
                        assert(path@[0] == node);
                        assert forall|j: int| 0 <= j < path@.len() - 1 implies g.spec_has_edge(
                            #[trigger] path@[j + 1],
                            path@[j],
                        ) by {
                            if j < path@.len() - 2 {
                                assert(path@[j + 1] == path_mid[j + 1]);
                                assert(path@[j] == path_mid[j]);
                                assert(g.spec_has_edge(path_mid[j + 1], path_mid[j]));
                            } else {
                                assert(path@[j] == path_mid.last());
                            }
                        }
                    }
                    let mut rev: Vec<u64> = Vec::new();
                    let mut k = path.len();
                    while k > 0
                        invariant
                            self.wf(),
                            g == self.g,
                            k <= path@.len(),
                            rev@.len() + k == path@.len(),
                            path@.len() > 0 ==> path@[0] == node,
                            path@.len() > 0 ==> path@.last() == start,
                            forall|j: int|
                                0 <= j < path@.len() - 1 ==> g.spec_has_edge(
                                    #[trigger] path@[j + 1],
                                    path@[j],
                                ),
                            forall|j: int|
                                0 <= j < rev@.len() ==> #[trigger] rev@[j] == path@[path@.len()
                                    - 1 - j],
                        decreases k,
                    {
                        k = k - 1;
                        rev.push(path[k]);
                    }
                    proof {
                        assert(rev@.len() == path@.len());
                        assert(rev@.len() > 0);
                        assert(rev@[0] == path@.last());
                        assert(rev@[0] == start);
                        assert(crate::graph::is_path(g, rev@)) by {
                            assert forall|j: int| 0 <= j < rev@.len() - 1 implies g.spec_has_edge(
                                #[trigger] rev@[j],
                                rev@[j + 1],
                            ) by {
                                let n = path@.len();
                                assert(rev@[j] == path@[n - 1 - j]);
                                assert(rev@[j + 1] == path@[n - 2 - j]);
                                assert(g.spec_has_edge(path@[(n - 2 - j) + 1], path@[n - 2 - j]));
                            }
                        }
                        assert(rev@.last() == path@[0]);
                        assert(g.nbrs(node).len() == 0) by {
                            assert(nb@ == g.nbrs(node));
                        }
                    }
                    let ghost result_pre = result@;
                    result.push(rev);
                    proof {
                        assert forall|i: int| 0 <= i < result@.len() implies (
                        #[trigger] result@[i])@.len() > 0 && result@[i]@[0] == start
                            && crate::graph::is_path(g, result@[i]@) && g.nbrs(
                            result@[i]@.last(),
                        ).len() == 0 by {
                            if i < result@.len() - 1 {
                                assert(result@[i] == result_pre[i]);
                            }
                        }
                    }
                    if result.len() >= max_paths {
                        return result;
                    }
                }
            }
            let mut ni: usize = 0;
            let nblen = nb.len();
            while ni < nblen
                invariant
                    self.wf(),
                    g == self.g,
                    ni <= nblen,
                    nblen == nb@.len(),
                    nb@ == g.nbrs(node),
                    forall|k2: int|
                        0 <= k2 < stack@.len() ==> ((#[trigger] stack@[k2]).1 matches Some(p)
                            ==> g.spec_has_edge(p, stack@[k2].0)),
                decreases nblen - ni,
            {
                proof {
                    assert(g.nbrs(node)[ni as int] == nb@[ni as int]);
                    assert(g.spec_has_edge(node, nb@[ni as int])) by {
                        assert(g.nbrs(node).contains(nb@[ni as int]));
                    }
                }
                let ghost stack_mid = stack@;
                stack.push((nb[ni], Some(node)));
                proof {
                    assert forall|k2: int|
                        0 <= k2 < stack@.len() implies ((#[trigger] stack@[k2]).1 matches Some(p)
                        ==> g.spec_has_edge(p, stack@[k2].0)) by {
                        if k2 < stack@.len() - 1 {
                            assert(stack@[k2] == stack_mid[k2]);
                        } else {
                            assert(stack@[k2] == (nb@[ni as int], Some(node)));
                        }
                    }
                }
                ni += 1;
            }
            proof {
                if steps0 == 0 && max_paths > 0 && g.nbrs(start).len() == 0 {
                    assert(result@.len() >= 1);
                }
            }
        }
        proof {
            if max_paths > 0 && g.nbrs(start).len() == 0 {
                if result@.len() < max_paths && steps < u64::MAX {
                    assert(stack@.len() == 0);
                    assert(steps > 0);
                }
            }
        }
        result
    }
}

impl AdjacencyGraph {
    /// The acyclic graph obtained by classifying every edge and
    /// keeping exactly those not classified as back edges: the kept
    /// set is exactly the non-back portion of some depth-first
    /// classification of the graph. Every edge that closes no cycle
    /// is certainly kept, and on an acyclic graph the whole edge set
    /// survives.
    pub fn dag(&self) -> (r: DirectedAcyclicGraph)
        requires
            self.wf(),
        ensures
            r.wf(),
            forall|f: u64, t: u64|
                #[trigger] r.spec_graph().spec_has_edge(f, t) ==> self.spec_has_edge(f, t),
            forall|f: u64, t: u64|
                self.spec_has_edge(f, t) && !crate::graph::reaches(*self, t, f)
                    ==> #[trigger] r.spec_graph().spec_has_edge(f, t),
            acyclic(*self) ==> forall|f: u64, t: u64|
                #[trigger] r.spec_graph().spec_has_edge(f, t) <==> self.spec_has_edge(f, t),
            exists|ts: EdgeTypes|
                #[trigger] crate::edge_types::classifies(*self, ts) && (forall|f: u64, t: u64|
                    #[trigger] r.spec_graph().spec_has_edge(f, t)
                        <==> crate::edge_types::classified_non_back(ts, f, t)),
    {
        let types = self.compute_edge_types();
        let ghost m0 = choose|m: Map<u64, int>|
            #[trigger] crate::edge_types::respects_finish_order(types, m);
        let mut g2 = AdjacencyGraph::new();
        let tlen = types.len();
        let mut i: usize = 0;
        while i < tlen
            invariant
                self.wf(),
                types.wf(),
                g2.wf(),
                i <= tlen,
                tlen == types.spec_len(),
                crate::edge_types::respects_finish_order(types, m0),
                forall|f: u64, t: u64|
                    (#[trigger] types.spec_get(f, t)) is Some ==> self.spec_has_edge(f, t),
                forall|f: u64, t: u64|
                    #[trigger] g2.spec_has_edge(f, t) ==> crate::edge_types::classified_non_back(
                        types,
                        f,
                        t,
                    ),
                forall|j: int|
                    0 <= j < i && (#[trigger] types.entry_seq()[j]).1 != EdgeType::BackEdge
                        ==> g2.spec_has_edge(types.entry_seq()[j].0.0, types.entry_seq()[j].0.1),
            decreases tlen - i,
        {
            let e = types.entry_at(i);
            let ghost g2_pre = g2;
            match e.1 {
                EdgeType::BackEdge => {},
                _ => {
                    let ghost pre = g2;
                    g2.add_edge(e.0.0, e.0.1);
                    proof {
                        types.lemma_entries_get();
                        assert(types.spec_get(e.0.0, e.0.1) == Some(e.1));
                        crate::lemma_push_unique(pre.nbrs(e.0.0), e.0.1);
                        assert forall|f: u64, t: u64| #[trigger] g2.spec_has_edge(f, t)
                            implies crate::edge_types::classified_non_back(types, f, t) by {
                            if f == e.0.0 && t == e.0.1 {
                                assert(types.spec_get(f, t) == Some(e.1));
                                assert(e.1 != EdgeType::BackEdge);
                            } else if f == e.0.0 {
                                assert(pre.nbrs(f).contains(t));
                                assert(pre.spec_has_edge(f, t));
                            } else {
                                assert(g2.nbrs(f) == pre.nbrs(f));
                                assert(pre.spec_has_edge(f, t));
                            }
                        }
                    }
                },
            }
            proof {
                assert forall|j: int|
                    0 <= j < i + 1 && (#[trigger] types.entry_seq()[j]).1 != EdgeType::BackEdge
                        implies g2.spec_has_edge(
                    types.entry_seq()[j].0.0,
                    types.entry_seq()[j].0.1,
                ) by {
                    if j < i {
                        assert(g2_pre.spec_has_edge(
                            types.entry_seq()[j].0.0,
                            types.entry_seq()[j].0.1,
                        ));
                        if g2 != g2_pre {
                            crate::lemma_push_unique(g2_pre.nbrs(e.0.0), e.0.1);
                            let f2 = types.entry_seq()[j].0.0;
                            let t2 = types.entry_seq()[j].0.1;
                            if f2 == e.0.0 {
                                assert(g2.nbrs(f2) == crate::push_unique(g2_pre.nbrs(f2), e.0.1));
                            } else {
                                assert(g2.nbrs(f2) == g2_pre.nbrs(f2));
                            }
                        }
                    } else {
                        assert(types.entry_seq()[j] == e);
                    }
                }
            }
            i += 1;
        }
        proof {
            // the finish-time numbering, negated, rises along every edge
            let m = Map::<u64, int>::new(|v: u64| m0.contains_key(v), |v: u64| -m0[v]);
            assert(edge_monotone(g2, m)) by {
                assert forall|f: u64, t: u64| #[trigger] g2.spec_has_edge(f, t) implies m
                    .contains_key(f) && m.contains_key(t) && m[f] < m[t] by {
                    assert(crate::edge_types::classified_non_back(types, f, t));
                    assert(m0.contains_key(f) && m0.contains_key(t) && m0[t] < m0[f]);
                    assert(m.contains_key(f) && m.contains_key(t));
                    assert(m[f] == -m0[f] && m[t] == -m0[t]);
                }
            }
            assert(acyclic(g2));
            assert forall|f: u64, t: u64|
                #[trigger] crate::edge_types::classified_non_back(types, f, t) implies g2
                .spec_has_edge(f, t) by {
                assert((types.spec_get(f, t)) is Some);
                types.lemma_get_entry(f, t);
                let j = choose|j: int|
                    0 <= j < types.entry_seq().len() && #[trigger] types.entry_seq()[j] == (
                    (f, t),
                    types.spec_get(f, t)->Some_0,
                );
                assert((types.entry_seq()[j]).1 != EdgeType::BackEdge);
            }
            assert(crate::edge_types::classifies(*self, types) && (forall|f: u64, t: u64|
                #[trigger] g2.spec_has_edge(f, t) <==> crate::edge_types::classified_non_back(
                    types,
                    f,
                    t,
                )));
            assert forall|f: u64, t: u64|
                self.spec_has_edge(f, t) && !crate::graph::reaches(*self, t, f)
                implies #[trigger] g2.spec_has_edge(f, t) by {
                assert((types.spec_get(f, t)) is Some);
                if types.spec_get(f, t) == Some(EdgeType::BackEdge) {
                    assert(crate::graph::reaches(*self, t, f));
                }
                types.lemma_get_entry(f, t);
                let j = choose|j: int|
                    0 <= j < types.entry_seq().len() && #[trigger] types.entry_seq()[j] == (
                    (f, t),
                    types.spec_get(f, t)->Some_0,
                );
                assert((types.entry_seq()[j]).1 != EdgeType::BackEdge);
            }
            if acyclic(*self) {
                assert forall|f: u64, t: u64| self.spec_has_edge(f, t) implies #[trigger] g2
                    .spec_has_edge(f, t) by {
                    assert((types.spec_get(f, t)) is Some);
                    assert(types.spec_get(f, t) != Some(EdgeType::BackEdge));
                    types.lemma_get_entry(f, t);
                    let j = choose|j: int|
                        0 <= j < types.entry_seq().len() && #[trigger] types.entry_seq()[j] == (
                        (f, t),
                        types.spec_get(f, t)->Some_0,
                    );
                    assert((types.entry_seq()[j]).1 != EdgeType::BackEdge);
                }
            }
        }
        DirectedAcyclicGraph { g: g2 }
    }
}

} // verus!
