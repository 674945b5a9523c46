use gfa_graphs::edge_types::EdgeType;
use gfa_graphs::graph::AdjacencyGraph;

#[test]
fn test_compute_edge_types_cycle() {
    let g = AdjacencyGraph::from_edges(&[(0, 1), (1, 2), (2, 3), (3, 0)]);

    let edge_types = g.compute_edge_types();

    assert_eq!(edge_types.len(), 4);
    assert_eq!(edge_types.get(0, 1), Some(EdgeType::TreeEdge));
    assert_eq!(edge_types.get(1, 2), Some(EdgeType::TreeEdge));
    assert_eq!(edge_types.get(2, 3), Some(EdgeType::TreeEdge));
    assert_eq!(edge_types.get(3, 0), Some(EdgeType::BackEdge));
}

#[test]
fn test_compute_edge_types_forward() {
    let g = AdjacencyGraph::from_edges(&[(0, 1), (1, 2), (0, 2)]);

    let edge_types = g.compute_edge_types();

    assert_eq!(edge_types.len(), 3);
    assert_eq!(edge_types.get(0, 1), Some(EdgeType::TreeEdge));
    assert_eq!(edge_types.get(1, 2), Some(EdgeType::TreeEdge));
    assert_eq!(edge_types.get(0, 2), Some(EdgeType::ForwardEdge));
}

#[test]
fn test_compute_edge_types_cross() {
    let g = AdjacencyGraph::from_edges(&[(0, 1), (1, 2), (0, 3), (3, 4), (2, 4)]);

    let edge_types = g.compute_edge_types();

    assert_eq!(edge_types.len(), 5);
    assert_eq!(edge_types.get(0, 1), Some(EdgeType::TreeEdge));
    assert_eq!(edge_types.get(1, 2), Some(EdgeType::TreeEdge));
    assert_eq!(edge_types.get(0, 3), Some(EdgeType::TreeEdge));
    assert_eq!(edge_types.get(2, 4), Some(EdgeType::TreeEdge));
    assert_eq!(edge_types.get(3, 4), Some(EdgeType::CrossEdge));
}

// A forest over the vertices u, v, w, x, y, z, numbered here in
// alphabetical order: u=1, v=2, w=3, x=4, y=5, z=6.
#[test]
fn test_compute_edge_types_all() {
    let g = AdjacencyGraph::from_edges(&[
        //
        (1, 2),
        (1, 4),
        (2, 5),
        (5, 4),
        (4, 2),
        (3, 5),
        (3, 6),
    ]);

    let edge_types = g.compute_edge_types();

    assert_eq!(edge_types.len(), 7);
    assert_eq!(edge_types.get(1, 2), Some(EdgeType::TreeEdge));
    assert_eq!(edge_types.get(1, 4), Some(EdgeType::ForwardEdge));
    assert_eq!(edge_types.get(2, 5), Some(EdgeType::TreeEdge));
    assert_eq!(edge_types.get(5, 4), Some(EdgeType::TreeEdge));
    assert_eq!(edge_types.get(4, 2), Some(EdgeType::BackEdge));
    assert_eq!(edge_types.get(3, 5), Some(EdgeType::CrossEdge));
    assert_eq!(edge_types.get(3, 6), Some(EdgeType::TreeEdge));
}

#[test]
fn test_compact_chains() {
    let mut g = AdjacencyGraph::from_edges(&[(0, 1), (1, 2), (2, 3), (3, 4)]).undirected();

    println!("Compacting chains...");
    println!("{:?}", g);
    g.compact_chains();
    println!("{:?}", g);
}

// A graph over the vertices g, h, i, u, v, w, x, y, z, numbered here
// in alphabetical order: g=1, h=2, i=3, u=4, v=5, w=6, x=7, y=8, z=9.
// The enumeration is capped at the first path.
#[test]
fn test_all_paths() {
    let g = AdjacencyGraph::from_edges(&[
        //
        (4, 5),
        (4, 7),
        (5, 8),
        (8, 7),
        (8, 6),
        (6, 9),
        (9, 7),
        (7, 2),
        (7, 1),
        (2, 3),
        (1, 3),
    ]);

    let g = g.dag();

    for path in g.all_paths(4, 1) {
        println!("{:?}", path);
    }
}

#[test]
fn test_compact_chains_scenario() {
    // an undirected chain 0-1-2-3-4 collapses to the single edge 0-4,
    // compacting the 3 interior vertices
    let mut g = AdjacencyGraph::from_edges(&[(0, 1), (1, 2), (2, 3), (3, 4)]).undirected();
    let compacted = g.compact_chains();
    assert_eq!(compacted, 3);
    assert!(g.has_edge(0, 4));
    assert!(g.has_edge(4, 0));
    let nodes = g.nodes();
    assert_eq!(nodes, vec![0, 4]);
    assert!(!g.has_edge(0, 1));
    assert!(!g.has_edge(1, 2));
}

#[test]
fn test_compact_chains_idempotent() {
    let mut g = AdjacencyGraph::from_edges(&[(0, 1), (1, 2), (2, 3), (3, 4), (4, 5), (4, 6)])
        .undirected();
    let first = g.compact_chains();
    assert_eq!(first, 3);
    let nodes_once = g.nodes();
    let mut edges_once = Vec::new();
    for a in nodes_once.iter() {
        for b in g.neighbors(*a) {
            edges_once.push((*a, b));
        }
    }
    let second = g.compact_chains();
    assert_eq!(second, 0);
    let nodes_twice = g.nodes();
    assert_eq!(nodes_once, nodes_twice);
    let mut edges_twice = Vec::new();
    for a in nodes_twice.iter() {
        for b in g.neighbors(*a) {
            edges_twice.push((*a, b));
        }
    }
    assert_eq!(edges_once, edges_twice);
}

#[test]
fn test_compute_ccs_partition() {
    // two weak components: {0,1,2} joined by directed edges, {7,8}
    // joined against the traversal direction, and the isolated 9
    let mut g = AdjacencyGraph::from_edges(&[(0, 1), (2, 1), (7, 8)]);
    g.add_node(9);
    let ccs = g.compute_ccs();
    assert_eq!(ccs.len(), 3);
    let mut seen = Vec::new();
    for cc in ccs.iter() {
        for v in cc.iter() {
            assert!(!seen.contains(v));
            seen.push(*v);
        }
    }
    seen.sort();
    assert_eq!(seen, vec![0, 1, 2, 7, 8, 9]);
}

#[test]
fn test_connected_components_undirected() {
    let g = AdjacencyGraph::from_edges(&[(0, 1), (1, 2), (3, 4)]).undirected();
    let ccs = g.connected_components();
    assert_eq!(ccs.len(), 2);
    let mut sizes: Vec<usize> = ccs.iter().map(|c| c.len()).collect();
    sizes.sort();
    assert_eq!(sizes, vec![2, 3]);
}

#[test]
fn test_dag_removes_cycle() {
    let g = AdjacencyGraph::from_edges(&[(0, 1), (1, 2), (2, 3), (3, 0)]);
    let dag = g.dag();
    assert!(dag.has_edge(0, 1));
    assert!(dag.has_edge(1, 2));
    assert!(dag.has_edge(2, 3));
    assert!(!dag.has_edge(3, 0));
}

#[test]
fn test_dag_keeps_acyclic_graph() {
    let g = AdjacencyGraph::from_edges(&[(0, 1), (1, 2), (0, 2)]);
    let dag = g.dag();
    assert!(dag.has_edge(0, 1));
    assert!(dag.has_edge(1, 2));
    assert!(dag.has_edge(0, 2));
}

#[test]
fn test_graph_queries_on_unknown_vertices() {
    let mut g = AdjacencyGraph::new();
    assert!(g.neighbors(5).is_empty());
    assert!(!g.has_edge(5, 6));
    // removing an absent edge is a no-op
    g.remove_edge(5, 6);
    assert!(g.nodes().is_empty());
}

#[test]
fn test_duplicate_edges_collapse() {
    let mut g = AdjacencyGraph::new();
    g.add_edge(1, 2);
    g.add_edge(1, 2);
    assert_eq!(g.edges(), vec![(1, 2)]);
    assert_eq!(g.nodes(), vec![1, 2]);
}

#[test]
fn test_opposite_reverses_edges() {
    let g = AdjacencyGraph::from_edges(&[(0, 1), (1, 2)]);
    let op = g.opposite();
    assert!(op.has_edge(1, 0));
    assert!(op.has_edge(2, 1));
    assert!(!op.has_edge(0, 1));
}

#[test]
fn test_restricted_subgraph() {
    let g = AdjacencyGraph::from_edges(&[(0, 1), (1, 2), (2, 3)]);
    let sub = g.restricted(&vec![0, 1, 2]);
    assert!(sub.has_edge(0, 1));
    assert!(sub.has_edge(1, 2));
    assert!(!sub.has_edge(2, 3));
}

#[test]
fn test_dfs_visits_reachable() {
    let g = AdjacencyGraph::from_edges(&[(0, 1), (1, 2), (3, 4)]);
    let visited = g.dfs(0);
    assert!(visited.contains(&0));
    assert!(visited.contains(&1));
    assert!(visited.contains(&2));
    assert!(!visited.contains(&3));
    assert!(!visited.contains(&4));
}

#[test]
fn test_gc_reclaims_isolated() {
    let mut g = AdjacencyGraph::from_edges(&[(0, 1), (1, 0)]);
    g.add_node(7);
    g.gc();
    assert_eq!(g.nodes(), vec![0, 1]);
    assert!(g.has_edge(0, 1));
}

#[test]
fn test_is_cyclic() {
    let g = AdjacencyGraph::from_edges(&[(0, 1), (1, 2), (2, 3), (3, 0)]);
    assert!(g.is_cyclic());
    let h = AdjacencyGraph::from_edges(&[(0, 1), (1, 2), (0, 2)]);
    assert!(!h.is_cyclic());
    let dag = g.dag();
    assert!(!dag.graph().is_cyclic());
}

#[test]
fn test_shortest_path_matrix() {
    let g = AdjacencyGraph::from_edges(&[(0, 1), (1, 2), (3, 0)]);
    let matrix = g.shortest_path_matrix();
    assert_eq!(matrix.len(), 4);
    let from0 = &matrix[0];
    assert_eq!(from0.0, 0);
    assert_eq!(from0.1.get(0), 0);
    assert_eq!(from0.1.get(1), 1);
    assert_eq!(from0.1.get(2), 2);
    assert!(!from0.1.contains(3));
    let from3 = matrix.iter().find(|e| e.0 == 3).unwrap();
    assert_eq!(from3.1.get(2), 3);
}

#[test]
fn test_compute_ccs_2_partition() {
    let mut g = AdjacencyGraph::from_edges(&[(0, 1), (2, 1), (7, 8)]);
    g.add_node(9);
    let ccs = g.compute_ccs_2();
    assert_eq!(ccs.len(), 3);
    let mut seen = Vec::new();
    for cc in ccs.iter() {
        for v in cc.iter() {
            assert!(!seen.contains(v));
            seen.push(*v);
        }
    }
    seen.sort();
    assert_eq!(seen, vec![0, 1, 2, 7, 8, 9]);
}

#[test]
fn test_all_paths_begin_at_start() {
    let g = AdjacencyGraph::from_edges(&[(0, 1), (1, 2)]);
    let dag = g.dag();
    let paths = dag.all_paths(0, 10);
    assert_eq!(paths, vec![vec![0, 1, 2]]);
}

#[test]
fn test_all_paths_start_is_sink() {
    let mut g = AdjacencyGraph::new();
    g.add_node(5);
    let dag = g.dag();
    assert_eq!(dag.all_paths(5, 1), vec![vec![5]]);
}

#[test]
fn test_all_paths_two_branches() {
    let g = AdjacencyGraph::from_edges(&[(0, 1), (0, 2), (1, 3), (2, 3)]);
    let dag = g.dag();
    let paths = dag.all_paths(0, 10);
    assert_eq!(paths.len(), 2);
    for p in paths {
        assert_eq!(p[0], 0);
        assert_eq!(*p.last().unwrap(), 3);
    }
}

#[test]
fn test_degrees_table() {
    let g = AdjacencyGraph::from_edges(&[(0, 1), (1, 2), (0, 2)]);
    let d = g.degrees();
    assert_eq!(
        d,
        vec![(0, (2, 0, 2)), (1, (2, 1, 1)), (2, (2, 2, 0))]
    );
}

#[test]
fn test_dfs_reports_every_reachable_vertex() {
    let g = AdjacencyGraph::from_edges(&[(0, 1), (0, 2), (2, 3), (3, 0)]);
    let visited = g.dfs(0);
    let mut sorted = visited.clone();
    sorted.sort();
    assert_eq!(sorted, vec![0, 1, 2, 3]);
}

#[test]
fn test_dag_keeps_non_cycle_edges() {
    // the edge (4, 1) closes no cycle and must survive extraction
    let g = AdjacencyGraph::from_edges(&[(0, 1), (1, 2), (2, 0), (4, 1)]);
    let dag = g.dag();
    assert!(dag.has_edge(4, 1));
}

#[test]
fn test_remove_node_purges_adjacency() {
    let mut g = AdjacencyGraph::from_edges(&[(0, 1), (1, 2), (2, 1), (0, 2)]);
    g.remove_node(1);
    assert_eq!(g.nodes(), vec![0, 2]);
    assert!(!g.has_edge(0, 1));
    assert!(!g.has_edge(1, 2));
    assert!(!g.has_edge(2, 1));
    assert!(g.has_edge(0, 2));
    // removing an absent vertex is a no-op
    g.remove_node(7);
    assert_eq!(g.nodes(), vec![0, 2]);
    assert!(g.has_edge(0, 2));
}

#[test]
fn test_compute_ccs_2_matches_compute_ccs() {
    // both component functions return the weak-connectivity classes,
    // so as sets of vertex sets they agree
    let mut g = AdjacencyGraph::from_edges(&[(0, 1), (2, 1), (7, 8)]);
    g.add_node(9);
    let mut a: Vec<Vec<u64>> = g
        .compute_ccs()
        .into_iter()
        .map(|mut c| {
            c.sort();
            c
        })
        .collect();
    let mut b: Vec<Vec<u64>> = g
        .compute_ccs_2()
        .into_iter()
        .map(|mut c| {
            c.sort();
            c
        })
        .collect();
    a.sort();
    b.sort();
    assert_eq!(a, b);
}

#[test]
fn test_dag_on_two_cycle_keeps_one_edge() {
    // a two-cycle loses exactly its back edge, never both edges
    let g = AdjacencyGraph::from_edges(&[(0, 1), (1, 0)]);
    let dag = g.dag();
    assert!(dag.has_edge(0, 1));
    assert!(!dag.has_edge(1, 0));
}

#[test]
fn test_from_edges_node_order() {
    let g = AdjacencyGraph::from_edges(&[(2, 7), (1, 2), (7, 1)]);
    assert_eq!(g.nodes(), vec![2, 7, 1]);
}
