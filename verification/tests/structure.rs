use pkgrank::fixed::FIXED_ONE;
use pkgrank::graph::{Direction, Graph};
use pkgrank::reach::EpochVisited;
use pkgrank::transform::{contract_graph, reverse_graph};

fn build(n: usize, edges: &[(usize, usize, u64)]) -> Graph<u64> {
    let mut g: Graph<u64> = Graph::new();
    for i in 0..n {
        g.add_node(i as u64);
    }
    for &(u, v, w) in edges {
        g.add_or_update_edge(u, v, w);
    }
    g
}

#[test]
fn add_node_returns_stable_indices() {
    let mut g: Graph<&str> = Graph::new();
    assert_eq!(g.node_count(), 0);
    assert_eq!(g.add_node("a"), 0);
    assert_eq!(g.add_node("b"), 1);
    assert_eq!(g.add_node("c"), 2);
    assert_eq!(g.node_count(), 3);
    assert_eq!(*g.payload(0), "a");
    assert_eq!(*g.payload(2), "c");
}

#[test]
fn add_or_update_edge_replaces_weight() {
    let mut g = build(2, &[]);
    g.add_or_update_edge(0, 1, 10);
    assert_eq!(g.get_edge_weight(0, 1), Some(10));
    g.add_or_update_edge(0, 1, 99);
    assert_eq!(g.get_edge_weight(0, 1), Some(99));
    // Still a single edge, not a parallel pair.
    assert_eq!(g.out_neighbors(0), vec![1]);
    assert_eq!(g.degree(0, Direction::Outgoing), 1);
    assert_eq!(g.get_edge_weight(1, 0), None);
}

#[test]
fn self_loops_are_legal() {
    let mut g = build(1, &[]);
    g.add_or_update_edge(0, 0, 5);
    assert_eq!(g.get_edge_weight(0, 0), Some(5));
    assert_eq!(g.out_neighbors(0), vec![0]);
    assert_eq!(g.in_neighbors(0), vec![0]);
}

#[test]
fn neighbors_by_direction() {
    let g = build(4, &[(0, 2, 1), (1, 2, 1), (2, 3, 1)]);
    assert_eq!(g.neighbors(2, Direction::Incoming), vec![0, 1]);
    assert_eq!(g.neighbors(2, Direction::Outgoing), vec![3]);
    assert_eq!(g.degree(2, Direction::Incoming), 2);
    assert_eq!(g.degree(2, Direction::Outgoing), 1);
}

#[test]
fn reverse_keeps_indices_and_flips_edges() {
    let g = build(3, &[(0, 1, 11), (1, 2, 22), (2, 0, 33)]);
    let r = reverse_graph(&g);
    assert_eq!(r.node_count(), 3);
    assert_eq!(*r.payload(0), 0u64);
    assert_eq!(*r.payload(2), 2u64);
    assert_eq!(r.get_edge_weight(1, 0), Some(11));
    assert_eq!(r.get_edge_weight(2, 1), Some(22));
    assert_eq!(r.get_edge_weight(0, 2), Some(33));
    assert_eq!(r.get_edge_weight(0, 1), None);
}

#[test]
fn reverse_twice_restores_edges() {
    let g = build(3, &[(0, 1, 11), (2, 1, 7)]);
    let rr = reverse_graph(&reverse_graph(&g));
    assert_eq!(rr.get_edge_weight(0, 1), Some(11));
    assert_eq!(rr.get_edge_weight(2, 1), Some(7));
    assert_eq!(rr.get_edge_weight(1, 0), None);
}

#[test]
fn contraction_groups_by_key_in_sorted_order() {
    // Nodes 0,2 share key 20; node 1 has key 10; node 3 has key 30.
    let g = build(4, &[(0, 1, 2), (2, 1, 3), (1, 3, 5), (0, 2, 7)]);
    let keys: Vec<u64> = vec![20, 10, 20, 30];
    let (cg, members) = contract_graph(&g, &keys);
    assert_eq!(cg.node_count(), 3);
    assert_eq!(*cg.payload(0), 10);
    assert_eq!(*cg.payload(1), 20);
    assert_eq!(*cg.payload(2), 30);
    assert_eq!(members, vec![vec![1], vec![0, 2], vec![3]]);
    // Edges 0->1 and 2->1 both cross from key 20 to key 10: weights sum.
    assert_eq!(cg.get_edge_weight(1, 0), Some(5));
    // The in-group edge 0->2 is dropped.
    assert_eq!(cg.get_edge_weight(1, 1), None);
    // 1 -> 3 crosses from key 10 to key 30.
    assert_eq!(cg.get_edge_weight(0, 2), Some(5));
    assert_eq!(cg.get_edge_weight(2, 0), None);
}

#[test]
fn contraction_is_deterministic_across_insertion_orders() {
    // The same logical graph, edges inserted in different orders.
    let g1 = build(4, &[(0, 1, 2), (2, 1, 3), (1, 3, 5)]);
    let g2 = build(4, &[(1, 3, 5), (2, 1, 3), (0, 1, 2)]);
    let keys: Vec<u64> = vec![20, 10, 20, 30];
    let (c1, m1) = contract_graph(&g1, &keys);
    let (c2, m2) = contract_graph(&g2, &keys);
    assert_eq!(c1.node_count(), c2.node_count());
    for j in 0..c1.node_count() {
        assert_eq!(*c1.payload(j), *c2.payload(j));
    }
    assert_eq!(m1, m2);
    for a in 0..c1.node_count() {
        for b in 0..c1.node_count() {
            assert_eq!(c1.get_edge_weight(a, b), c2.get_edge_weight(a, b));
        }
    }
    // Contracting the same graph twice is identical too.
    let (c3, m3) = contract_graph(&g1, &keys);
    assert_eq!(m1, m3);
    for a in 0..c1.node_count() {
        for b in 0..c1.node_count() {
            assert_eq!(c1.get_edge_weight(a, b), c3.get_edge_weight(a, b));
        }
    }
}

#[test]
fn contraction_weight_sums_saturate() {
    let g = build(2, &[(0, 1, u64::MAX)]);
    let mut g2 = g;
    g2.add_or_update_edge(0, 1, u64::MAX);
    // A second crossing edge from another node in the same group.
    let mut g3 = build(3, &[(0, 1, u64::MAX), (2, 1, u64::MAX)]);
    g3.add_or_update_edge(2, 1, u64::MAX);
    let keys: Vec<u64> = vec![1, 2, 1];
    let (cg, _members) = contract_graph(&g3, &keys);
    assert_eq!(cg.get_edge_weight(0, 1), Some(u64::MAX));
}

#[test]
fn epoch_visited_wraps_at_counter_limit() {
    // Start the counter at its maximum so that the next run must take the
    // explicit reset branch.
    let mut vis = EpochVisited::new_at(3, u32::MAX);
    vis.begin();
    assert!(!vis.is_marked(0));
    assert!(!vis.is_marked(1));
    vis.mark(1);
    assert!(vis.is_marked(1));
    assert!(!vis.is_marked(0));
    vis.begin();
    assert!(!vis.is_marked(1));
}

#[test]
fn epoch_visited_runs_do_not_interfere() {
    let mut vis = EpochVisited::new(2);
    vis.begin();
    vis.mark(0);
    assert!(vis.is_marked(0));
    vis.begin();
    assert!(!vis.is_marked(0));
    vis.mark(1);
    assert!(vis.is_marked(1));
    assert!(!vis.is_marked(0));
}

#[test]
fn fixed_one_is_one_billion() {
    assert_eq!(FIXED_ONE, 1_000_000_000);
}

#[test]
fn edge_list_enumerates_every_edge_once() {
    let mut g = build(3, &[(0, 1, 5), (1, 2, 6), (2, 0, 7)]);
    assert_eq!(g.edge_count(), 3);
    g.add_or_update_edge(0, 1, 50);
    assert_eq!(g.edge_count(), 3);
    let mut edges = g.edge_list();
    edges.sort();
    assert_eq!(edges, vec![(0, 1, 50), (1, 2, 6), (2, 0, 7)]);
}

#[test]
fn rank_nodes_orders_by_score_then_index() {
    let scores: Vec<u64> = vec![5, 9, 9, 1];
    let order = pkgrank::analyze::rank_nodes(&scores);
    assert_eq!(order, vec![1, 2, 0, 3]);
    let empty: Vec<u64> = Vec::new();
    assert_eq!(pkgrank::analyze::rank_nodes(&empty), Vec::<usize>::new());
}

#[test]
fn degree_centrality_ranks_by_degree() {
    // Node 2 collects two in-edges, nodes 1 and 3 one each, node 0 none.
    let g = build(4, &[(0, 2, 1), (1, 2, 1), (2, 3, 1), (0, 1, 1)]);
    let by_in = pkgrank::analyze::degree_centrality(&g, Direction::Incoming);
    assert_eq!(by_in, vec![(2, 2), (1, 1), (3, 1), (0, 0)]);
    let by_out = pkgrank::analyze::degree_centrality(&g, Direction::Outgoing);
    assert_eq!(by_out, vec![(0, 2), (1, 1), (2, 1), (3, 0)]);
}

#[test]
fn analyze_graph_is_consistent_with_single_metrics() {
    let g = build(4, &[(0, 1, FIXED_ONE), (1, 2, FIXED_ONE), (2, 3, FIXED_ONE)]);
    let t = pkgrank::analyze::analyze_graph(&g);
    assert_eq!(t.pagerank.scores, pkgrank::pagerank::pagerank(&g));
    assert_eq!(
        t.consumers_pagerank.scores,
        pkgrank::pagerank::consumers_pagerank(&g)
    );
    assert_eq!(
        t.betweenness,
        pkgrank::betweenness::betweenness_centrality(&g)
    );
    assert_eq!(t.out_degrees, vec![1, 1, 1, 0]);
    assert_eq!(t.in_degrees, vec![0, 1, 1, 1]);
}
