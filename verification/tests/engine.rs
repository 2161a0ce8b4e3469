use pkgrank::betweenness::betweenness_centrality;
use pkgrank::fixed::FIXED_ONE;
use pkgrank::graph::Graph;
use pkgrank::pagerank::{
    consumers_pagerank, pagerank, pagerank_run, pagerank_unweighted, pagerank_weighted,
    personalized_pagerank, personalized_pagerank_run, PageRankConfig,
};
use pkgrank::reach::reachability_counts_edges;
use pkgrank::transform::reverse_graph;

fn graph_from_edges(n: usize, edges: &[(usize, usize, u64)]) -> Graph<u64> {
    let mut g: Graph<u64> = Graph::new();
    for i in 0..n {
        g.add_node(i as u64);
    }
    for &(u, v, w) in edges {
        g.add_or_update_edge(u, v, w);
    }
    g
}

fn sum(scores: &[u64]) -> u64 {
    scores.iter().copied().sum()
}

#[test]
fn pagerank_mass_conserved_unweighted() {
    // A chain with a dangling tail node.
    let g = graph_from_edges(
        4,
        &[(0, 1, FIXED_ONE), (1, 2, FIXED_ONE), (2, 3, FIXED_ONE)],
    );
    let scores = pagerank(&g);
    assert_eq!(scores.len(), 4);
    assert_eq!(sum(&scores), FIXED_ONE);
}

#[test]
fn pagerank_mass_conserved_weighted() {
    let g = graph_from_edges(3, &[(0, 1, 7), (0, 2, 3), (2, 0, 500)]);
    let scores = pagerank_weighted(&g, PageRankConfig::default());
    assert_eq!(scores.len(), 3);
    assert_eq!(sum(&scores), FIXED_ONE);
}

#[test]
fn pagerank_mass_conserved_personalized() {
    let g = graph_from_edges(3, &[(0, 1, FIXED_ONE), (1, 0, FIXED_ONE)]);
    let p: Vec<u64> = vec![3, 1, 0];
    let scores = personalized_pagerank(&g, PageRankConfig::default(), &p);
    assert_eq!(scores.len(), 3);
    assert_eq!(sum(&scores), FIXED_ONE);
}

#[test]
fn pagerank_one_iteration_does_not_converge() {
    // A chain needs more than one iteration from the uniform start.
    let g = graph_from_edges(
        4,
        &[(0, 1, FIXED_ONE), (1, 2, FIXED_ONE), (2, 3, FIXED_ONE)],
    );
    let mut cfg = PageRankConfig::default();
    cfg.max_iters = 1;
    let run = pkgrank::pagerank::pagerank_unweighted_run(&g, cfg);
    assert_eq!(run.iterations, 1);
    assert!(!run.converged);
    assert!(run.diff_l1 > cfg.tol);
}

#[test]
fn pagerank_small_graph_converges() {
    let g = graph_from_edges(
        5,
        &[
            (0, 1, FIXED_ONE),
            (1, 2, FIXED_ONE),
            (2, 0, FIXED_ONE),
            (3, 0, FIXED_ONE),
            (3, 4, FIXED_ONE),
            (4, 3, FIXED_ONE),
        ],
    );
    let run = pagerank_run(&g);
    assert!(run.converged, "diff_l1 left at {}", run.diff_l1);
    assert!(run.iterations < 200);
    assert_eq!(sum(&run.scores), FIXED_ONE);
}

#[test]
fn consumers_pagerank_matches_pagerank_of_reverse() {
    let g = graph_from_edges(
        5,
        &[
            (0, 1, FIXED_ONE),
            (0, 2, FIXED_ONE),
            (1, 3, FIXED_ONE),
            (2, 3, FIXED_ONE),
            (4, 0, FIXED_ONE),
        ],
    );
    let consumers = consumers_pagerank(&g);
    let reversed = reverse_graph(&g);
    let direct = pagerank(&reversed);
    assert_eq!(consumers, direct);
}

#[test]
fn reachability_chain_round_trip() {
    let edges: Vec<(usize, usize)> = vec![(0, 1), (1, 2), (2, 3)];
    let (dependents, dependencies) = reachability_counts_edges(4, &edges);
    assert_eq!(dependencies, vec![3, 2, 1, 0]);
    assert_eq!(dependents, vec![0, 1, 2, 3]);
}

#[test]
fn reachability_skips_out_of_range_edges() {
    let edges: Vec<(usize, usize)> = vec![(0, 1), (1, 9), (7, 0)];
    let (dependents, dependencies) = reachability_counts_edges(2, &edges);
    assert_eq!(dependencies, vec![1, 0]);
    assert_eq!(dependents, vec![0, 1]);
}

#[test]
fn reachability_with_cycle_counts_distinct_nodes() {
    // 0 -> 1 -> 2 -> 0, plus 2 -> 3.
    let edges: Vec<(usize, usize)> = vec![(0, 1), (1, 2), (2, 0), (2, 3)];
    let (dependents, dependencies) = reachability_counts_edges(4, &edges);
    assert_eq!(dependencies, vec![3, 3, 3, 0]);
    assert_eq!(dependents, vec![2, 2, 2, 3]);
}

#[test]
fn betweenness_tiny_graphs_are_zero() {
    let g1 = graph_from_edges(1, &[]);
    assert_eq!(betweenness_centrality(&g1), vec![0]);
    let g2 = graph_from_edges(2, &[(0, 1, FIXED_ONE), (1, 0, FIXED_ONE)]);
    assert_eq!(betweenness_centrality(&g2), vec![0, 0]);
}

#[test]
fn betweenness_path_interior_nodes_positive() {
    let g = graph_from_edges(
        4,
        &[(0, 1, FIXED_ONE), (1, 2, FIXED_ONE), (2, 3, FIXED_ONE)],
    );
    let b = betweenness_centrality(&g);
    assert_eq!(b.len(), 4);
    assert_eq!(b[0], 0);
    assert!(b[1] > 0);
    assert!(b[2] > 0);
    assert_eq!(b[3], 0);
}

#[test]
fn empty_graph_gives_empty_results() {
    let g: Graph<u64> = Graph::new();
    assert_eq!(pagerank(&g), Vec::<u64>::new());
    assert_eq!(betweenness_centrality(&g), Vec::<u64>::new());
    let run = pagerank_run(&g);
    assert_eq!(run.iterations, 0);
    assert!(run.converged);
    let edges: Vec<(usize, usize)> = Vec::new();
    let (dependents, dependencies) = reachability_counts_edges(0, &edges);
    assert!(dependents.is_empty());
    assert!(dependencies.is_empty());
}

#[test]
fn dangling_mass_is_redistributed() {
    // Node 2 has no out-edges; its mass must not be lost.
    let g = graph_from_edges(3, &[(0, 1, FIXED_ONE)]);
    let run = pagerank_run(&g);
    assert_eq!(sum(&run.scores), FIXED_ONE);
    // Node 1 receives mass from node 0 and ranks highest.
    assert!(run.scores[1] > run.scores[0]);
    assert!(run.scores[1] > run.scores[2]);
}

#[test]
fn three_cycle_scores_are_uniform() {
    // A -> B -> C -> A.
    let g = graph_from_edges(
        3,
        &[(0, 1, FIXED_ONE), (1, 2, FIXED_ONE), (2, 0, FIXED_ONE)],
    );
    let run = pagerank_run(&g);
    assert!(run.converged);
    assert_eq!(sum(&run.scores), FIXED_ONE);
    let third = FIXED_ONE / 3;
    for &s in run.scores.iter() {
        let diff = if s >= third { s - third } else { third - s };
        // Within 1e-6 of 1/3.
        assert!(diff <= 1_000, "score {} too far from a third", s);
    }
}

#[test]
fn three_cycle_betweenness_matches_brandes() {
    // Every pair is joined by one shortest path; each node lies inside
    // exactly one of them, for a raw score of 1, normalized by 1/2.
    let g = graph_from_edges(
        3,
        &[(0, 1, FIXED_ONE), (1, 2, FIXED_ONE), (2, 0, FIXED_ONE)],
    );
    let b = betweenness_centrality(&g);
    assert_eq!(b, vec![FIXED_ONE / 2, FIXED_ONE / 2, FIXED_ONE / 2]);
}

#[test]
fn personalized_seed_concentrates_mass() {
    // Two isolated nodes, all teleport mass on node 0.
    let g = graph_from_edges(2, &[]);
    let p: Vec<u64> = vec![5, 0];
    let run = personalized_pagerank_run(&g, PageRankConfig::default(), &p);
    assert!(run.converged);
    assert_eq!(run.scores, vec![FIXED_ONE, 0]);
}

#[test]
fn personalized_zero_sum_falls_back_to_uniform() {
    let g = graph_from_edges(2, &[]);
    let p: Vec<u64> = vec![0, 0];
    let scores = personalized_pagerank(&g, PageRankConfig::default(), &p);
    assert_eq!(scores, vec![FIXED_ONE / 2, FIXED_ONE / 2]);
}

#[test]
fn auto_selection_matches_explicit_variants() {
    let unit = graph_from_edges(
        3,
        &[(0, 1, FIXED_ONE), (1, 2, FIXED_ONE), (2, 0, FIXED_ONE)],
    );
    assert_eq!(
        pagerank(&unit),
        pagerank_unweighted(&unit, PageRankConfig::default())
    );
    let weighted = graph_from_edges(3, &[(0, 1, 2 * FIXED_ONE), (1, 2, FIXED_ONE)]);
    assert_eq!(
        pagerank(&weighted),
        pagerank_weighted(&weighted, PageRankConfig::default())
    );
}

#[test]
fn default_config_values() {
    let cfg = PageRankConfig::default();
    assert_eq!(cfg.damping, 850_000_000);
    assert_eq!(cfg.tol, 1_000);
    assert_eq!(cfg.max_iters, 200);
}

#[test]
fn weighted_pagerank_favors_heavier_edges() {
    // Node 0 splits mass 9:1 between nodes 1 and 2.
    let g = graph_from_edges(
        3,
        &[(0, 1, 9 * FIXED_ONE), (0, 2, FIXED_ONE), (1, 0, FIXED_ONE), (2, 0, FIXED_ONE)],
    );
    let scores = pagerank_weighted(&g, PageRankConfig::default());
    assert!(scores[1] > scores[2]);
    assert_eq!(sum(&scores), FIXED_ONE);
}

#[test]
fn unweighted_and_weighted_agree_on_unit_graphs() {
    let g = graph_from_edges(
        4,
        &[(0, 1, FIXED_ONE), (1, 2, FIXED_ONE), (2, 0, FIXED_ONE), (2, 3, FIXED_ONE)],
    );
    let cfg = PageRankConfig::default();
    let a = pkgrank::pagerank::pagerank_unweighted_run(&g, cfg);
    let b = pkgrank::pagerank::pagerank_weighted_run(&g, cfg);
    assert_eq!(a.scores, b.scores);
    assert_eq!(a.iterations, b.iterations);
    assert_eq!(a.diff_l1, b.diff_l1);
    assert_eq!(a.converged, b.converged);
}

#[test]
fn huge_weights_still_conserve_mass() {
    let g = graph_from_edges(3, &[(0, 1, u64::MAX), (1, 2, u64::MAX), (2, 0, 1)]);
    let run = pkgrank::pagerank::pagerank_weighted_run(&g, PageRankConfig::default());
    assert_eq!(sum(&run.scores), FIXED_ONE);
}

#[test]
fn zero_weight_out_edges_make_a_node_dangling() {
    // Node 0's only out-edge has weight zero, so it is dangling under the
    // weighted variant; mass is still conserved.
    let g = graph_from_edges(2, &[(0, 1, 0)]);
    let scores = pagerank_weighted(&g, PageRankConfig::default());
    assert_eq!(sum(&scores), FIXED_ONE);
    assert_eq!(scores[0], scores[1]);
}
