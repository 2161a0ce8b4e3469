//! One-call scoring of a whole graph — every centrality metric at once,
//! index-aligned — and deterministic ranking of nodes by score.

use vstd::prelude::*;
use crate::betweenness::{betweenness_centrality, has_in_edge};
use crate::fixed::{FIXED_ONE, sum64};
use crate::graph::{Direction, Graph, seq_has_idx};
use crate::pagerank::{PageRankRun, consumers_pagerank_run, pagerank_run};

verus! {

/// All per-node scores of one graph, each vector indexed by node index:
/// PageRank (with convergence diagnostics), PageRank of the reversed graph,
/// betweenness, and the two degree counts.
pub struct ScoreTable {
    pub pagerank: PageRankRun,
    pub consumers_pagerank: PageRankRun,
    pub betweenness: Vec<u64>,
    pub in_degrees: Vec<usize>,
    pub out_degrees: Vec<usize>,
}

/// Computes every metric of the graph in one pass: PageRank, consumers
/// PageRank (the reversed graph's PageRank), betweenness, and in/out
/// degrees, all aligned to the graph's node indices.
pub fn analyze_graph<N: Clone>(g: &Graph<N>) -> (t: ScoreTable)
    requires
        g.wf(),
    ensures
        t.pagerank.scores@.len() == g.n(),
        t.consumers_pagerank.scores@.len() == g.n(),
        t.betweenness@.len() == g.n(),
        t.in_degrees@.len() == g.n(),
        t.out_degrees@.len() == g.n(),
        g.n() >= 1 ==> sum64(t.pagerank.scores@) == FIXED_ONE as int,
        g.n() >= 1 ==> sum64(t.consumers_pagerank.scores@) == FIXED_ONE as int,
        t.pagerank.converged <==> t.pagerank.diff_l1 <= crate::pagerank::DEFAULT_TOL,
        t.consumers_pagerank.converged <==> t.consumers_pagerank.diff_l1
            <= crate::pagerank::DEFAULT_TOL,
        t.betweenness@ == crate::betweenness::betweenness_spec(*g),
        g.n() >= 1 ==> crate::pagerank::auto_solver_run_ok(
            t.pagerank.scores@,
            t.pagerank.iterations as int,
            t.pagerank.diff_l1 as int,
            t.pagerank.converged,
            *g,
        ),
        g.n() >= 1 && crate::pagerank::rows_all_unit(crate::transform::reversed_rows(*g))
            ==> crate::pagerank::solver_run_ok(
            t.consumers_pagerank.scores@,
            t.consumers_pagerank.iterations as int,
            t.consumers_pagerank.diff_l1 as int,
            t.consumers_pagerank.converged,
            crate::pagerank::rows_unit(crate::transform::reversed_rows(*g)),
            crate::pagerank::uniform_spec(g.n()),
            crate::pagerank::default_config_spec(),
            g.n(),
        ),
        g.n() >= 1 && !crate::pagerank::rows_all_unit(crate::transform::reversed_rows(*g))
            ==> crate::pagerank::solver_run_ok(
            t.consumers_pagerank.scores@,
            t.consumers_pagerank.iterations as int,
            t.consumers_pagerank.diff_l1 as int,
            t.consumers_pagerank.converged,
            crate::transform::reversed_rows(*g),
            crate::pagerank::uniform_spec(g.n()),
            crate::pagerank::default_config_spec(),
            g.n(),
        ),
        g.n() <= 2 ==> forall|i: int| 0 <= i < g.n() ==> t.betweenness@[i] == 0,
        forall|i: int|
            0 <= i < g.n() && g.out_degree(i) == 0 ==> #[trigger] t.betweenness@[i] == 0,
        forall|i: int|
            0 <= i < g.n() && !has_in_edge(*g, i) ==> #[trigger] t.betweenness@[i] == 0,
        forall|i: int|
            0 <= i < g.n() ==> #[trigger] t.out_degrees@[i] as int == g.out_degree(i),
        forall|i: int|
            0 <= i < g.n() ==> #[trigger] t.in_degrees@[i] as int == g.in_degree_upto(i, g.n()),
{
    let n = g.node_count();
    let pagerank = pagerank_run(g);
    let consumers_pagerank = consumers_pagerank_run(g);
    let betweenness = betweenness_centrality(g);
    let mut in_degrees: Vec<usize> = Vec::new();
    let mut out_degrees: Vec<usize> = Vec::new();
    let mut i: usize = 0;
    while i < n
        invariant
            g.wf(),
            n == g.n(),
            0 <= i <= n,
            in_degrees@.len() == i,
            out_degrees@.len() == i,
            forall|j: int|
                0 <= j < i ==> #[trigger] out_degrees@[j] as int == g.out_degree(j),
            forall|j: int|
                0 <= j < i ==> #[trigger] in_degrees@[j] as int == g.in_degree_upto(j, g.n()),
        decreases n - i,
    {
        in_degrees.push(g.degree(i, Direction::Incoming));
        out_degrees.push(g.degree(i, Direction::Outgoing));
        i += 1;
    }
    ScoreTable { pagerank, consumers_pagerank, betweenness, in_degrees, out_degrees }
}

/// Node `a` ranks ahead of node `b`: a higher score, or the same score and
/// the lower index — a strict total order on distinct indices, so a ranking
/// is unique.
pub open spec fn ranks_before(scores: Seq<u64>, a: int, b: int) -> bool {
    scores[a] > scores[b] || (scores[a] == scores[b] && a < b)
}

/// Ranks the node indices by score, best first, equal scores by ascending
/// index. The result is a permutation of `0 .. scores.len()` and is fully
/// determined by the score vector.
#[verifier::rlimit(50)]
pub fn rank_nodes(scores: &Vec<u64>) -> (r: Vec<usize>)
    ensures
        r@.len() == scores@.len(),
        forall|i: int| 0 <= i < r@.len() ==> (#[trigger] r@[i]) < scores@.len(),
        forall|i: int, j: int|
            0 <= i < j < r@.len() ==> ranks_before(scores@, r@[i] as int, r@[j] as int),
        forall|v: int| 0 <= v < scores@.len() ==> seq_has_idx(r@, v),
{
    let n = scores.len();
    let mut r: Vec<usize> = Vec::new();
    let mut v: usize = 0;
    while v < n
        invariant
            n == scores@.len(),
            0 <= v <= n,
            r@.len() == v,
            forall|i: int| 0 <= i < r@.len() ==> (#[trigger] r@[i]) < v,
            forall|i: int, j: int|
                0 <= i < j < r@.len() ==> ranks_before(scores@, r@[i] as int, r@[j] as int),
            forall|w: int| 0 <= w < v ==> seq_has_idx(r@, w),
        decreases n - v,
    {
        let mut p: usize = 0;
        while p < r.len() && (scores[r[p]] > scores[v] || (scores[r[p]] == scores[v] && r[p] < v))
            invariant
                n == scores@.len(),
                v < n,
                r@.len() < n,
                forall|i: int| 0 <= i < r@.len() ==> (#[trigger] r@[i]) < v,
                forall|i: int, j: int|
                    0 <= i < j < r@.len() ==> ranks_before(scores@, r@[i] as int, r@[j] as int),
                forall|w: int| 0 <= w < v ==> seq_has_idx(r@, w),
                0 <= p <= r@.len(),
                forall|i: int| 0 <= i < p ==> ranks_before(scores@, (#[trigger] r@[i]) as int, v as int),
            decreases r@.len() - p,
        {
            p += 1;
        }
        let ghost pre = r@;
        r.insert(p, v);
        proof {
            pre.insert_ensures(p as int, v);
            let pi = p as int;
            let vi = v as int;
            // The displaced element, if any, ranks after v.
            assert forall|i: int, j: int|
                0 <= i < j < r@.len() implies ranks_before(scores@, r@[i] as int, r@[j] as int) by {
                if j < pi {
                    assert(r@[i] == pre[i] && r@[j] == pre[j]);
                } else if i > pi {
                    assert(r@[i] == pre[i - 1] && r@[j] == pre[j - 1]);
                } else if i == pi {
                    assert(r@[j] == pre[j - 1]);
                    assert(pre[pi] as int != vi);
                    assert(!ranks_before(scores@, pre[pi] as int, vi));
                    assert(ranks_before(scores@, vi, pre[pi] as int));
                    if j - 1 > pi {
                        assert(ranks_before(scores@, pre[pi] as int, pre[j - 1] as int));
                    }
                } else if j == pi {
                    assert(r@[i] == pre[i]);
                } else {
                    assert(r@[i] == pre[i] && r@[j] == pre[j - 1]);
                    assert(ranks_before(scores@, pre[i] as int, vi));
                    if j - 1 == pi {
                    } else {
                        assert(!ranks_before(scores@, pre[pi] as int, vi));
                        assert(ranks_before(scores@, vi, pre[pi] as int));
                        assert(ranks_before(scores@, pre[pi] as int, pre[j - 1] as int));
                    }
                }
            }
            assert forall|w: int| 0 <= w < v + 1 implies seq_has_idx(r@, w) by {
                if w == vi {
                    assert(r@[pi] as int == w);
                } else {
                    assert(seq_has_idx(pre, w));
                    let q = choose|q: int| 0 <= q < pre.len() && (#[trigger] pre[q]) as int == w;
                    if q < pi {
                        assert(r@[q] as int == w);
                    } else {
                        assert(r@[q + 1] as int == w);
                    }
                }
            }
        }
        v += 1;
    }
    r
}

/// Some pair in the list carries node index `v`.
pub open spec fn order_has(s: Seq<(usize, u64)>, v: int) -> bool {
    exists|p: int| 0 <= p < s.len() && (#[trigger] s[p]).0 as int == v
}

/// Degree of `v` in the chosen direction, as a mathematical value.
pub open spec fn degree_of<N>(g: Graph<N>, v: int, dir: Direction) -> int {
    if dir == Direction::Outgoing {
        g.out_degree(v)
    } else {
        g.in_degree_upto(v, g.n())
    }
}

/// Ranks every node by its degree in the chosen direction, best first,
/// equal degrees by ascending index, pairing each node with its degree.
pub fn degree_centrality<N>(g: &Graph<N>, dir: Direction) -> (r: Vec<(usize, u64)>)
    requires
        g.wf(),
    ensures
        r@.len() == g.n(),
        forall|p: int|
            0 <= p < r@.len() ==> (#[trigger] r@[p]).0 < g.n() && r@[p].1 as int == degree_of(
                *g,
                r@[p].0 as int,
                dir,
            ),
        forall|p: int, q: int|
            0 <= p < q < r@.len() ==> (r@[p].1 > r@[q].1 || (r@[p].1 == r@[q].1 && r@[p].0
                < r@[q].0)),
        forall|v: int| 0 <= v < g.n() ==> order_has(r@, v),
{
    let n = g.node_count();
    let mut degs: Vec<u64> = Vec::new();
    let mut i: usize = 0;
    while i < n
        invariant
            g.wf(),
            n == g.n(),
            0 <= i <= n,
            degs@.len() == i,
            forall|j: int| 0 <= j < i ==> (#[trigger] degs@[j]) as int == degree_of(*g, j, dir),
        decreases n - i,
    {
        let d = g.degree(i, dir);
        degs.push(d as u64);
        i += 1;
    }
    let order = rank_nodes(&degs);
    let mut r: Vec<(usize, u64)> = Vec::new();
    let mut p: usize = 0;
    while p < n
        invariant
            g.wf(),
            n == g.n(),
            degs@.len() == n,
            forall|j: int| 0 <= j < n ==> (#[trigger] degs@[j]) as int == degree_of(*g, j, dir),
            order@.len() == n,
            forall|q: int| 0 <= q < n ==> (#[trigger] order@[q]) < n,
            forall|q1: int, q2: int|
                0 <= q1 < q2 < n ==> ranks_before(degs@, order@[q1] as int, order@[q2] as int),
            forall|v: int| 0 <= v < n ==> seq_has_idx(order@, v),
            0 <= p <= n,
            r@.len() == p,
            forall|q: int|
                0 <= q < p ==> (#[trigger] r@[q]).0 == order@[q] && r@[q].1 == degs@[
                    order@[q] as int
                ],
        decreases n - p,
    {
        let idx = order[p];
        r.push((idx, degs[idx]));
        p += 1;
    }
    proof {
        assert forall|v: int| 0 <= v < g.n() implies order_has(r@, v) by {
            assert(seq_has_idx(order@, v));
            let q = choose|q: int| 0 <= q < order@.len() && (#[trigger] order@[q]) as int == v;
            assert(r@[q].0 as int == v);
        }
        assert forall|p: int, q: int|
            0 <= p < q < r@.len() implies (r@[p].1 > r@[q].1 || (r@[p].1 == r@[q].1 && r@[p].0
            < r@[q].0)) by {
            assert(ranks_before(degs@, order@[p] as int, order@[q] as int));
        }
    }
    r
}

} // verus!
