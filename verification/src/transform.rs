//! Graph transformations: reversal (index-preserving) and contraction by a
//! per-node key (sorted-key order, weight-summing).

use vstd::prelude::*;
use crate::graph::{Edge, Graph, seq_has_idx};

verus! {

/// The sequence is strictly increasing (hence duplicate-free).
pub open spec fn strictly_increasing(s: Seq<u64>) -> bool {
    forall|i: int, j: int| 0 <= i < j < s.len() ==> s[i] < s[j]
}

/// The index sequence is strictly increasing (hence duplicate-free).
pub open spec fn strictly_increasing_idx(s: Seq<usize>) -> bool {
    forall|i: int, j: int| 0 <= i < j < s.len() ==> s[i] < s[j]
}

/// Some edge of `g` leads from a node keyed `ka` to a node keyed `kb`.
pub open spec fn crossing<N>(g: Graph<N>, keys: Seq<u64>, ka: u64, kb: u64) -> bool {
    exists|u: int, v: int|
        0 <= u < g.n() && 0 <= v < g.n() && #[trigger] g.has_edge(u, v) && keys[u] == ka
            && keys[v] == kb
}

/// Total weight of the first `k` entries of row `u` that lead from key `ka`
/// to key `kb`.
pub open spec fn cross_w_row<N>(
    g: Graph<N>,
    keys: Seq<u64>,
    ka: u64,
    kb: u64,
    u: int,
    k: int,
) -> int
    decreases k,
{
    if k <= 0 {
        0
    } else {
        cross_w_row(g, keys, ka, kb, u, k - 1) + if keys[u] == ka && keys[g.row(u)[k - 1].to
            as int] == kb {
            g.row(u)[k - 1].weight as int
        } else {
            0
        }
    }
}

/// Total weight of all edges in rows before `u` that lead from key `ka` to
/// key `kb`.
pub open spec fn cross_w_rows<N>(g: Graph<N>, keys: Seq<u64>, ka: u64, kb: u64, u: int) -> int
    decreases u,
{
    if u <= 0 {
        0
    } else {
        cross_w_rows(g, keys, ka, kb, u - 1) + cross_w_row(
            g,
            keys,
            ka,
            kb,
            u - 1,
            g.row(u - 1).len() as int,
        )
    }
}

/// Total weight of all edges of `g` that lead from key `ka` to key `kb`.
pub open spec fn cross_weight<N>(g: Graph<N>, keys: Seq<u64>, ka: u64, kb: u64) -> int {
    cross_w_rows(g, keys, ka, kb, g.n())
}

/// Every reversed edge inserted so far is a flipped edge of `g`, with the
/// same weight.
pub open spec fn rev_sound<N>(g: Graph<N>, r: Graph<N>) -> bool {
    forall|a: int, b: int| #[trigger]
        r.has_edge(b, a) ==> g.has_edge(a, b) && r.edge_weight(b, a) == g.edge_weight(a, b)
}

/// The adjacency row of node `b` in the reversed graph, restricted to
/// sources below `u`: the in-edges of `b`, sources ascending, weights kept.
pub open spec fn in_row_upto<N>(g: Graph<N>, b: int, u: int) -> Seq<Edge>
    decreases u,
{
    if u <= 0 {
        Seq::empty()
    } else {
        let pre = in_row_upto(g, b, u - 1);
        if g.has_edge(u - 1, b) {
            pre.push(Edge { to: (u - 1) as usize, weight: g.edge_weight(u - 1, b) })
        } else {
            pre
        }
    }
}

/// The full adjacency structure of the reversed graph, determined by `g`
/// alone: row `b` lists the in-edges of `b` with sources ascending.
pub open spec fn reversed_rows<N>(g: Graph<N>) -> Seq<Seq<Edge>> {
    Seq::new(g.n() as nat, |b: int| in_row_upto(g, b, g.n()))
}

/// Every target in a reversed-row prefix is a source below the bound.
proof fn lemma_in_row_upto_targets<N>(g: Graph<N>, b: int, u: int)
    ensures
        forall|j: int|
            0 <= j < in_row_upto(g, b, u).len() ==> (#[trigger] in_row_upto(g, b, u)[j]).to
                < u,
    decreases u,
{
    if u > 0 {
        lemma_in_row_upto_targets(g, b, u - 1);
        let pre = in_row_upto(g, b, u - 1);
        assert forall|j: int|
            0 <= j < in_row_upto(g, b, u).len() implies (#[trigger] in_row_upto(g, b, u)[j]).to
            < u by {
            if j < pre.len() {
                assert(in_row_upto(g, b, u)[j] == pre[j]);
            }
        }
    }
}

/// The entry a finished row scan appended for source `u`, if row `u` has an
/// edge among its first `k` entries into `b`.
pub open spec fn scan_extra<N>(g: Graph<N>, b: int, u: int, k: int) -> Seq<Edge> {
    if exists|j: int| 0 <= j < k && (#[trigger] g.row(u)[j]).to as int == b {
        Seq::empty().push(Edge { to: u as usize, weight: g.edge_weight(u, b) })
    } else {
        Seq::empty()
    }
}

/// Reverses a graph while keeping node order, so node index `i` means the
/// same node in the result: every edge `(u, v, w)` becomes `(v, u, w)` and
/// payloads are cloned in place.
pub fn reverse_graph<N: Clone>(g: &Graph<N>) -> (r: Graph<N>)
    requires
        g.wf(),
    ensures
        r.wf(),
        r.n() == g.n(),
        forall|i: int| 0 <= i < g.n() ==> cloned(g.payloads()[i], #[trigger] r.payloads()[i]),
        is_reverse_of(r, *g),
        forall|b: int| 0 <= b < g.n() ==> #[trigger] r.row(b) == in_row_upto(*g, b, g.n()),
{
    let n = g.node_count();
    let mut r: Graph<N> = Graph::new();
    let mut i: usize = 0;
    while i < n
        invariant
            g.wf(),
            n == g.n(),
            r.wf(),
            r.n() == i,
            0 <= i <= n,
            r.edges() == Map::<(int, int), u64>::empty(),
            forall|j: int| 0 <= j < i ==> cloned(g.payloads()[j], #[trigger] r.payloads()[j]),
        decreases n - i,
    {
        let p = g.nodes[i].clone();
        r.add_node(p);
        i += 1;
    }
    let mut u: usize = 0;
    proof {
        r.lemma_edges_dom();
        assert forall|a: int, b: int| !(#[trigger] r.has_edge(b, a)) by {
            assert(r.edges().dom().contains((b, a)) == r.has_edge(b, a));
        }
        assert forall|b: int| 0 <= b < n implies #[trigger] r.row(b) == in_row_upto(*g, b, 0) by {
            if r.row(b).len() > 0 {
                r.lemma_edge_at(b, 0);
                assert(r.has_edge(b, r.row(b)[0].to as int));
                assert(false);
            }
            assert(r.row(b) =~= in_row_upto(*g, b, 0));
        }
    }
    while u < n
        invariant
            g.wf(),
            n == g.n(),
            r.wf(),
            r.n() == g.n(),
            0 <= u <= n,
            forall|j: int| 0 <= j < n ==> cloned(g.payloads()[j], #[trigger] r.payloads()[j]),
            rev_sound(*g, r),
            forall|a: int, b: int|
                0 <= a < u && #[trigger] g.has_edge(a, b) ==> r.has_edge(b, a),
            forall|b: int| 0 <= b < n ==> #[trigger] r.row(b) == in_row_upto(*g, b, u as int),
        decreases n - u,
    {
        let row_len = g.adj[u].len();
        let mut k: usize = 0;
        proof {
            assert forall|b: int|
                0 <= b < n implies #[trigger] r.row(b) == in_row_upto(*g, b, u as int)
                + scan_extra(*g, b, u as int, 0) by {
                assert(scan_extra(*g, b, u as int, 0) =~= Seq::<Edge>::empty());
                assert(r.row(b) =~= in_row_upto(*g, b, u as int) + scan_extra(*g, b, u as int, 0));
            }
        }
        while k < row_len
            invariant
                g.wf(),
                n == g.n(),
                r.wf(),
                r.n() == g.n(),
                0 <= u < n,
                row_len == g.row(u as int).len(),
                0 <= k <= row_len,
                forall|j: int| 0 <= j < n ==> cloned(g.payloads()[j], #[trigger] r.payloads()[j]),
                rev_sound(*g, r),
                forall|a: int, b: int|
                    0 <= a < u && #[trigger] g.has_edge(a, b) ==> r.has_edge(b, a),
                forall|j: int|
                    0 <= j < k ==> r.has_edge((#[trigger] g.row(u as int)[j]).to as int, u as int),
                forall|b: int|
                    0 <= b < n ==> #[trigger] r.row(b) == in_row_upto(*g, b, u as int)
                        + scan_extra(*g, b, u as int, k as int),
            decreases row_len - k,
        {
            let e = g.adj[u][k];
            proof {
                g.lemma_edge_at(u as int, k as int);
                assert(g.row_ok(u as int));
                assert(g.row(u as int)[k as int].to < g.nodes@.len());
                // The flipped pair is fresh: earlier sources sit below u, and
                // no earlier entry of row u shares this target.
                let bi = e.to as int;
                if r.has_edge(bi, u as int) {
                    let k2 = choose|k2: int|
                        0 <= k2 < r.row(bi).len() && (#[trigger] r.row(bi)[k2]).to == u;
                    lemma_in_row_upto_targets(*g, bi, u as int);
                    let base = in_row_upto(*g, bi, u as int);
                    if k2 < base.len() {
                        assert(r.row(bi)[k2] == base[k2]);
                        assert(false);
                    } else {
                        assert(scan_extra(*g, bi, u as int, k as int).len() > 0);
                        let j = choose|j: int|
                            0 <= j < k && (#[trigger] g.row(u as int)[j]).to as int == bi;
                        assert(g.row(u as int)[j].to != g.row(u as int)[k as int].to);
                        assert(false);
                    }
                }
            }
            let ghost r0 = r;
            r.add_or_update_edge(e.to, u, e.weight);
            proof {
                let ui = u as int;
                let vi = e.to as int;
                r0.lemma_edges_dom();
                r.lemma_edges_dom();
                assert forall|a: int, b: int| #[trigger] r.has_edge(b, a) implies
                    g.has_edge(a, b) && r.edge_weight(b, a) == g.edge_weight(a, b) by {
                    assert(r.edges().dom().contains((b, a)) == r.has_edge(b, a));
                    assert(r.edges() == r0.edges().insert((vi, ui), e.weight));
                    if b == vi && a == ui {
                        assert(r.edges()[(b, a)] == e.weight);
                        assert(g.edge_weight(ui, vi) == e.weight);
                    } else {
                        assert(r0.edges().dom().contains((b, a)));
                        assert(r0.has_edge(b, a));
                        assert(r.edges()[(b, a)] == r0.edges()[(b, a)]);
                        assert(r0.edges()[(b, a)] == r0.edge_weight(b, a));
                        assert(r.edges()[(b, a)] == r.edge_weight(b, a));
                    }
                }
                assert forall|a: int, b: int|
                    0 <= a < u && #[trigger] g.has_edge(a, b) implies r.has_edge(b, a) by {
                    assert(r0.has_edge(b, a));
                    assert(r0.edges().dom().contains((b, a)));
                    assert(r.edges().dom().contains((b, a)));
                }
                assert forall|j: int|
                    0 <= j < k + 1 implies r.has_edge(
                    (#[trigger] g.row(ui)[j]).to as int,
                    ui,
                ) by {
                    if j < k {
                        assert(r0.has_edge(g.row(ui)[j].to as int, ui));
                        assert(r0.edges().dom().contains((g.row(ui)[j].to as int, ui)));
                        assert(r.edges().dom().contains((g.row(ui)[j].to as int, ui)));
                    } else {
                        assert(r.edges().dom().contains((vi, ui)));
                    }
                }
                assert forall|b: int|
                    0 <= b < n implies #[trigger] r.row(b) == in_row_upto(*g, b, ui)
                    + scan_extra(*g, b, ui, k as int + 1) by {
                    if b == vi {
                        assert(r.row(b) == r0.row(b).push(Edge { to: u, weight: e.weight }));
                        assert(scan_extra(*g, b, ui, k as int).len() == 0) by {
                            if exists|j: int|
                                0 <= j < k && (#[trigger] g.row(ui)[j]).to as int == b {
                                let j = choose|j: int|
                                    0 <= j < k && (#[trigger] g.row(ui)[j]).to as int == b;
                                assert(g.row(ui)[j].to != g.row(ui)[k as int].to);
                            }
                        }
                        assert(g.row(ui)[k as int].to as int == b);
                        assert(scan_extra(*g, b, ui, k as int + 1) == Seq::empty().push(
                            Edge { to: u, weight: g.edge_weight(ui, b) },
                        ));
                        assert(g.edge_weight(ui, b) == e.weight);
                        assert(r.row(b) =~= in_row_upto(*g, b, ui) + scan_extra(
                            *g,
                            b,
                            ui,
                            k as int + 1,
                        ));
                    } else {
                        assert(r.row(b) == r0.row(b));
                        assert(scan_extra(*g, b, ui, k as int + 1) == scan_extra(
                            *g,
                            b,
                            ui,
                            k as int,
                        )) by {
                            if exists|j: int|
                                0 <= j < k + 1 && (#[trigger] g.row(ui)[j]).to as int == b {
                                let j = choose|j: int|
                                    0 <= j < k + 1 && (#[trigger] g.row(ui)[j]).to as int == b;
                                assert(j < k);
                            }
                        }
                    }
                }
            }
            k += 1;
        }
        proof {
            assert forall|a: int, b: int|
                0 <= a < u + 1 && #[trigger] g.has_edge(a, b) implies r.has_edge(b, a) by {
                if a == u as int {
                    let j = choose|j: int|
                        0 <= j < g.row(a).len() && (#[trigger] g.row(a)[j]).to == b;
                    assert(r.has_edge(g.row(a)[j].to as int, a));
                }
            }
            let ui = u as int;
            assert forall|b: int|
                0 <= b < n implies #[trigger] r.row(b) == in_row_upto(*g, b, ui + 1) by {
                if g.has_edge(ui, b) {
                    let j = choose|j: int|
                        0 <= j < g.row(ui).len() && (#[trigger] g.row(ui)[j]).to == b;
                    assert(scan_extra(*g, b, ui, row_len as int) == Seq::empty().push(
                        Edge { to: u, weight: g.edge_weight(ui, b) },
                    ));
                    assert(in_row_upto(*g, b, ui + 1) == in_row_upto(*g, b, ui).push(
                        Edge { to: u, weight: g.edge_weight(ui, b) },
                    ));
                    assert(r.row(b) =~= in_row_upto(*g, b, ui + 1));
                } else {
                    assert(scan_extra(*g, b, ui, row_len as int).len() == 0) by {
                        if exists|j: int|
                            0 <= j < row_len && (#[trigger] g.row(ui)[j]).to as int == b {
                            let j = choose|j: int|
                                0 <= j < row_len && (#[trigger] g.row(ui)[j]).to as int == b;
                            assert(g.has_edge(ui, b));
                        }
                    }
                    assert(r.row(b) =~= in_row_upto(*g, b, ui + 1));
                }
            }
        }
        u += 1;
    }
    proof {
        assert forall|a: int, b: int| #[trigger] r.has_edge(b, a) <==> g.has_edge(a, b) by {
            if g.has_edge(a, b) {
                assert(0 <= a < n);
            }
        }
    }
    r
}

/// The edge relation of `r` is the flipped edge relation of `g`, weights
/// kept, over the same node indices.
pub open spec fn is_reverse_of<N>(r: Graph<N>, g: Graph<N>) -> bool {
    &&& r.n() == g.n()
    &&& forall|a: int, b: int| #[trigger] r.has_edge(b, a) <==> g.has_edge(a, b)
    &&& forall|a: int, b: int| #[trigger]
        g.has_edge(a, b) ==> r.edge_weight(b, a) == g.edge_weight(a, b)
}

/// Reversal is an involution on the edge structure: reversing a reversed
/// graph restores the original edge map exactly, so scores computed on the
/// doubly-reversed graph see the same graph as the original.
pub proof fn lemma_reverse_involution<N>(g: Graph<N>, r1: Graph<N>, r2: Graph<N>)
    requires
        g.wf(),
        r1.wf(),
        r2.wf(),
        is_reverse_of(r1, g),
        is_reverse_of(r2, r1),
    ensures
        r2.n() == g.n(),
        forall|a: int, b: int| #[trigger] r2.has_edge(a, b) <==> g.has_edge(a, b),
        r2.edges() == g.edges(),
{
    assert forall|a: int, b: int| #[trigger] r2.has_edge(a, b) <==> g.has_edge(a, b) by {
        assert(r2.has_edge(a, b) == r1.has_edge(b, a));
    }
    g.lemma_edges_dom();
    r1.lemma_edges_dom();
    r2.lemma_edges_dom();
    assert forall|a: int, b: int| #[trigger]
        g.has_edge(a, b) implies r2.edge_weight(a, b) == g.edge_weight(a, b) by {
        assert(r1.has_edge(b, a));
        assert(r1.edge_weight(b, a) == g.edge_weight(a, b));
        assert(r2.edge_weight(a, b) == r1.edge_weight(b, a));
    }
    assert forall|p: (int, int)|
        #[trigger] r2.edges().dom().contains(p) <==> g.edges().dom().contains(p) by {
        assert(r2.edges().dom().contains(p) == r2.has_edge(p.0, p.1));
        assert(g.edges().dom().contains(p) == g.has_edge(p.0, p.1));
    }
    assert(r2.edges() =~= g.edges());
}

/// Two strictly increasing sequences with the same members are equal.
proof fn lemma_sorted_unique_eq(s1: Seq<u64>, s2: Seq<u64>)
    requires
        strictly_increasing(s1),
        strictly_increasing(s2),
        forall|x: u64| s1.contains(x) <==> s2.contains(x),
    ensures
        s1 == s2,
    decreases s1.len(),
{
    if s1.len() == 0 {
        if s2.len() > 0 {
            assert(s2.contains(s2[0]));
            assert(false);
        }
        assert(s1 =~= s2);
    } else {
        assert(s1.contains(s1[0]));
        assert(s2.len() > 0);
        let i = choose|i: int| 0 <= i < s2.len() && s2[i] == s1[0];
        if i > 0 {
            assert(s2[0] < s2[i]);
        }
        assert(s2.contains(s2[0]));
        let i1 = choose|i1: int| 0 <= i1 < s1.len() && s1[i1] == s2[0];
        if i1 > 0 {
            assert(s1[0] < s1[i1]);
        }
        assert(s1[0] == s2[0]);
        let t1 = s1.drop_first();
        let t2 = s2.drop_first();
        assert forall|x: u64| t1.contains(x) <==> t2.contains(x) by {
            lemma_tail_members(s1, x);
            lemma_tail_members(s2, x);
        }
        lemma_sorted_unique_eq(t1, t2);
        assert(s1.len() == s2.len());
        assert forall|i: int| 0 <= i < s1.len() implies s1[i] == s2[i] by {
            if i > 0 {
                assert(t1[i - 1] == s1[i]);
                assert(t2[i - 1] == s2[i]);
            }
        }
        assert(s1 =~= s2);
    }
}

/// For a strictly increasing sequence, the tail holds exactly the members
/// above the head.
proof fn lemma_tail_members(s: Seq<u64>, x: u64)
    requires
        strictly_increasing(s),
        s.len() > 0,
    ensures
        s.drop_first().contains(x) <==> (s.contains(x) && x > s[0]),
{
    let t = s.drop_first();
    if t.contains(x) {
        let i = choose|i: int| 0 <= i < t.len() && t[i] == x;
        assert(s[i + 1] == x);
        assert(s[0] < s[i + 1]);
        assert(s.contains(x));
    }
    if s.contains(x) && x > s[0] {
        let i = choose|i: int| 0 <= i < s.len() && s[i] == x;
        assert(i > 0);
        assert(t[i - 1] == x);
    }
}

/// Two strictly increasing index sequences with the same members are equal.
proof fn lemma_sorted_unique_idx_eq(s1: Seq<usize>, s2: Seq<usize>)
    requires
        strictly_increasing_idx(s1),
        strictly_increasing_idx(s2),
        forall|i: int| seq_has_idx(s1, i) <==> seq_has_idx(s2, i),
    ensures
        s1 == s2,
    decreases s1.len(),
{
    if s1.len() == 0 {
        if s2.len() > 0 {
            assert(seq_has_idx(s2, s2[0] as int));
            assert(seq_has_idx(s1, s2[0] as int));
            assert(false);
        }
        assert(s1 =~= s2);
    } else {
        assert(seq_has_idx(s1, s1[0] as int));
        assert(seq_has_idx(s2, s1[0] as int));
        assert(s2.len() > 0);
        let i = choose|i: int| 0 <= i < s2.len() && (#[trigger] s2[i]) as int == s1[0] as int;
        if i > 0 {
            assert(s2[0] < s2[i]);
        }
        assert(seq_has_idx(s2, s2[0] as int));
        assert(seq_has_idx(s1, s2[0] as int));
        let i1 = choose|i1: int| 0 <= i1 < s1.len() && (#[trigger] s1[i1]) as int == s2[0] as int;
        if i1 > 0 {
            assert(s1[0] < s1[i1]);
        }
        assert(s1[0] == s2[0]);
        let t1 = s1.drop_first();
        let t2 = s2.drop_first();
        assert forall|x: int| seq_has_idx(t1, x) <==> seq_has_idx(t2, x) by {
            lemma_tail_members_idx(s1, x);
            lemma_tail_members_idx(s2, x);
        }
        lemma_sorted_unique_idx_eq(t1, t2);
        assert(s1.len() == s2.len());
        assert forall|i: int| 0 <= i < s1.len() implies s1[i] == s2[i] by {
            if i > 0 {
                assert(t1[i - 1] == s1[i]);
                assert(t2[i - 1] == s2[i]);
            }
        }
        assert(s1 =~= s2);
    }
}

/// For a strictly increasing index sequence, the tail holds exactly the
/// members above the head.
proof fn lemma_tail_members_idx(s: Seq<usize>, x: int)
    requires
        strictly_increasing_idx(s),
        s.len() > 0,
    ensures
        seq_has_idx(s.drop_first(), x) <==> (seq_has_idx(s, x) && x > s[0] as int),
{
    let t = s.drop_first();
    if seq_has_idx(t, x) {
        let i = choose|i: int| 0 <= i < t.len() && (#[trigger] t[i]) as int == x;
        assert(s[i + 1] as int == x);
        assert(s[0] < s[i + 1]);
        assert(seq_has_idx(s, x));
    }
    if seq_has_idx(s, x) && x > s[0] as int {
        let i = choose|i: int| 0 <= i < s.len() && (#[trigger] s[i]) as int == x;
        assert(i > 0);
        assert(t[i - 1] as int == x);
    }
}

/// An existing edge has both endpoints inside the graph.
proof fn lemma_has_edge_bounds<N>(g: Graph<N>, a: int, b: int)
    requires
        g.wf(),
        g.has_edge(a, b),
    ensures
        0 <= a < g.n(),
        0 <= b < g.n(),
{
    let k = choose|k: int| 0 <= k < g.row(a).len() && (#[trigger] g.row(a)[k]).to == b;
    assert(g.row_ok(a));
    assert(g.row(a)[k].to < g.nodes@.len());
}

/// Contraction is deterministic: any two results that stand in the
/// contraction relation to the same graph and keys agree exactly — same
/// node order, same member lists, same edge map — however they were
/// produced.
pub proof fn lemma_contract_deterministic<N>(
    g: Graph<N>,
    keys: Seq<u64>,
    cg1: Graph<u64>,
    m1: Seq<Vec<usize>>,
    cg2: Graph<u64>,
    m2: Seq<Vec<usize>>,
)
    requires
        cg1.wf(),
        cg2.wf(),
        is_contraction_of(cg1, m1, g, keys),
        is_contraction_of(cg2, m2, g, keys),
    ensures
        cg1.payloads() == cg2.payloads(),
        cg1.n() == cg2.n(),
        m1.len() == m2.len(),
        forall|j: int| 0 <= j < m1.len() ==> (#[trigger] m1[j])@ == m2[j]@,
        cg1.edges() == cg2.edges(),
{
    assert forall|x: u64| cg1.payloads().contains(x) <==> cg2.payloads().contains(x) by {}
    lemma_sorted_unique_eq(cg1.payloads(), cg2.payloads());
    let n = g.n();
    assert forall|j: int| 0 <= j < m1.len() implies (#[trigger] m1[j])@ == m2[j]@ by {
        assert forall|i: int| seq_has_idx(m1[j]@, i) <==> seq_has_idx(m2[j]@, i) by {
            if seq_has_idx(m1[j]@, i) && !(0 <= i < n) {
                let p = choose|p: int| 0 <= p < m1[j]@.len() && (#[trigger] m1[j]@[p]) as int == i;
                assert(m1[j]@[p] < n);
                assert(false);
            }
            if seq_has_idx(m2[j]@, i) && !(0 <= i < n) {
                let p = choose|p: int| 0 <= p < m2[j]@.len() && (#[trigger] m2[j]@[p]) as int == i;
                assert(m2[j]@[p] < n);
                assert(false);
            }
        }
        lemma_sorted_unique_idx_eq(m1[j]@, m2[j]@);
    }
    cg1.lemma_edges_dom();
    cg2.lemma_edges_dom();
    assert forall|p: (int, int)|
        #[trigger] cg1.edges().dom().contains(p) <==> cg2.edges().dom().contains(p) by {
        assert(cg1.edges().dom().contains(p) == cg1.has_edge(p.0, p.1));
        assert(cg2.edges().dom().contains(p) == cg2.has_edge(p.0, p.1));
        if cg1.has_edge(p.0, p.1) {
            lemma_has_edge_bounds(cg1, p.0, p.1);
        }
        if cg2.has_edge(p.0, p.1) {
            lemma_has_edge_bounds(cg2, p.0, p.1);
        }
    }
    assert forall|p: (int, int)| #[trigger] cg1.edges().dom().contains(p) implies cg1.edges()[p]
        == cg2.edges()[p] by {
        assert(cg1.has_edge(p.0, p.1) && cg2.has_edge(p.0, p.1));
        lemma_has_edge_bounds(cg1, p.0, p.1);
        assert(cg1.edges()[p] == cg1.edge_weight(p.0, p.1));
        assert(cg2.edges()[p] == cg2.edge_weight(p.0, p.1));
    }
    assert(cg1.edges() =~= cg2.edges());
}

/// Some entry among the first `k` of row `u`, or any entry of an earlier
/// row, leads from key `ka` to key `kb`.
spec fn crossing_upto<N>(g: Graph<N>, keys: Seq<u64>, ka: u64, kb: u64, u: int, k: int) -> bool {
    ||| exists|uu: int, j: int|
        0 <= uu < u && 0 <= j < g.row(uu).len() && keys[uu] == ka && keys[(
        #[trigger] g.row(uu)[j]).to as int] == kb
    ||| exists|j: int|
        0 <= j < k && keys[u] == ka && keys[(#[trigger] g.row(u)[j]).to as int] == kb
}

/// Inserts `x` into a strictly increasing vector, keeping it strictly
/// increasing and duplicate-free.
fn insert_sorted_unique(v: &mut Vec<u64>, x: u64)
    requires
        strictly_increasing(old(v)@),
    ensures
        strictly_increasing(final(v)@),
        forall|y: u64| final(v)@.contains(y) <==> (old(v)@.contains(y) || y == x),
{
    let n = v.len();
    let mut p: usize = 0;
    while p < n && v[p] < x
        invariant
            v@ == old(v)@,
            n == v@.len(),
            strictly_increasing(v@),
            0 <= p <= n,
            forall|q: int| 0 <= q < p ==> v@[q] < x,
        decreases n - p,
    {
        p += 1;
    }
    if p < n && v[p] == x {
        proof {
            assert(old(v)@[p as int] == x);
            assert(old(v)@.contains(x));
        }
        return;
    }
    let ghost oldseq = v@;
    v.insert(p, x);
    proof {
        oldseq.insert_ensures(p as int, x);
        assert(v@ == oldseq.insert(p as int, x));
        assert forall|i: int, j: int| 0 <= i < j < v@.len() implies v@[i] < v@[j] by {
            let pi = p as int;
            if j < pi {
                assert(v@[i] == oldseq[i] && v@[j] == oldseq[j]);
            } else if i > pi {
                assert(v@[i] == oldseq[i - 1] && v@[j] == oldseq[j - 1]);
            } else if i == pi {
                assert(v@[j] == oldseq[j - 1]);
                if j - 1 > pi - 1 + 1 {
                }
                assert(oldseq[pi] > x || pi == oldseq.len());
                if pi < oldseq.len() {
                    if j - 1 > pi {
                        assert(oldseq[pi] < oldseq[j - 1]);
                    }
                }
            } else if j == pi {
                assert(v@[i] == oldseq[i]);
            } else {
                // i < pi < j
                assert(v@[i] == oldseq[i] && v@[j] == oldseq[j - 1]);
                assert(oldseq[i] < x);
                assert(pi < oldseq.len() ==> oldseq[pi] > x);
                if j - 1 == pi {
                    assert(oldseq[j - 1] > x);
                } else {
                    assert(oldseq[pi] < oldseq[j - 1]);
                }
            }
        }
        assert forall|y: u64| v@.contains(y) <==> (oldseq.contains(y) || y == x) by {
            let pi = p as int;
            if v@.contains(y) {
                let i = choose|i: int| 0 <= i < v@.len() && v@[i] == y;
                if i < pi {
                    assert(oldseq[i] == y);
                } else if i > pi {
                    assert(oldseq[i - 1] == y);
                }
            }
            if oldseq.contains(y) {
                let i = choose|i: int| 0 <= i < oldseq.len() && oldseq[i] == y;
                if i < pi {
                    assert(v@[i] == y);
                } else {
                    assert(v@[i + 1] == y);
                }
            }
            if y == x {
                assert(v@[pi] == y);
            }
        }
    }
}

/// Finds the position of `x` in the vector by linear scan.
fn find_key(skeys: &Vec<u64>, x: u64) -> (r: Option<usize>)
    ensures
        match r {
            Some(j) => j < skeys@.len() && skeys@[j as int] == x,
            None => !skeys@.contains(x),
        },
{
    let n = skeys.len();
    let mut j: usize = 0;
    while j < n
        invariant
            n == skeys@.len(),
            0 <= j <= n,
            forall|q: int| 0 <= q < j ==> skeys@[q] != x,
        decreases n - j,
    {
        if skeys[j] == x {
            return Some(j);
        }
        j += 1;
    }
    None
}

/// The member lists match the keys: one ascending, in-range list per
/// distinct key, holding exactly the nodes with that key.
pub open spec fn members_lists_ok(
    members: Seq<Vec<usize>>,
    skeys: Seq<u64>,
    keys: Seq<u64>,
    n: int,
) -> bool {
    &&& members.len() == skeys.len()
    &&& forall|j: int| 0 <= j < members.len() ==> strictly_increasing_idx(#[trigger] members[j]@)
    &&& forall|j: int, p: int|
        0 <= j < members.len() && 0 <= p < members[j]@.len() ==> (#[trigger] members[j]@[p]) < n
    &&& forall|j: int, i: int|
        0 <= j < members.len() && 0 <= i < n ==> (#[trigger] seq_has_idx(members[j]@, i)
            <==> keys[i] == skeys[j])
}

/// What it means for `(cg, members)` to be the contraction of `g` by
/// `keys`: contracted nodes are the distinct keys in ascending order,
/// `members[j]` lists group `j`'s original node indices ascending, edges
/// exist exactly between distinct groups joined by some original edge, and
/// each carries the saturated total weight of the original edges inducing
/// it.
pub open spec fn is_contraction_of<N>(
    cg: Graph<u64>,
    members: Seq<Vec<usize>>,
    g: Graph<N>,
    keys: Seq<u64>,
) -> bool {
    &&& strictly_increasing(cg.payloads())
    &&& forall|x: u64| #[trigger] cg.payloads().contains(x) <==> keys.contains(x)
    &&& members_lists_ok(members, cg.payloads(), keys, g.n())
    &&& forall|a: int, b: int|
        0 <= a < cg.n() && 0 <= b < cg.n() ==> (#[trigger] cg.has_edge(a, b) <==> (a != b
            && crossing(g, keys, cg.payloads()[a], cg.payloads()[b])))
    &&& forall|a: int, b: int|
        0 <= a < cg.n() && 0 <= b < cg.n() && #[trigger] cg.has_edge(a, b) ==> cg.edge_weight(
            a,
            b,
        ) as int == (if cross_weight(g, keys, cg.payloads()[a], cg.payloads()[b])
            <= u64::MAX as int {
            cross_weight(g, keys, cg.payloads()[a], cg.payloads()[b])
        } else {
            u64::MAX as int
        })
}

/// Contracts a graph by a per-node key: nodes with equal keys merge into
/// one node of the result, one per distinct key in ascending key order (so
/// the result does not depend on any iteration order); edges inside a group
/// are dropped, edges between groups sum their weights (saturating at
/// `u64::MAX`). The key becomes the payload of the contracted node, and
/// `members[j]` lists the original node indices of group `j` in ascending
/// order.
pub fn contract_graph<N>(g: &Graph<N>, keys: &Vec<u64>) -> (r: (Graph<u64>, Vec<Vec<usize>>))
    requires
        g.wf(),
        keys@.len() == g.n(),
    ensures
        r.0.wf(),
        is_contraction_of(r.0, r.1@, *g, keys@),
{
    let n = g.node_count();
    // Distinct keys in ascending order.
    let mut skeys: Vec<u64> = Vec::new();
    let mut i: usize = 0;
    while i < n
        invariant
            keys@.len() == n,
            0 <= i <= n,
            strictly_increasing(skeys@),
            forall|y: u64| #[trigger] skeys@.contains(y) <==> keys@.take(i as int).contains(y),
        decreases n - i,
    {
        let ghost pre = skeys@;
        let x = keys[i];
        insert_sorted_unique(&mut skeys, x);
        proof {
            assert forall|y: u64| #[trigger]
                skeys@.contains(y) <==> keys@.take(i as int + 1).contains(y) by {
                if skeys@.contains(y) {
                    if pre.contains(y) {
                        let q = choose|q: int| 0 <= q < i && keys@.take(i as int)[q] == y;
                        assert(keys@.take(i as int + 1)[q] == y);
                    } else {
                        assert(y == x);
                        assert(keys@.take(i as int + 1)[i as int] == y);
                    }
                }
                if keys@.take(i as int + 1).contains(y) {
                    let q = choose|q: int|
                        0 <= q < i + 1 && (#[trigger] keys@.take(i as int + 1)[q]) == y;
                    if q < i as int {
                        assert(keys@.take(i as int)[q] == y);
                        assert(pre.contains(y));
                    } else {
                        assert(y == x);
                    }
                }
            }
        }
        i += 1;
    }
    proof {
        assert(keys@.take(n as int) =~= keys@);
    }
    let m = skeys.len();
    // The contracted graph: one node per distinct key.
    let mut cg: Graph<u64> = Graph::new();
    let mut j: usize = 0;
    while j < m
        invariant
            m == skeys@.len(),
            0 <= j <= m,
            cg.wf(),
            cg.n() == j,
            cg.payloads() == skeys@.take(j as int),
            cg.edges() == Map::<(int, int), u64>::empty(),
        decreases m - j,
    {
        let x = skeys[j];
        cg.add_node(x);
        proof {
            assert(cg.payloads() =~= skeys@.take(j as int + 1));
        }
        j += 1;
    }
    proof {
        assert(skeys@.take(m as int) =~= skeys@);
    }
    // Member lists, per group in key order, indices ascending.
    let mut members: Vec<Vec<usize>> = Vec::new();
    let mut j2: usize = 0;
    while j2 < m
        invariant
            m == skeys@.len(),
            keys@.len() == n,
            cg.wf(),
            cg.n() == m,
            cg.payloads() == skeys@,
            cg.edges() == Map::<(int, int), u64>::empty(),
            0 <= j2 <= m,
            members@.len() == j2,
            forall|jj: int| 0 <= jj < j2 ==> strictly_increasing_idx(#[trigger] members@[jj]@),
            forall|jj: int, p: int|
                0 <= jj < j2 && 0 <= p < members@[jj]@.len() ==> (#[trigger] members@[jj]@[p]) < n,
            forall|jj: int, ii: int|
                0 <= jj < j2 && 0 <= ii < n ==> (#[trigger] seq_has_idx(members@[jj]@, ii)
                    <==> keys@[ii] == skeys@[jj]),
        decreases m - j2,
    {
        let kx = skeys[j2];
        let mut row: Vec<usize> = Vec::new();
        let mut i2: usize = 0;
        while i2 < n
            invariant
                keys@.len() == n,
                0 <= i2 <= n,
                strictly_increasing_idx(row@),
                forall|p: int| 0 <= p < row@.len() ==> (#[trigger] row@[p]) < i2,
                forall|ii: int| 0 <= ii < i2 ==> (seq_has_idx(row@, ii) <==> keys@[ii] == kx),
            decreases n - i2,
        {
            let ghost pre = row@;
            if keys[i2] == kx {
                row.push(i2);
            }
            proof {
                assert forall|ii: int|
                    0 <= ii < i2 + 1 implies (seq_has_idx(row@, ii) <==> keys@[ii] == kx) by {
                    if ii < i2 as int {
                        if seq_has_idx(pre, ii) {
                            let p = choose|p: int| 0 <= p < pre.len() && (#[trigger] pre[p]) as int
                                == ii;
                            assert(row@[p] as int == ii);
                        }
                        if seq_has_idx(row@, ii) {
                            let p = choose|p: int|
                                0 <= p < row@.len() && (#[trigger] row@[p]) as int == ii;
                            assert(p < pre.len());
                            assert(pre[p] as int == ii);
                        }
                    } else {
                        if keys@[ii] == kx {
                            assert(row@[row@.len() - 1] as int == ii);
                        }
                        if seq_has_idx(row@, ii) {
                            let p = choose|p: int|
                                0 <= p < row@.len() && (#[trigger] row@[p]) as int == ii;
                            assert(p == row@.len() - 1 || pre[p] as int == ii);
                        }
                    }
                }
            }
            i2 += 1;
        }
        members.push(row);
        j2 += 1;
    }
    // Aggregate crossing edges into the contracted graph.
    proof {
        cg.lemma_edges_dom();
        assert forall|a: int, b: int| !(#[trigger] cg.has_edge(a, b)) by {
            assert(cg.edges().dom().contains((a, b)) == cg.has_edge(a, b));
        }
    }
    let mut u: usize = 0;
    while u < n
        invariant
            g.wf(),
            n == g.n(),
            keys@.len() == n,
            m == skeys@.len(),
            strictly_increasing(skeys@),
            forall|y: u64| #[trigger] skeys@.contains(y) <==> keys@.contains(y),
            cg.wf(),
            cg.n() == m,
            cg.payloads() == skeys@,
            members_lists_ok(members@, skeys@, keys@, n as int),
            0 <= u <= n,
            forall|a: int, b: int|
                0 <= a < m && 0 <= b < m ==> (#[trigger] cg.has_edge(a, b) <==> (a != b
                    && crossing_upto(*g, keys@, skeys@[a], skeys@[b], u as int, 0))),
            forall|a: int, b: int|
                0 <= a < m && 0 <= b < m && #[trigger] cg.has_edge(a, b) ==> cg.edge_weight(
                    a,
                    b,
                ) as int == (if cross_w_rows(*g, keys@, skeys@[a], skeys@[b], u as int)
                    <= u64::MAX as int {
                    cross_w_rows(*g, keys@, skeys@[a], skeys@[b], u as int)
                } else {
                    u64::MAX as int
                }),
        decreases n - u,
    {
        let d = g.adj[u].len();
        let mut k: usize = 0;
        while k < d
            invariant
                g.wf(),
                n == g.n(),
                keys@.len() == n,
                m == skeys@.len(),
                strictly_increasing(skeys@),
                forall|y: u64| #[trigger] skeys@.contains(y) <==> keys@.contains(y),
                cg.wf(),
                cg.n() == m,
                cg.payloads() == skeys@,
                members_lists_ok(members@, skeys@, keys@, n as int),
                u < n,
                d == g.row(u as int).len(),
                0 <= k <= d,
                forall|a: int, b: int|
                    0 <= a < m && 0 <= b < m ==> (#[trigger] cg.has_edge(a, b) <==> (a != b
                        && crossing_upto(*g, keys@, skeys@[a], skeys@[b], u as int, k as int))),
                forall|a: int, b: int|
                    0 <= a < m && 0 <= b < m && #[trigger] cg.has_edge(a, b) ==> cg.edge_weight(
                        a,
                        b,
                    ) as int == (if cross_w_rows(*g, keys@, skeys@[a], skeys@[b], u as int)
                        + cross_w_row(*g, keys@, skeys@[a], skeys@[b], u as int, k as int)
                        <= u64::MAX as int {
                        cross_w_rows(*g, keys@, skeys@[a], skeys@[b], u as int) + cross_w_row(
                            *g,
                            keys@,
                            skeys@[a],
                            skeys@[b],
                            u as int,
                            k as int,
                        )
                    } else {
                        u64::MAX as int
                    }),
            decreases d - k,
        {
            let e = g.adj[u][k];
            proof {
                assert(g.row_ok(u as int));
                assert(e.to < n);
            }
            let ka = keys[u];
            let kb = keys[e.to];
            let ghost cg_old = cg;
            if ka != kb {
                let gu = match find_key(&skeys, ka) {
                    Some(x) => x,
                    None => {
                        proof {
                            assert(keys@.contains(ka)) by {
                                assert(keys@[u as int] == ka);
                            }
                            assert(false);
                        }
                        0
                    },
                };
                let gv = match find_key(&skeys, kb) {
                    Some(x) => x,
                    None => {
                        proof {
                            assert(keys@.contains(kb)) by {
                                assert(keys@[e.to as int] == kb);
                            }
                            assert(false);
                        }
                        0
                    },
                };
                let cur = match cg.get_edge_weight(gu, gv) {
                    Some(w) => w,
                    None => 0,
                };
                let neww = if cur > u64::MAX - e.weight {
                    u64::MAX
                } else {
                    cur + e.weight
                };
                cg.add_or_update_edge(gu, gv, neww);
                proof {
                    lemma_contract_step(
                        *g,
                        keys@,
                        skeys@,
                        cg_old,
                        cg,
                        u as int,
                        k as int,
                        gu as int,
                        gv as int,
                        cur,
                        neww,
                    );
                }
            } else {
                proof {
                    assert forall|a: int, b: int|
                        0 <= a < m && 0 <= b < m implies ((#[trigger] cg.has_edge(a, b) <==> (a != b
                        && crossing_upto(*g, keys@, skeys@[a], skeys@[b], u as int, k as int + 1)))
                        && (cg.has_edge(a, b) ==> cross_w_row(
                        *g,
                        keys@,
                        skeys@[a],
                        skeys@[b],
                        u as int,
                        k as int + 1,
                    ) == cross_w_row(*g, keys@, skeys@[a], skeys@[b], u as int, k as int))) by {
                        lemma_skip_entry(*g, keys@, skeys@, a, b, u as int, k as int);
                    }
                }
            }
            k += 1;
        }
        proof {
            assert forall|a: int, b: int|
                0 <= a < m && 0 <= b < m implies ((crossing_upto(
                *g,
                keys@,
                skeys@[a],
                skeys@[b],
                u as int + 1,
                0,
            ) <==> crossing_upto(*g, keys@, skeys@[a], skeys@[b], u as int, d as int))
                && cross_w_rows(*g, keys@, skeys@[a], skeys@[b], u as int + 1) == cross_w_rows(
                *g,
                keys@,
                skeys@[a],
                skeys@[b],
                u as int,
            ) + cross_w_row(*g, keys@, skeys@[a], skeys@[b], u as int, d as int)) by {
                lemma_row_rollover(*g, keys@, skeys@[a], skeys@[b], u as int, d as int);
            }
        }
        u += 1;
    }
    proof {
        assert forall|a: int, b: int|
            0 <= a < m && 0 <= b < m implies (crossing_upto(
            *g,
            keys@,
            skeys@[a],
            skeys@[b],
            n as int,
            0,
        ) <==> crossing(*g, keys@, skeys@[a], skeys@[b])) by {
            let ka = skeys@[a];
            let kb = skeys@[b];
            if crossing_upto(*g, keys@, ka, kb, n as int, 0) {
                let (uu, jj) = choose|uu: int, j: int|
                    0 <= uu < n && 0 <= j < g.row(uu).len() && keys@[uu] == ka && keys@[(
                    #[trigger] g.row(uu)[j]).to as int] == kb;
                g.lemma_edge_at(uu, jj);
                assert(g.row_ok(uu));
                assert(g.has_edge(uu, g.row(uu)[jj].to as int));
            }
            if crossing(*g, keys@, ka, kb) {
                let (uu, vv) = choose|uu: int, vv: int|
                    0 <= uu < g.n() && 0 <= vv < g.n() && #[trigger] g.has_edge(uu, vv)
                        && keys@[uu] == ka && keys@[vv] == kb;
                let j = choose|j: int|
                    0 <= j < g.row(uu).len() && (#[trigger] g.row(uu)[j]).to == vv;
                assert(keys@[g.row(uu)[j].to as int] == kb);
            }
        }
        assert(is_contraction_of(cg, members@, *g, keys@));
    }
    (cg, members)
}

/// An entry whose two endpoint keys are equal, or which is out of every
/// cross pair, extends no cross prefix.
proof fn lemma_skip_entry<N>(
    g: Graph<N>,
    keys: Seq<u64>,
    skeys: Seq<u64>,
    a: int,
    b: int,
    u: int,
    k: int,
)
    requires
        g.wf(),
        keys.len() == g.n(),
        0 <= u < g.n(),
        0 <= k < g.row(u).len(),
        g.row(u)[k].to < g.n(),
        keys[u] == keys[g.row(u)[k].to as int],
        0 <= a < skeys.len(),
        0 <= b < skeys.len(),
        a != b ==> skeys[a] != skeys[b],
    ensures
        a != b ==> (crossing_upto(g, keys, skeys[a], skeys[b], u, k + 1) <==> crossing_upto(
            g,
            keys,
            skeys[a],
            skeys[b],
            u,
            k,
        )),
        cross_w_row(g, keys, skeys[a], skeys[b], u, k + 1) == cross_w_row(
            g,
            keys,
            skeys[a],
            skeys[b],
            u,
            k,
        ) + if a == b && keys[u] == skeys[a] {
            g.row(u)[k].weight as int
        } else {
            0
        },
{
    let ka = skeys[a];
    let kb = skeys[b];
    if a != b {
        assert(!(keys[u] == ka && keys[g.row(u)[k].to as int] == kb));
        if crossing_upto(g, keys, ka, kb, u, k + 1) && !crossing_upto(g, keys, ka, kb, u, k) {
            let j = choose|j: int|
                0 <= j < k + 1 && keys[u] == ka && keys[(#[trigger] g.row(u)[j]).to as int] == kb;
            assert(j == k);
            assert(false);
        }
    }
}

/// Finishing a row folds its partial sum into the row total.
proof fn lemma_row_rollover<N>(g: Graph<N>, keys: Seq<u64>, ka: u64, kb: u64, u: int, d: int)
    requires
        0 <= u,
        d == g.row(u).len(),
    ensures
        cross_w_rows(g, keys, ka, kb, u + 1) == cross_w_rows(g, keys, ka, kb, u) + cross_w_row(
            g,
            keys,
            ka,
            kb,
            u,
            d,
        ),
        crossing_upto(g, keys, ka, kb, u + 1, 0) <==> crossing_upto(g, keys, ka, kb, u, d),
{
    if crossing_upto(g, keys, ka, kb, u + 1, 0) && !crossing_upto(g, keys, ka, kb, u, d) {
        let (uu, j) = choose|uu: int, j: int|
            0 <= uu < u + 1 && 0 <= j < g.row(uu).len() && keys[uu] == ka && keys[(
            #[trigger] g.row(uu)[j]).to as int] == kb;
        assert(uu == u);
        assert(false);
    }
    if crossing_upto(g, keys, ka, kb, u, d) && !crossing_upto(g, keys, ka, kb, u + 1, 0) {
        assert(false);
    }
}

/// One aggregation step: rebinding the crossed pair to the saturated sum
/// keeps the whole edge map in line with the prefix aggregates.
proof fn lemma_contract_step<N>(
    g: Graph<N>,
    keys: Seq<u64>,
    skeys: Seq<u64>,
    cg_old: Graph<u64>,
    cg: Graph<u64>,
    u: int,
    k: int,
    gu: int,
    gv: int,
    cur: u64,
    neww: u64,
)
    requires
        g.wf(),
        keys.len() == g.n(),
        0 <= u < g.n(),
        0 <= k < g.row(u).len(),
        g.row(u)[k].to < g.n(),
        keys[u] != keys[g.row(u)[k].to as int],
        strictly_increasing(skeys),
        cg_old.wf(),
        cg.wf(),
        cg_old.n() == skeys.len(),
        cg.n() == skeys.len(),
        cg.payloads() == cg_old.payloads(),
        0 <= gu < skeys.len(),
        0 <= gv < skeys.len(),
        skeys[gu] == keys[u],
        skeys[gv] == keys[g.row(u)[k].to as int],
        cg.edges() == cg_old.edges().insert((gu, gv), neww),
        cur as int == if cg_old.has_edge(gu, gv) {
            cg_old.edge_weight(gu, gv) as int
        } else {
            0
        },
        neww as int == if cur as int + g.row(u)[k].weight as int <= u64::MAX as int {
            cur as int + g.row(u)[k].weight as int
        } else {
            u64::MAX as int
        },
        forall|a: int, b: int|
            0 <= a < skeys.len() && 0 <= b < skeys.len() ==> (#[trigger] cg_old.has_edge(a, b)
                <==> (a != b && crossing_upto(g, keys, skeys[a], skeys[b], u, k))),
        forall|a: int, b: int|
            0 <= a < skeys.len() && 0 <= b < skeys.len() && #[trigger] cg_old.has_edge(a, b)
                ==> cg_old.edge_weight(a, b) as int == (if cross_w_rows(
                g,
                keys,
                skeys[a],
                skeys[b],
                u,
            ) + cross_w_row(g, keys, skeys[a], skeys[b], u, k) <= u64::MAX as int {
                cross_w_rows(g, keys, skeys[a], skeys[b], u) + cross_w_row(
                    g,
                    keys,
                    skeys[a],
                    skeys[b],
                    u,
                    k,
                )
            } else {
                u64::MAX as int
            }),
    ensures
        forall|a: int, b: int|
            0 <= a < skeys.len() && 0 <= b < skeys.len() ==> (#[trigger] cg.has_edge(a, b) <==> (a
                != b && crossing_upto(g, keys, skeys[a], skeys[b], u, k + 1))),
        forall|a: int, b: int|
            0 <= a < skeys.len() && 0 <= b < skeys.len() && #[trigger] cg.has_edge(a, b)
                ==> cg.edge_weight(a, b) as int == (if cross_w_rows(g, keys, skeys[a], skeys[b], u)
                + cross_w_row(g, keys, skeys[a], skeys[b], u, k + 1) <= u64::MAX as int {
                cross_w_rows(g, keys, skeys[a], skeys[b], u) + cross_w_row(
                    g,
                    keys,
                    skeys[a],
                    skeys[b],
                    u,
                    k + 1,
                )
            } else {
                u64::MAX as int
            }),
{
    let m = skeys.len() as int;
    let ka = keys[u];
    let kb = keys[g.row(u)[k].to as int];
    cg.lemma_edges_dom();
    cg_old.lemma_edges_dom();
    assert(gu != gv) by {
        if gu == gv {
            assert(skeys[gu] == skeys[gv]);
        }
    }
    // Nonzero weight prefix for the crossed pair, and stability elsewhere.
    assert(cross_w_row(g, keys, ka, kb, u, k + 1) == cross_w_row(g, keys, ka, kb, u, k)
        + g.row(u)[k].weight as int);
    assert forall|a: int, b: int|
        0 <= a < m && 0 <= b < m implies (#[trigger] cg.has_edge(a, b) <==> (a != b
        && crossing_upto(g, keys, skeys[a], skeys[b], u, k + 1))) by {
        assert(cg.edges().dom().contains((a, b)) == cg.has_edge(a, b));
        assert(cg_old.edges().dom().contains((a, b)) == cg_old.has_edge(a, b));
        if a == gu && b == gv {
            assert(cg.edges().dom().contains((gu, gv)));
            assert(keys[(g.row(u)[k]).to as int] == kb);
            assert(crossing_upto(g, keys, ka, kb, u, k + 1));
        } else {
            assert(cg.has_edge(a, b) == cg_old.has_edge(a, b));
            if a != b && (a != gu || b != gv) {
                assert(skeys[a] != ka || skeys[b] != kb) by {
                    if a != gu {
                        if a < gu {
                            assert(skeys[a] < skeys[gu]);
                        } else {
                            assert(skeys[gu] < skeys[a]);
                        }
                    } else {
                        if b < gv {
                            assert(skeys[b] < skeys[gv]);
                        } else {
                            assert(skeys[gv] < skeys[b]);
                        }
                    }
                }
                assert(crossing_upto(g, keys, skeys[a], skeys[b], u, k + 1) <==> crossing_upto(
                    g,
                    keys,
                    skeys[a],
                    skeys[b],
                    u,
                    k,
                )) by {
                    if crossing_upto(g, keys, skeys[a], skeys[b], u, k + 1) && !crossing_upto(
                        g,
                        keys,
                        skeys[a],
                        skeys[b],
                        u,
                        k,
                    ) {
                        let j = choose|j: int|
                            0 <= j < k + 1 && keys[u] == skeys[a] && keys[(#[trigger] g.row(u)[j]).to
                                as int] == skeys[b];
                        assert(j == k);
                        assert(false);
                    }
                }
            }
        }
    }
    assert forall|a: int, b: int|
        0 <= a < m && 0 <= b < m && #[trigger] cg.has_edge(a, b) implies cg.edge_weight(
        a,
        b,
    ) as int == (if cross_w_rows(g, keys, skeys[a], skeys[b], u) + cross_w_row(
        g,
        keys,
        skeys[a],
        skeys[b],
        u,
        k + 1,
    ) <= u64::MAX as int {
        cross_w_rows(g, keys, skeys[a], skeys[b], u) + cross_w_row(g, keys, skeys[a], skeys[b], u, k + 1)
    } else {
        u64::MAX as int
    }) by {
        assert(cg.edges().dom().contains((a, b)) == cg.has_edge(a, b));
        assert(cg_old.edges().dom().contains((a, b)) == cg_old.has_edge(a, b));
        if a == gu && b == gv {
            assert(cg.edges()[(gu, gv)] == neww);
            assert(cg.edge_weight(gu, gv) == neww);
            let base = cross_w_rows(g, keys, ka, kb, u) + cross_w_row(g, keys, ka, kb, u, k);
            if cg_old.has_edge(gu, gv) {
                assert(cur as int == if base <= u64::MAX as int {
                    base
                } else {
                    u64::MAX as int
                });
            } else {
                assert(!crossing_upto(g, keys, ka, kb, u, k));
                lemma_no_crossing_zero(g, keys, ka, kb, u, k);
                assert(base == 0);
            }
        } else {
            assert(cg.has_edge(a, b) == cg_old.has_edge(a, b));
            assert(cg.edges()[(a, b)] == cg_old.edges()[(a, b)]);
            assert(cg.edge_weight(a, b) == cg_old.edge_weight(a, b));
            if a != b && (a != gu || b != gv) {
                assert(skeys[a] != ka || skeys[b] != kb) by {
                    if a != gu {
                        if a < gu {
                            assert(skeys[a] < skeys[gu]);
                        } else {
                            assert(skeys[gu] < skeys[a]);
                        }
                    } else {
                        if b < gv {
                            assert(skeys[b] < skeys[gv]);
                        } else {
                            assert(skeys[gv] < skeys[b]);
                        }
                    }
                }
                assert(cross_w_row(g, keys, skeys[a], skeys[b], u, k + 1) == cross_w_row(
                    g,
                    keys,
                    skeys[a],
                    skeys[b],
                    u,
                    k,
                ));
            }
        }
    }
}

/// Where no prefix entry crosses the pair, the prefix weight is zero.
proof fn lemma_no_crossing_zero<N>(
    g: Graph<N>,
    keys: Seq<u64>,
    ka: u64,
    kb: u64,
    u: int,
    k: int,
)
    requires
        !crossing_upto(g, keys, ka, kb, u, k),
        0 <= u,
        0 <= k,
    ensures
        cross_w_rows(g, keys, ka, kb, u) == 0,
        cross_w_row(g, keys, ka, kb, u, k) == 0,
    decreases u, k,
{
    if k > 0 {
        assert(!crossing_upto(g, keys, ka, kb, u, k - 1));
        lemma_no_crossing_zero(g, keys, ka, kb, u, k - 1);
        assert(!(keys[u] == ka && keys[g.row(u)[k - 1].to as int] == kb));
    } else if u > 0 {
        assert(!crossing_upto(g, keys, ka, kb, u - 1, g.row(u - 1).len() as int)) by {
            if crossing_upto(g, keys, ka, kb, u - 1, g.row(u - 1).len() as int) {
                assert(crossing_upto(g, keys, ka, kb, u, 0));
            }
        }
        lemma_no_crossing_zero(g, keys, ka, kb, u - 1, g.row(u - 1).len() as int);
        assert(cross_w_rows(g, keys, ka, kb, u) == cross_w_rows(g, keys, ka, kb, u - 1)
            + cross_w_row(g, keys, ka, kb, u - 1, g.row(u - 1).len() as int));
    }
}

} // verus!
