//! Betweenness centrality for directed, unweighted graphs, by Brandes'
//! algorithm: per-source BFS counting shortest paths, then dependency
//! accumulation in reverse finish order.
//!
//! Scores are fixed-point numbers in billionths. Shortest-path counts
//! saturate at `SIGMA_CAP` and dependencies at `u64::MAX`; the normalization
//! divides by `(n - 1) * (n - 2)` exactly as the unnormalized accumulation
//! does in the textbook algorithm, regardless of connectivity.

use vstd::prelude::*;
use crate::fixed::{FIXED_ONE, lemma_div_floor, zeros64};
use crate::graph::{Edge, Graph};
use vstd::set_lib::{lemma_int_range, lemma_len_subset, set_int_range};

verus! {

/// Shortest-path counts saturate here, so that every later product fits in
/// 128 bits.
pub const SIGMA_CAP: u64 = 0xFFFF_FFFF;

/// Some node has an edge into `v`.
pub open spec fn has_in_edge<N>(g: Graph<N>, v: int) -> bool {
    exists|u: int| 0 <= u < g.n() && #[trigger] g.has_edge(u, v)
}

/// Saturating addition on 64-bit counters.
fn sat_add64(a: u64, b: u64) -> (r: u64)
    ensures
        r as int == if a as int + b as int <= u64::MAX as int {
            a as int + b as int
        } else {
            u64::MAX as int
        },
{
    if a > u64::MAX - b {
        u64::MAX
    } else {
        a + b
    }
}

/// Saturating addition capped at `SIGMA_CAP`.
fn sat_add_sigma(a: u64, b: u64) -> (r: u64)
    requires
        a <= SIGMA_CAP,
        b <= SIGMA_CAP,
    ensures
        r <= SIGMA_CAP,
        r as int == if a as int + b as int <= SIGMA_CAP as int {
            a as int + b as int
        } else {
            SIGMA_CAP as int
        },
{
    if a > SIGMA_CAP - b {
        SIGMA_CAP
    } else {
        a + b
    }
}

/// The state of one source search: BFS distances (`n` means unreached),
/// saturated shortest-path counts, predecessor lists, the queue with its
/// read position, and the finish-order stack.
pub ghost struct SearchState {
    pub dist: Seq<usize>,
    pub sigma: Seq<u64>,
    pub pred: Seq<Seq<usize>>,
    pub queue: Seq<usize>,
    pub head: int,
    pub stack: Seq<usize>,
}

/// Bundles the executable search variables into one model state.
pub open spec fn cur_search(
    dist: Seq<usize>,
    sigma: Seq<u64>,
    pred: Seq<Seq<usize>>,
    queue: Seq<usize>,
    head: int,
    stack: Seq<usize>,
) -> SearchState {
    SearchState { dist, sigma, pred, queue, head, stack }
}

/// Predecessor rows as plain sequences.
pub open spec fn pred_view(pred: Seq<Vec<usize>>) -> Seq<Seq<usize>> {
    pred.map_values(|r: Vec<usize>| r@)
}

/// Saturating addition capped at `SIGMA_CAP`, as a mathematical value.
pub open spec fn sigma_sat_spec(a: u64, b: u64) -> u64 {
    if a + b <= SIGMA_CAP {
        (a + b) as u64
    } else {
        SIGMA_CAP
    }
}

/// Saturating 64-bit addition, as a mathematical value.
pub open spec fn sat64_spec(a: u64, b: u64) -> u64 {
    if a + b <= u64::MAX {
        (a + b) as u64
    } else {
        u64::MAX
    }
}

/// The search state after scanning the first `k` out-edges of the node `v`
/// just popped from the queue.
pub open spec fn search_row_spec(
    st: SearchState,
    row: Seq<Edge>,
    v: usize,
    n: usize,
    k: int,
) -> SearchState
    decreases k,
{
    if k <= 0 {
        st
    } else {
        let st0 = search_row_spec(st, row, v, n, k - 1);
        let w = row[k - 1].to;
        let dv = st0.dist[v as int];
        let st1 = if st0.dist[w as int] == n {
            SearchState {
                dist: st0.dist.update(w as int, (dv + 1) as usize),
                queue: st0.queue.push(w),
                ..st0
            }
        } else {
            st0
        };
        if st1.dist[w as int] == dv + 1 {
            SearchState {
                sigma: st1.sigma.update(
                    w as int,
                    sigma_sat_spec(st1.sigma[w as int], st1.sigma[v as int]),
                ),
                pred: st1.pred.update(w as int, st1.pred[w as int].push(v)),
                ..st1
            }
        } else {
            st1
        }
    }
}

/// The state right after popping `v` from the queue: the read position
/// advances and `v` joins the finish stack.
pub open spec fn search_step_partial(st: SearchState, v: usize) -> SearchState {
    SearchState { head: st.head + 1, stack: st.stack.push(v), ..st }
}

/// One BFS step: pop the node at the head of the queue, stack it, and scan
/// its whole adjacency row.
pub open spec fn search_step_spec(st: SearchState, rows: Seq<Seq<Edge>>, n: usize) -> SearchState {
    let v = st.queue[st.head];
    let st1 = search_step_partial(st, v);
    search_row_spec(st1, rows[v as int], v, n, rows[v as int].len() as int)
}

/// The BFS run to a fixed point, one queue pop per unit of fuel; `n` units
/// suffice because every node enters the queue at most once.
pub open spec fn search_run_spec(
    st: SearchState,
    rows: Seq<Seq<Edge>>,
    n: usize,
    fuel: nat,
) -> SearchState
    decreases fuel,
{
    if fuel == 0 {
        st
    } else {
        let st2 = if st.head < st.queue.len() {
            search_step_spec(st, rows, n)
        } else {
            st
        };
        search_run_spec(st2, rows, n, (fuel - 1) as nat)
    }
}

/// The search state before the first pop: only the source is reached, with
/// distance zero and one path.
pub open spec fn search_init_spec(n: usize, s: usize) -> SearchState {
    SearchState {
        dist: Seq::new(n as nat, |i: int| n).update(s as int, 0),
        sigma: Seq::new(n as nat, |i: int| 0u64).update(s as int, 1),
        pred: Seq::new(n as nat, |i: int| Seq::<usize>::empty()),
        queue: Seq::<usize>::empty().push(s),
        head: 0,
        stack: Seq::<usize>::empty(),
    }
}

/// A stalled search — queue drained — no longer moves.
proof fn lemma_search_stalled(st: SearchState, rows: Seq<Seq<Edge>>, n: usize, fuel: nat)
    requires
        st.head >= st.queue.len(),
    ensures
        search_run_spec(st, rows, n, fuel) == st,
    decreases fuel,
{
    if fuel > 0 {
        lemma_search_stalled(st, rows, n, (fuel - 1) as nat);
    }
}

/// Fuel composes: running `a + b` steps is running `a`, then `b`.
proof fn lemma_search_run_split(
    st: SearchState,
    rows: Seq<Seq<Edge>>,
    n: usize,
    a: nat,
    b: nat,
)
    ensures
        search_run_spec(st, rows, n, a + b) == search_run_spec(
            search_run_spec(st, rows, n, a),
            rows,
            n,
            b,
        ),
    decreases a,
{
    if a > 0 {
        let st2 = if st.head < st.queue.len() {
            search_step_spec(st, rows, n)
        } else {
            st
        };
        lemma_search_run_split(st2, rows, n, (a - 1) as nat, b);
        assert(a + b - 1 == (a - 1) + b);
    }
}

/// Dependencies of `w` handed back along its first `x` predecessors.
pub open spec fn accum_row_spec(
    delta: Seq<u64>,
    w: usize,
    preds: Seq<usize>,
    sigma: Seq<u64>,
    x: int,
) -> Seq<u64>
    decreases x,
{
    if x <= 0 {
        delta
    } else {
        let d0 = accum_row_spec(delta, w, preds, sigma, x - 1);
        let v = preds[x - 1];
        if sigma[w as int] > 0 {
            let num = (sigma[v as int] as int) * (FIXED_ONE as int + d0[w as int] as int);
            let term128 = num / (sigma[w as int] as int);
            let term = if term128 > u64::MAX as int {
                u64::MAX
            } else {
                term128 as u64
            };
            d0.update(v as int, sat64_spec(d0[v as int], term))
        } else {
            d0
        }
    }
}

/// Dependency accumulation in reverse finish order: pop the stack, hand the
/// popped node's dependency to its predecessors, and credit it to the
/// betweenness total unless it is the source.
pub open spec fn accum_run_spec(
    delta: Seq<u64>,
    betw: Seq<u64>,
    stack: Seq<usize>,
    pred: Seq<Seq<usize>>,
    sigma: Seq<u64>,
    s: usize,
) -> (Seq<u64>, Seq<u64>)
    decreases stack.len(),
{
    if stack.len() == 0 {
        (delta, betw)
    } else {
        let w = stack.last();
        let d1 = accum_row_spec(delta, w, pred[w as int], sigma, pred[w as int].len() as int);
        let b1 = if w != s {
            betw.update(w as int, sat64_spec(betw[w as int], d1[w as int]))
        } else {
            betw
        };
        accum_run_spec(d1, b1, stack.drop_last(), pred, sigma, s)
    }
}

/// What one full Brandes source pass adds to the running totals.
pub open spec fn source_pass_spec(
    betw: Seq<u64>,
    rows: Seq<Seq<Edge>>,
    n: usize,
    s: usize,
) -> Seq<u64> {
    let st = search_run_spec(search_init_spec(n, s), rows, n, n as nat);
    accum_run_spec(zeros64(n as int), betw, st.stack, st.pred, st.sigma, s).1
}

/// The raw totals after the passes of the first `s` sources.
pub open spec fn passes_spec(rows: Seq<Seq<Edge>>, n: usize, s: int) -> Seq<u64>
    decreases s,
{
    if s <= 0 {
        zeros64(n as int)
    } else {
        source_pass_spec(passes_spec(rows, n, s - 1), rows, n, (s - 1) as usize)
    }
}

/// The betweenness vector of a graph: zero for two nodes or fewer, else the
/// raw Brandes totals of every source, each entry divided by
/// `(n - 1) * (n - 2)`.
pub open spec fn betweenness_spec<N>(g: Graph<N>) -> Seq<u64> {
    let n = g.n();
    if n <= 2 {
        zeros64(n)
    } else {
        let rows = crate::pagerank::weighted_rows_view(g);
        let raw = passes_spec(rows, n as usize, n);
        Seq::new(n as nat, |i: int| ((raw[i] as int) / ((n - 1) * (n - 2))) as u64)
    }
}

/// One Brandes source pass: BFS from `s` with shortest-path counting, then
/// dependency accumulation added into `betw`. Nodes without an out-edge
/// gather no dependency, and nodes without an in-edge other than the source
/// are never reached, so zero entries of those kinds stay zero.
fn brandes_source<N>(g: &Graph<N>, n: usize, s: usize, betw: &mut Vec<u64>)
    requires
        g.wf(),
        n == g.n(),
        1 <= n,
        s < n,
        old(betw)@.len() == n,
    ensures
        final(betw)@.len() == n,
        forall|i: int|
            0 <= i < n && g.out_degree(i) == 0 && old(betw)@[i] == 0 ==> final(betw)@[i] == 0,
        forall|i: int|
            0 <= i < n && !has_in_edge(*g, i) && old(betw)@[i] == 0 ==> final(betw)@[i] == 0,
        final(betw)@ == source_pass_spec(
            old(betw)@,
            crate::pagerank::weighted_rows_view(*g),
            n,
            s,
        ),
{
    let ghost ni = n as int;
    let ghost rows = crate::pagerank::weighted_rows_view(*g);
    // dist == n means "not reached"; sigma counts shortest paths, saturated.
    let mut dist: Vec<usize> = Vec::new();
    let mut sigma: Vec<u64> = Vec::new();
    let mut pred: Vec<Vec<usize>> = Vec::new();
    let mut i: usize = 0;
    while i < n
        invariant
            0 <= i <= n,
            dist@.len() == i,
            sigma@.len() == i,
            pred@.len() == i,
            forall|j: int| 0 <= j < i ==> dist@[j] == n,
            forall|j: int| 0 <= j < i ==> sigma@[j] == 0,
            forall|j: int| 0 <= j < i ==> (#[trigger] pred@[j])@.len() == 0,
        decreases n - i,
    {
        dist.push(n);
        sigma.push(0);
        pred.push(Vec::new());
        i += 1;
    }
    dist.set(s, 0);
    sigma.set(s, 1);
    let mut queue: Vec<usize> = Vec::new();
    queue.push(s);
    let mut stack: Vec<usize> = Vec::new();
    let mut head: usize = 0;
    let ghost init_st = search_init_spec(n, s);
    let ghost mut vset: Set<int> = Set::empty().insert(s as int);
    proof {
        vstd::set::axiom_set_insert_len(Set::<int>::empty(), s as int);
        lemma_int_range(0, ni);
        lemma_len_subset(vset, set_int_range(0, ni));
        assert(dist@ =~= init_st.dist);
        assert(sigma@ =~= init_st.sigma);
        assert(pred_view(pred@) =~~= init_st.pred);
        assert(queue@ =~= init_st.queue);
        assert(stack@ =~= init_st.stack);
        assert(cur_search(dist@, sigma@, pred_view(pred@), queue@, 0, stack@) == init_st);
        assert(search_run_spec(init_st, rows, n, 0) == init_st);
    }
    while head < queue.len()
        invariant
            g.wf(),
            ni == n as int,
            n == g.n(),
            1 <= n,
            s < n,
            dist@.len() == n,
            sigma@.len() == n,
            pred@.len() == n,
            rows == crate::pagerank::weighted_rows_view(*g),
            init_st == search_init_spec(n, s),
            0 <= head <= queue@.len(),
            queue@.len() == vset.len(),
            vset.finite(),
            vset.len() <= n,
            forall|x: int| 0 <= x < queue@.len() ==> (#[trigger] queue@[x]) < n,
            forall|x: int| 0 <= x < queue@.len() ==> vset.contains(#[trigger] queue@[x] as int),
            forall|v: int| #[trigger] vset.contains(v) <==> (0 <= v < n && dist@[v] < n),
            forall|v: int| #[trigger] vset.contains(v) ==> (dist@[v] as int) < vset.len(),
            forall|j: int| 0 <= j < n ==> #[trigger] sigma@[j] <= SIGMA_CAP,
            forall|w: int, x: int|
                0 <= w < n && 0 <= x < pred@[w]@.len() ==> g.has_edge(
                    (#[trigger] pred@[w]@[x]) as int,
                    w,
                ),
            forall|x: int|
                0 <= x < stack@.len() ==> (#[trigger] stack@[x]) < n && (stack@[x] as int
                    == s as int || has_in_edge(*g, stack@[x] as int)),
            forall|x: int|
                0 <= x < queue@.len() ==> (queue@[x] as int == s as int || has_in_edge(
                    *g,
                    (#[trigger] queue@[x]) as int,
                )),
            cur_search(dist@, sigma@, pred_view(pred@), queue@, head as int, stack@)
                == search_run_spec(init_st, rows, n, head as nat),
        decreases n - head,
    {
        let ghost st_before = cur_search(
            dist@,
            sigma@,
            pred_view(pred@),
            queue@,
            head as int,
            stack@,
        );
        let v = queue[head];
        head += 1;
        stack.push(v);
        let ghost st_pop = cur_search(
            dist@,
            sigma@,
            pred_view(pred@),
            queue@,
            head as int,
            stack@,
        );
        proof {
            assert(st_pop == search_step_partial(st_before, v));
            assert(rows[v as int] == g.row(v as int));
        }
        let d = g.adj[v].len();
        let mut k: usize = 0;
        while k < d
            invariant
                g.wf(),
                ni == n as int,
                n == g.n(),
                1 <= n,
                s < n,
                v < n,
                vset.contains(v as int),
                d == g.row(v as int).len(),
                0 <= k <= d,
                dist@.len() == n,
                sigma@.len() == n,
                pred@.len() == n,
                0 <= head <= queue@.len(),
                queue@.len() == vset.len(),
                vset.finite(),
                vset.len() <= n,
                forall|x: int| 0 <= x < queue@.len() ==> (#[trigger] queue@[x]) < n,
                forall|x: int|
                    0 <= x < queue@.len() ==> vset.contains(#[trigger] queue@[x] as int),
                forall|w: int| #[trigger] vset.contains(w) <==> (0 <= w < n && dist@[w] < n),
                forall|w: int| #[trigger] vset.contains(w) ==> (dist@[w] as int) < vset.len(),
                forall|j: int| 0 <= j < n ==> #[trigger] sigma@[j] <= SIGMA_CAP,
                forall|w: int, x: int|
                    0 <= w < n && 0 <= x < pred@[w]@.len() ==> g.has_edge(
                        (#[trigger] pred@[w]@[x]) as int,
                        w,
                    ),
                forall|x: int|
                    0 <= x < stack@.len() ==> (#[trigger] stack@[x]) < n && (stack@[x] as int
                        == s as int || has_in_edge(*g, stack@[x] as int)),
                forall|x: int|
                    0 <= x < queue@.len() ==> (queue@[x] as int == s as int || has_in_edge(
                        *g,
                        (#[trigger] queue@[x]) as int,
                    )),
                rows == crate::pagerank::weighted_rows_view(*g),
                init_st == search_init_spec(n, s),
                rows[v as int] == g.row(v as int),
                st_pop == search_step_partial(st_before, v),
                st_before == search_run_spec(init_st, rows, n, (head - 1) as nat),
                v == st_before.queue[st_before.head],
                st_before.head < st_before.queue.len(),
                head >= 1,
                cur_search(dist@, sigma@, pred_view(pred@), queue@, head as int, stack@)
                    == search_row_spec(st_pop, g.row(v as int), v, n, k as int),
            decreases d - k,
        {
            let w = g.adj[v][k].to;
            proof {
                g.lemma_edge_at(v as int, k as int);
                assert(g.row_ok(v as int));
                assert(g.has_edge(v as int, w as int));
                assert(has_in_edge(*g, w as int));
            }
            let dv = dist[v];
            if dist[w] == n {
                proof {
                    assert(!vset.contains(w as int));
                    vstd::set::axiom_set_insert_len(vset, w as int);
                    let vset_new = vset.insert(w as int);
                    lemma_int_range(0, ni);
                    lemma_len_subset(vset_new, set_int_range(0, ni));
                    vset = vset_new;
                }
                dist.set(w, dv + 1);
                queue.push(w);
            }
            if dist[w] == dv + 1 {
                let sw = sigma[w];
                let sv = sigma[v];
                let ns = sat_add_sigma(sw, sv);
                sigma.set(w, ns);
                pred[w].push(v);
                proof {
                    assert(pred@[w as int]@.last() == v);
                    assert forall|ww: int, x: int|
                        0 <= ww < n && 0 <= x < pred@[ww]@.len() implies g.has_edge(
                        (#[trigger] pred@[ww]@[x]) as int,
                        ww,
                    ) by {
                        if ww == w as int && x == pred@[ww]@.len() - 1 {
                            assert(pred@[ww]@[x] == v);
                        }
                    }
                }
            }
            proof {
                let stm = search_row_spec(st_pop, g.row(v as int), v, n, k as int + 1);
                assert(dist@ =~= stm.dist);
                assert(sigma@ =~= stm.sigma);
                assert(queue@ =~= stm.queue);
                assert(stack@ =~= stm.stack);
                assert(pred_view(pred@) =~~= stm.pred);
                assert(cur_search(dist@, sigma@, pred_view(pred@), queue@, head as int, stack@)
                    == stm);
            }
            k += 1;
        }
        proof {
            assert(cur_search(dist@, sigma@, pred_view(pred@), queue@, head as int, stack@)
                == search_step_spec(st_before, rows, n));
            assert(search_run_spec(st_before, rows, n, 1) == search_step_spec(
                st_before,
                rows,
                n,
            )) by {
                let st2 = search_step_spec(st_before, rows, n);
                assert(search_run_spec(st2, rows, n, 0) == st2);
            }
            assert(search_run_spec(init_st, rows, n, head as nat) == search_step_spec(
                st_before,
                rows,
                n,
            )) by {
                lemma_search_run_split(init_st, rows, n, (head - 1) as nat, 1);
                assert((head - 1) as nat + 1nat == head as nat);
            }
        }
    }
    let ghost final_st = search_run_spec(init_st, rows, n, n as nat);
    proof {
        let cur = cur_search(dist@, sigma@, pred_view(pred@), queue@, head as int, stack@);
        lemma_search_run_split(init_st, rows, n, head as nat, (n - head) as nat);
        lemma_search_stalled(cur, rows, n, (n - head) as nat);
        assert(head as nat + (n - head) as nat == n as nat);
        assert(final_st == cur);
    }
    // Dependency accumulation in reverse finish order.
    let mut delta: Vec<u64> = Vec::new();
    let mut i2: usize = 0;
    while i2 < n
        invariant
            0 <= i2 <= n,
            delta@.len() == i2,
            forall|j: int| 0 <= j < i2 ==> delta@[j] == 0,
        decreases n - i2,
    {
        delta.push(0);
        i2 += 1;
    }
    proof {
        assert(delta@ =~= zeros64(n as int));
    }
    while stack.len() > 0
        invariant
            g.wf(),
            n == g.n(),
            1 <= n,
            s < n,
            sigma@.len() == n,
            pred@.len() == n,
            delta@.len() == n,
            betw@.len() == n,
            rows == crate::pagerank::weighted_rows_view(*g),
            final_st == search_run_spec(init_st, rows, n, n as nat),
            init_st == search_init_spec(n, s),
            sigma@ == final_st.sigma,
            pred_view(pred@) == final_st.pred,
            accum_run_spec(delta@, betw@, stack@, final_st.pred, final_st.sigma, s)
                == accum_run_spec(
                zeros64(n as int),
                old(betw)@,
                final_st.stack,
                final_st.pred,
                final_st.sigma,
                s,
            ),
            forall|w: int, x: int|
                0 <= w < n && 0 <= x < pred@[w]@.len() ==> g.has_edge(
                    (#[trigger] pred@[w]@[x]) as int,
                    w,
                ),
            forall|x: int|
                0 <= x < stack@.len() ==> (#[trigger] stack@[x]) < n && (stack@[x] as int
                    == s as int || has_in_edge(*g, stack@[x] as int)),
            forall|j: int| 0 <= j < n ==> #[trigger] sigma@[j] <= SIGMA_CAP,
            forall|j: int| 0 <= j < n && g.out_degree(j) == 0 ==> #[trigger] delta@[j] == 0,
            forall|j: int|
                0 <= j < n && g.out_degree(j) == 0 && old(betw)@[j] == 0 ==> #[trigger] betw@[j]
                    == 0,
            forall|j: int|
                0 <= j < n && !has_in_edge(*g, j) && old(betw)@[j] == 0 ==> #[trigger] betw@[j]
                    == 0,
        decreases stack@.len(),
    {
        let ghost stack_pre = stack@;
        let ghost betw_entry = betw@;
        let ghost delta_entry = delta@;
        let w = match stack.pop() {
            Some(x) => x,
            None => {
                // Unreachable: the loop condition guarantees a non-empty stack.
                proof {
                    assert(false);
                }
                return;
            },
        };
        proof {
            assert(w == stack_pre.last());
            assert(stack@ == stack_pre.drop_last());
        }
        let pd = pred[w].len();
        let mut x: usize = 0;
        while x < pd
            invariant
                g.wf(),
                n == g.n(),
                1 <= n,
                s < n,
                w < n,
                pd == pred@[w as int]@.len(),
                0 <= x <= pd,
                sigma@.len() == n,
                pred@.len() == n,
                delta@.len() == n,
                forall|j: int| 0 <= j < n ==> #[trigger] sigma@[j] <= SIGMA_CAP,
                forall|ww: int, xx: int|
                    0 <= ww < n && 0 <= xx < pred@[ww]@.len() ==> g.has_edge(
                        (#[trigger] pred@[ww]@[xx]) as int,
                        ww,
                    ),
                forall|j: int| 0 <= j < n && g.out_degree(j) == 0 ==> #[trigger] delta@[j] == 0,
                sigma@ == final_st.sigma,
                pred_view(pred@) == final_st.pred,
                delta@ == accum_row_spec(
                    delta_entry,
                    w,
                    final_st.pred[w as int],
                    final_st.sigma,
                    x as int,
                ),
            decreases pd - x,
        {
            let v = pred[w][x];
            proof {
                assert(g.has_edge(pred@[w as int]@[x as int] as int, w as int));
                assert(v < n);
            }
            let sw = sigma[w];
            if sw > 0 {
                let sv = sigma[v];
                let dw = delta[w];
                proof {
                    assert((sv as int) * (FIXED_ONE as int + dw as int) <= (SIGMA_CAP as int) * (
                    FIXED_ONE as int + u64::MAX as int)) by (nonlinear_arith)
                        requires
                            0 <= sv as int <= SIGMA_CAP as int,
                            0 <= dw as int <= u64::MAX as int,
                    {}
                }
                let num: u128 = (sv as u128) * (FIXED_ONE as u128 + dw as u128);
                let term128: u128 = num / (sw as u128);
                let term: u64 = if term128 > u64::MAX as u128 {
                    u64::MAX
                } else {
                    term128 as u64
                };
                let dv = delta[v];
                let nd = sat_add64(dv, term);
                delta.set(v, nd);
                proof {
                    assert(g.has_edge(v as int, w as int));
                    assert(g.out_degree(v as int) > 0);
                }
            }
            proof {
                assert(pred_view(pred@)[w as int] == pred@[w as int]@);
                assert(delta@ =~= accum_row_spec(
                    delta_entry,
                    w,
                    final_st.pred[w as int],
                    final_st.sigma,
                    x as int + 1,
                ));
            }
            x += 1;
        }
        if w != s {
            let bw = betw[w];
            let dw = delta[w];
            let nb = sat_add64(bw, dw);
            betw.set(w, nb);
            proof {
                assert(w as int == s as int || has_in_edge(*g, w as int));
                assert(has_in_edge(*g, w as int));
                if g.out_degree(w as int) == 0 {
                    assert(delta@[w as int] == 0);
                    assert(nb == bw);
                }
            }
        }
        proof {
            let d1 = accum_row_spec(
                delta_entry,
                w,
                final_st.pred[w as int],
                final_st.sigma,
                final_st.pred[w as int].len() as int,
            );
            assert(delta@ == d1);
            let b1 = if w != s {
                betw_entry.update(w as int, sat64_spec(betw_entry[w as int], d1[w as int]))
            } else {
                betw_entry
            };
            assert(betw@ =~= b1);
            assert(accum_run_spec(delta_entry, betw_entry, stack_pre, final_st.pred,
                final_st.sigma, s) == accum_run_spec(
                delta@,
                betw@,
                stack@,
                final_st.pred,
                final_st.sigma,
                s,
            ));
        }
    }
    proof {
        assert(accum_run_spec(delta@, betw@, stack@, final_st.pred, final_st.sigma, s) == (
        delta@,
        betw@,
        ));
        assert(betw@ == source_pass_spec(old(betw)@, rows, n, s));
    }
}

/// Betweenness centrality (Brandes) for a directed graph, treating every
/// edge as unit length. Entries are normalized by `1 / ((n-1)(n-2))` for
/// `n > 2`; for `n <= 2` the result is all zeros, and so are the entries of
/// nodes that no shortest path can pass through: nodes without an in-edge
/// or without an out-edge.
pub fn betweenness_centrality<N>(g: &Graph<N>) -> (b: Vec<u64>)
    requires
        g.wf(),
    ensures
        b@.len() == g.n(),
        b@ == betweenness_spec(*g),
        g.n() <= 2 ==> forall|i: int| 0 <= i < g.n() ==> b@[i] == 0,
        forall|i: int| 0 <= i < g.n() && g.out_degree(i) == 0 ==> #[trigger] b@[i] == 0,
        forall|i: int| 0 <= i < g.n() && !has_in_edge(*g, i) ==> #[trigger] b@[i] == 0,
{
    let ghost rows = crate::pagerank::weighted_rows_view(*g);
    let n = g.node_count();
    let mut betw: Vec<u64> = Vec::new();
    let mut i: usize = 0;
    while i < n
        invariant
            0 <= i <= n,
            betw@.len() == i,
            forall|j: int| 0 <= j < i ==> betw@[j] == 0,
        decreases n - i,
    {
        betw.push(0);
        i += 1;
    }
    if n <= 2 {
        proof {
            assert(betw@ =~= betweenness_spec(*g));
        }
        return betw;
    }
    proof {
        assert(betw@ =~= zeros64(n as int));
    }
    let mut s: usize = 0;
    while s < n
        invariant
            g.wf(),
            n == g.n(),
            3 <= n,
            0 <= s <= n,
            betw@.len() == n,
            rows == crate::pagerank::weighted_rows_view(*g),
            betw@ == passes_spec(rows, n, s as int),
            forall|j: int| 0 <= j < n && g.out_degree(j) == 0 ==> #[trigger] betw@[j] == 0,
            forall|j: int| 0 <= j < n && !has_in_edge(*g, j) ==> #[trigger] betw@[j] == 0,
        decreases n - s,
    {
        brandes_source(g, n, s, &mut betw);
        proof {
            assert(betw@ == passes_spec(rows, n, s as int + 1));
        }
        s += 1;
    }
    // Directed normalization: divide by (n - 1) * (n - 2).
    proof {
        assert(usize::MAX as int <= u64::MAX as int);
        assert((n as int - 1) * (n as int - 2) >= 2 && (n as int - 1) * (n as int - 2) <= (
        u64::MAX as int) * (u64::MAX as int)) by (nonlinear_arith)
            requires
                3 <= n as int <= u64::MAX as int,
        {}
        assert((u64::MAX as int) * (u64::MAX as int) < u128::MAX as int);
    }
    let denom: u128 = ((n - 1) as u128) * ((n - 2) as u128);
    let mut r: Vec<u64> = Vec::new();
    let mut j: usize = 0;
    while j < n
        invariant
            g.wf(),
            n == g.n(),
            3 <= n,
            denom as int == (n as int - 1) * (n as int - 2),
            denom >= 2,
            0 <= j <= n,
            betw@.len() == n,
            rows == crate::pagerank::weighted_rows_view(*g),
            betw@ == passes_spec(rows, n, n as int),
            r@.len() == j,
            forall|x: int|
                0 <= x < j ==> (#[trigger] r@[x]) as int == (betw@[x] as int) / (denom as int),
            forall|x: int| 0 <= x < n && g.out_degree(x) == 0 ==> #[trigger] betw@[x] == 0,
            forall|x: int| 0 <= x < n && !has_in_edge(*g, x) ==> #[trigger] betw@[x] == 0,
            forall|x: int| 0 <= x < j && g.out_degree(x) == 0 ==> #[trigger] r@[x] == 0,
            forall|x: int| 0 <= x < j && !has_in_edge(*g, x) ==> #[trigger] r@[x] == 0,
        decreases n - j,
    {
        let bj = betw[j];
        let q128 = (bj as u128) / denom;
        proof {
            lemma_div_floor(bj as int, denom as int);
        }
        let q = q128 as u64;
        r.push(q);
        j += 1;
    }
    proof {
        assert(r@ =~= betweenness_spec(*g));
    }
    r
}

} // verus!
