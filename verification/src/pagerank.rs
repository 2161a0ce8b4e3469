//! PageRank power iteration: plain, weighted and personalized variants.
//!
//! Scores are fixed-point numbers in billionths (`FIXED_ONE`). Every solver
//! returns a score vector that sums to exactly `FIXED_ONE` when the graph has
//! at least one node: rounding losses of the integer arithmetic are swept
//! back in, one billionth per node round-robin, so rank mass is conserved —
//! dangling-node mass included — as a proved postcondition.

use vstd::prelude::*;
use crate::fixed::{
    FIXED_ONE, lemma_div_floor, lemma_sum64_bounds_element, lemma_sum64_nonneg,
    lemma_sum64_prefix_le, lemma_sum64_push, lemma_sum64_take_all, lemma_sum64_take_succ,
    lemma_sum64_update, sum64, zeros64,
};
use crate::graph::{Edge, Graph};

verus! {

/// PageRank configuration.
///
/// `damping` is a fixed-point fraction of `FIXED_ONE` (so 850_000_000 stands
/// for 0.85); `tol` is the convergence tolerance on the L1 delta between
/// successive iterates, in billionths; `max_iters` bounds the number of
/// power iterations.
#[derive(Clone, Copy)]
pub struct PageRankConfig {
    pub damping: u64,
    pub tol: u64,
    pub max_iters: usize,
}

/// Default damping factor: 0.85 in billionths.
pub const DEFAULT_DAMPING: u64 = 850_000_000;

/// Default convergence tolerance: one part in a million. Integer rounding
/// keeps each iterate within a few billionths per node of the exact one, so
/// a tolerance finer than that noise floor may never trigger.
pub const DEFAULT_TOL: u64 = 1_000;

/// Default cap on power iterations.
pub const DEFAULT_MAX_ITERS: usize = 200;

/// The default configuration as a mathematical value.
pub open spec fn default_config_spec() -> PageRankConfig {
    PageRankConfig { damping: DEFAULT_DAMPING, tol: DEFAULT_TOL, max_iters: DEFAULT_MAX_ITERS }
}

impl PageRankConfig {
    /// A usable configuration: damping at most one, a positive tolerance and
    /// at least one iteration.
    pub open spec fn valid(self) -> bool {
        &&& self.damping <= FIXED_ONE
        &&& self.tol >= 1
        &&& self.max_iters >= 1
    }
}

impl Default for PageRankConfig {
    /// Damping 0.85, an L1 tolerance of one part in a million, and at most
    /// 200 iterations.
    fn default() -> (c: Self)
        ensures
            c.damping == DEFAULT_DAMPING,
            c.tol == DEFAULT_TOL,
            c.max_iters == DEFAULT_MAX_ITERS,
            c == default_config_spec(),
            c.valid(),
    {
        PageRankConfig { damping: DEFAULT_DAMPING, tol: DEFAULT_TOL, max_iters: DEFAULT_MAX_ITERS }
    }
}

/// Result of one PageRank solve: the scores plus convergence diagnostics.
///
/// `converged` holds exactly when the final L1 delta `diff_l1` came within
/// the configured tolerance; `iterations` counts the iterations actually
/// performed.
pub struct PageRankRun {
    pub scores: Vec<u64>,
    pub iterations: usize,
    pub diff_l1: u64,
    pub converged: bool,
}

/// The uniform fixed-point distribution over `n` nodes: as equal as integer
/// granularity allows, summing to exactly `FIXED_ONE`.
fn uniform_fixed(n: usize) -> (p: Vec<u64>)
    requires
        1 <= n,
    ensures
        p@.len() == n,
        p@ == uniform_spec(n as int),
        sum64(p@) == FIXED_ONE as int,
        forall|i: int| 0 <= i < n ==> #[trigger] p@[i] <= FIXED_ONE,
{
    let nn = n as u64;
    let q = FIXED_ONE / nn;
    let r = FIXED_ONE % nn;
    proof {
        vstd::arithmetic::div_mod::lemma_fundamental_div_mod(FIXED_ONE as int, nn as int);
        vstd::arithmetic::div_mod::lemma_mod_bound(FIXED_ONE as int, nn as int);
        lemma_div_floor(FIXED_ONE as int, nn as int);
        if r > 0 {
            assert(q < FIXED_ONE) by (nonlinear_arith)
                requires
                    nn >= 1,
                    q == FIXED_ONE as int / nn as int,
                    r == FIXED_ONE as int % nn as int,
                    FIXED_ONE as int == nn as int * q + r,
                    0 < r < nn,
                    q >= 0,
            {}
        }
    }
    let mut p: Vec<u64> = Vec::new();
    let mut i: usize = 0;
    while i < n
        invariant
            1 <= n,
            nn == n as u64,
            q == FIXED_ONE as int / nn as int,
            r == FIXED_ONE as int % nn as int,
            FIXED_ONE as int == nn as int * q + r,
            0 <= r < nn,
            q <= FIXED_ONE,
            r > 0 ==> q < FIXED_ONE,
            0 <= i <= n,
            p@.len() == i,
            sum64(p@) == i as int * q + (if i as int <= r as int { i as int } else { r as int }),
            forall|j: int| 0 <= j < i ==> #[trigger] p@[j] <= FIXED_ONE,
            forall|j: int|
                0 <= j < i ==> #[trigger] p@[j] as int == (if j < r as int {
                    q + 1
                } else {
                    q as int
                }),
        decreases n - i,
    {
        let v = if (i as u64) < r { q + 1 } else { q };
        proof {
            lemma_sum64_push(p@, v);
            assert((i as int + 1) * q == i as int * q + q) by (nonlinear_arith) {}
        }
        p.push(v);
        i += 1;
    }
    proof {
        assert(i as int == nn as int);
        assert(sum64(p@) == nn as int * q + r);
        assert(p@ =~= uniform_spec(n as int));
    }
    p
}

/// Total weight of the first `k` entries of an adjacency row.
pub open spec fn wprefix(row: Seq<Edge>, k: int) -> int
    decreases k,
{
    if k <= 0 {
        0
    } else {
        wprefix(row, k - 1) + row[k - 1].weight
    }
}

proof fn lemma_wprefix_nonneg(row: Seq<Edge>, k: int)
    ensures
        wprefix(row, k) >= 0,
    decreases k,
{
    if k > 0 {
        lemma_wprefix_nonneg(row, k - 1);
    }
}

/// A weight prefix only reads the entries before it, so pushing onto the row
/// leaves it unchanged.
proof fn lemma_wprefix_push(s: Seq<Edge>, e: Edge, j: int)
    requires
        0 <= j <= s.len(),
    ensures
        wprefix(s.push(e), j) == wprefix(s, j),
    decreases j,
{
    if j > 0 {
        lemma_wprefix_push(s, e, j - 1);
    }
}

/// A weight prefix is bounded by the total row weight.
proof fn lemma_wprefix_le(row: Seq<Edge>, k: int)
    requires
        0 <= k <= row.len(),
    ensures
        wprefix(row, k) <= wprefix(row, row.len() as int),
    decreases row.len() - k,
{
    if k < row.len() {
        lemma_wprefix_le(row, k + 1);
    }
}

/// The uniform starting vector: `FIXED_ONE / n` everywhere, with the
/// division remainder spread one billionth each over the first nodes.
pub open spec fn uniform_spec(n: int) -> Seq<u64> {
    Seq::new(
        n as nat,
        |i: int|
            if i < FIXED_ONE as int % n {
                (FIXED_ONE as int / n + 1) as u64
            } else {
                (FIXED_ONE as int / n) as u64
            },
    )
}

/// The state of the mass-distribution pass after the first `k` entries of
/// row `u` have handed their shares on: the updated score vector and the
/// total handed out.
pub open spec fn dist_row_spec(
    next: Seq<u64>,
    pru: u64,
    row: Seq<Edge>,
    w_total: int,
    k: int,
) -> (Seq<u64>, int)
    decreases k,
{
    if k <= 0 {
        (next, 0)
    } else {
        let (nx, giv) = dist_row_spec(next, pru, row, w_total, k - 1);
        let e = row[k - 1];
        let share = (pru as int) * (e.weight as int) / w_total;
        (nx.update(e.to as int, (nx[e.to as int] + share) as u64), giv + share)
    }
}

/// The state of the mass-distribution pass after the first `u` nodes: the
/// score vector receiving the shares and the pool of undistributed mass —
/// dangling nodes' mass plus rounding remainders.
pub open spec fn dist_spec(pr: Seq<u64>, rows: Seq<Seq<Edge>>, n: int, u: int) -> (Seq<u64>, int)
    decreases u,
{
    if u <= 0 {
        (zeros64(n), 0)
    } else {
        let (nx, pool) = dist_spec(pr, rows, n, u - 1);
        let pru = pr[u - 1];
        let row = rows[u - 1];
        let w_total = wprefix(row, row.len() as int);
        if w_total > 0 {
            let (nx2, giv) = dist_row_spec(nx, pru, row, w_total, row.len() as int);
            (nx2, pool + (pru - giv))
        } else {
            (nx, pool + pru)
        }
    }
}

/// One new score: teleport mass plus damped edge-and-dangling mass, in
/// floor arithmetic.
pub open spec fn combine_entry_spec(damp: u64, next_i: u64, pool: int, tele_i: u64) -> int {
    let t = FIXED_ONE - damp;
    let val = next_i + pool * tele_i / (FIXED_ONE as int);
    t * tele_i / (FIXED_ONE as int) + damp * val / (FIXED_ONE as int)
}

/// The first `i` combined scores.
pub open spec fn combine_prefix_spec(
    tele: Seq<u64>,
    next: Seq<u64>,
    pool: int,
    damp: u64,
    i: int,
) -> Seq<u64>
    decreases i,
{
    if i <= 0 {
        Seq::empty()
    } else {
        combine_prefix_spec(tele, next, pool, damp, i - 1).push(
            combine_entry_spec(damp, next[i - 1], pool, tele[i - 1]) as u64,
        )
    }
}

/// `k` billionths added round-robin from node zero.
pub open spec fn topped_up_spec(v: Seq<u64>, n: int, k: int) -> Seq<u64>
    decreases k,
{
    if k <= 0 {
        v
    } else {
        let w = topped_up_spec(v, n, k - 1);
        let i = (k - 1) % n;
        w.update(i, (w[i] + 1) as u64)
    }
}

/// The combined scores of a full pass: floor-arithmetic combination, then
/// the rounding deficit swept back in round-robin.
pub open spec fn combine_spec(tele: Seq<u64>, next: Seq<u64>, pool: int, damp: u64, n: int) -> Seq<
    u64,
> {
    let base = combine_prefix_spec(tele, next, pool, damp, n);
    topped_up_spec(base, n, FIXED_ONE - sum64(base))
}

/// One full power iteration: distribute, then combine.
pub open spec fn step_spec(pr: Seq<u64>, rows: Seq<Seq<Edge>>, tele: Seq<u64>, damp: u64, n: int) -> Seq<
    u64,
> {
    let (next, pool) = dist_spec(pr, rows, n, n);
    combine_spec(tele, next, pool, damp, n)
}

/// The score vector after `k` power iterations from the uniform start.
#[verifier::opaque]
pub open spec fn iterate_spec(rows: Seq<Seq<Edge>>, tele: Seq<u64>, damp: u64, n: int, k: nat) -> Seq<
    u64,
>
    decreases k,
{
    if k == 0 {
        uniform_spec(n)
    } else {
        step_spec(iterate_spec(rows, tele, damp, n, (k - 1) as nat), rows, tele, damp, n)
    }
}

/// The adjacency rows as plain sequences.
pub open spec fn rows_view(rows: Seq<Vec<Edge>>) -> Seq<Seq<Edge>> {
    rows.map_values(|r: Vec<Edge>| r@)
}

/// What a finished solve looks like: the scores are exactly the model
/// iterate at `iterations`, the final delta is the model's L1 distance of
/// the last two iterates, the run stopped at the first iterate within
/// tolerance (or at the iteration cap), and `converged` reports which.
pub open spec fn solver_run_ok(
    scores: Seq<u64>,
    iterations: int,
    diff_l1: int,
    converged: bool,
    rows: Seq<Seq<Edge>>,
    tele: Seq<u64>,
    cfg: PageRankConfig,
    n: int,
) -> bool {
    &&& scores == iterate_spec(rows, tele, cfg.damping, n, iterations as nat)
    &&& 1 <= iterations <= cfg.max_iters
    &&& diff_l1 == l1_dist(
        iterate_spec(rows, tele, cfg.damping, n, iterations as nat),
        iterate_spec(rows, tele, cfg.damping, n, (iterations - 1) as nat),
        n,
    )
    &&& (converged <==> diff_l1 <= cfg.tol)
    &&& (!converged ==> iterations == cfg.max_iters)
    &&& forall|j: nat|
        1 <= j < iterations ==> l1_dist(
            #[trigger] iterate_spec(rows, tele, cfg.damping, n, j),
            iterate_spec(rows, tele, cfg.damping, n, (j - 1) as nat),
            n,
        ) > cfg.tol
}

/// Some stopped solve produced exactly these scores.
pub open spec fn solver_scores_ok(
    scores: Seq<u64>,
    rows: Seq<Seq<Edge>>,
    tele: Seq<u64>,
    cfg: PageRankConfig,
    n: int,
) -> bool {
    exists|iterations: int, diff_l1: int, converged: bool|
        #[trigger] solver_run_ok(scores, iterations, diff_l1, converged, rows, tele, cfg, n)
}

/// The adjacency rows of the graph as plain sequences, weights as stored.
pub open spec fn weighted_rows_view<N>(g: Graph<N>) -> Seq<Seq<Edge>> {
    Seq::new(g.n() as nat, |u: int| g.row(u))
}

/// The adjacency rows of the graph with every weight replaced by one edge
/// count unit, as the unweighted variant sees them.
pub open spec fn unit_rows_view<N>(g: Graph<N>) -> Seq<Seq<Edge>> {
    Seq::new(g.n() as nat, |u: int| g.row(u).map_values(|e: Edge| Edge { to: e.to, weight: 1 }))
}

/// The transition structure handed to the solver core: one adjacency row per
/// node, targets in range, and `wsums[u]` equal to the total weight of row
/// `u`.
pub open spec fn rows_ok(n: int, rows: Seq<Vec<Edge>>, wsums: Seq<u128>) -> bool {
    &&& rows.len() == n
    &&& wsums.len() == n
    &&& forall|u: int, k: int|
        0 <= u < n && 0 <= k < rows[u]@.len() ==> (#[trigger] rows[u]@[k]).to < n
    &&& forall|u: int|
        0 <= u < n ==> #[trigger] wsums[u] as int == wprefix(rows[u]@, rows[u]@.len() as int)
}

/// Distributes the rank mass of `pr` along the rows: each node's mass splits
/// in proportion to edge weight over its total outgoing weight, rounded
/// down; everything not handed to a neighbor — dangling mass and rounding
/// remainders — lands in the returned pool, so no mass is lost.
fn distribute(n: usize, rows: &Vec<Vec<Edge>>, wsums: &Vec<u128>, pr: &Vec<u64>) -> (r: (
    Vec<u64>,
    u64,
))
    requires
        1 <= n,
        rows_ok(n as int, rows@, wsums@),
        pr@.len() == n,
        sum64(pr@) == FIXED_ONE as int,
    ensures
        r.0@.len() == n,
        r.1 as int + sum64(r.0@) == FIXED_ONE as int,
        r.0@ == dist_spec(pr@, rows_view(rows@), n as int, n as int).0,
        r.1 as int == dist_spec(pr@, rows_view(rows@), n as int, n as int).1,
{
    let ghost rv = rows_view(rows@);
    let mut next: Vec<u64> = Vec::new();
    let mut j: usize = 0;
    while j < n
        invariant
            next@.len() == j,
            0 <= j <= n,
            sum64(next@) == 0,
            forall|x: int| 0 <= x < j ==> next@[x] == 0,
        decreases n - j,
    {
        proof {
            lemma_sum64_push(next@, 0);
        }
        next.push(0);
        j += 1;
    }
    proof {
        assert(next@ =~= zeros64(n as int));
    }
    let mut pool: u64 = 0;
    let mut u: usize = 0;
    while u < n
        invariant
            1 <= n,
            rows_ok(n as int, rows@, wsums@),
            rv == rows_view(rows@),
            pr@.len() == n,
            sum64(pr@) == FIXED_ONE as int,
            next@.len() == n,
            0 <= u <= n,
            pool as int + sum64(next@) == sum64(pr@.take(u as int)),
            next@ == dist_spec(pr@, rv, n as int, u as int).0,
            pool as int == dist_spec(pr@, rv, n as int, u as int).1,
        decreases n - u,
    {
        proof {
            lemma_sum64_take_succ(pr@, u as int);
            lemma_sum64_prefix_le(pr@, u as int + 1);
            lemma_sum64_bounds_element(pr@, u as int);
            lemma_sum64_nonneg(next@);
            lemma_sum64_nonneg(pr@.take(u as int));
        }
        let pru = pr[u];
        let w_total = wsums[u];
        if w_total > 0 {
            let d = rows[u].len();
            let ghost base = sum64(next@);
            let ghost base_seq = next@;
            let ghost rowseq = rows@[u as int]@;
            let mut given: u64 = 0;
            let mut k: usize = 0;
            proof {
                assert(w_total as int == wprefix(rowseq, rowseq.len() as int));
            }
            while k < d
                invariant
                    1 <= n,
                    rows_ok(n as int, rows@, wsums@),
                    rv == rows_view(rows@),
                    u < n,
                    rowseq == rows@[u as int]@,
                    rowseq == rv[u as int],
                    d == rowseq.len(),
                    w_total == wsums@[u as int],
                    w_total > 0,
                    w_total as int == wprefix(rowseq, rowseq.len() as int),
                    pru == pr@[u as int],
                    pru <= FIXED_ONE,
                    0 <= k <= d,
                    next@.len() == n,
                    sum64(next@) == base + given,
                    base >= 0,
                    pool as int + base == sum64(pr@.take(u as int)),
                    pool as int + base + pru <= FIXED_ONE as int,
                    given as int * (w_total as int) <= (pru as int) * wprefix(rowseq, k as int),
                    given <= pru,
                    base_seq == dist_spec(pr@, rv, n as int, u as int).0,
                    pool as int == dist_spec(pr@, rv, n as int, u as int).1,
                    next@ == dist_row_spec(base_seq, pru, rowseq, w_total as int, k as int).0,
                    given as int == dist_row_spec(base_seq, pru, rowseq, w_total as int, k as int).1,
                decreases d - k,
            {
                let e = rows[u][k];
                proof {
                    lemma_wprefix_le(rowseq, k as int + 1);
                    lemma_wprefix_nonneg(rowseq, k as int);
                    assert(wprefix(rowseq, k as int + 1) == wprefix(rowseq, k as int)
                        + e.weight);
                    assert(e.weight as int <= w_total as int);
                }
                proof {
                    assert((pru as int) * (e.weight as int) >= 0 && (pru as int) * (
                    e.weight as int) <= (u64::MAX as int) * (u64::MAX as int))
                        by (nonlinear_arith)
                        requires
                            0 <= pru as int <= u64::MAX as int,
                            0 <= e.weight as int <= u64::MAX as int,
                    {}
                }
                let share128 = (pru as u128) * (e.weight as u128) / w_total;
                proof {
                    lemma_div_floor((pru as int) * (e.weight as int), w_total as int);
                    assert(share128 as int <= pru as int) by (nonlinear_arith)
                        requires
                            (w_total as int) * (share128 as int) <= (pru as int) * (
                            e.weight as int),
                            e.weight as int <= w_total as int,
                            w_total as int > 0,
                            pru as int >= 0,
                            share128 as int >= 0,
                    {}
                }
                let share = share128 as u64;
                let cur = next[e.to];
                proof {
                    lemma_sum64_bounds_element(next@, e.to as int);
                    lemma_sum64_update(next@, e.to as int, (cur + share) as u64);
                    assert(e == rowseq[k as int]);
                    assert(share as int == (pru as int) * (e.weight as int) / (w_total as int));
                    assert(dist_row_spec(base_seq, pru, rowseq, w_total as int, k as int + 1).0
                        == next@.update(e.to as int, (cur + share) as u64));
                    assert(dist_row_spec(base_seq, pru, rowseq, w_total as int, k as int + 1).1
                        == given as int + share as int);
                }
                next.set(e.to, cur + share);
                proof {
                    assert((given as int + share as int) * (w_total as int) <= (pru as int)
                        * wprefix(rowseq, k as int + 1)) by (nonlinear_arith)
                        requires
                            given as int * (w_total as int) <= (pru as int) * wprefix(
                                rowseq,
                                k as int,
                            ),
                            (w_total as int) * (share as int) <= (pru as int) * (
                            e.weight as int),
                            wprefix(rowseq, k as int + 1) == wprefix(rowseq, k as int)
                                + e.weight,
                    {}
                    lemma_wprefix_le(rowseq, k as int + 1);
                    assert(given as int + share as int <= pru as int) by (nonlinear_arith)
                        requires
                            (given as int + share as int) * (w_total as int) <= (pru as int)
                                * wprefix(rowseq, k as int + 1),
                            wprefix(rowseq, k as int + 1) <= w_total as int,
                            w_total as int > 0,
                            pru as int >= 0,
                    {}
                }
                given = given + share;
                k += 1;
            }
            proof {
                assert(next@ == dist_spec(pr@, rv, n as int, u as int + 1).0);
                assert(pool as int + (pru as int - given as int) == dist_spec(
                    pr@,
                    rv,
                    n as int,
                    u as int + 1,
                ).1);
            }
            pool = pool + (pru - given);
        } else {
            proof {
                assert(next@ == dist_spec(pr@, rv, n as int, u as int + 1).0);
                assert(pool as int + pru as int == dist_spec(pr@, rv, n as int, u as int + 1).1);
            }
            pool = pool + pru;
        }
        u += 1;
    }
    proof {
        lemma_sum64_take_all(pr@);
    }
    (next, pool)
}

/// Applies teleport and damping: the new score of node `i` is
/// `(1 - damping) * tele[i] + damping * (next[i] + pool * tele[i])` in
/// fixed-point arithmetic, with every rounding deficit swept back in one
/// billionth at a time round-robin, so the result sums to exactly
/// `FIXED_ONE`.
fn combine(n: usize, tele: &Vec<u64>, next: &Vec<u64>, pool: u64, damp: u64) -> (prn: Vec<u64>)
    requires
        1 <= n,
        tele@.len() == n,
        sum64(tele@) == FIXED_ONE as int,
        next@.len() == n,
        pool as int + sum64(next@) == FIXED_ONE as int,
        damp <= FIXED_ONE,
    ensures
        prn@.len() == n,
        sum64(prn@) == FIXED_ONE as int,
        prn@ == combine_spec(tele@, next@, pool as int, damp, n as int),
{
    let s_one = FIXED_ONE;
    let t = FIXED_ONE - damp;
    let ghost s = FIXED_ONE as int;
    let mut prn: Vec<u64> = Vec::new();
    let mut total: u64 = 0;
    let ghost mut valsum: int = 0;
    let mut i: usize = 0;
    proof {
        lemma_sum64_nonneg(next@);
    }
    while i < n
        invariant
            1 <= n,
            s == FIXED_ONE as int,
            s_one == FIXED_ONE,
            t == FIXED_ONE - damp,
            damp <= FIXED_ONE,
            tele@.len() == n,
            sum64(tele@) == s,
            next@.len() == n,
            pool as int + sum64(next@) == s,
            0 <= i <= n,
            prn@.len() == i,
            prn@ == combine_prefix_spec(tele@, next@, pool as int, damp, i as int),
            total as int == sum64(prn@),
            total <= FIXED_ONE,
            valsum >= 0,
            s * valsum <= s * sum64(next@.take(i as int)) + pool as int * sum64(
                tele@.take(i as int),
            ),
            s * (total as int) <= t as int * sum64(tele@.take(i as int)) + damp as int * valsum,
        decreases n - i,
    {
        let ghost tp = sum64(tele@.take(i as int));
        let ghost np = sum64(next@.take(i as int));
        proof {
            lemma_sum64_take_succ(tele@, i as int);
            lemma_sum64_take_succ(next@, i as int);
            lemma_sum64_prefix_le(tele@, i as int + 1);
            lemma_sum64_prefix_le(next@, i as int + 1);
            lemma_sum64_nonneg(tele@.take(i as int));
            lemma_sum64_nonneg(next@.take(i as int));
            lemma_sum64_bounds_element(tele@, i as int);
            lemma_sum64_bounds_element(next@, i as int);
            lemma_sum64_nonneg(next@);
            lemma_sum64_nonneg(tele@);
        }
        let pi = tele[i];
        let nv = next[i];
        proof {
            assert(pool as int <= s);
            assert(pi as int <= s);
            assert(t as int * pi as int >= 0 && t as int * pi as int <= s * s)
                by (nonlinear_arith)
                requires
                    0 <= t as int <= s,
                    0 <= pi as int <= s,
            {}
            assert(pool as int * pi as int >= 0 && pool as int * pi as int <= s * s)
                by (nonlinear_arith)
                requires
                    0 <= pool as int <= s,
                    0 <= pi as int <= s,
            {}
        }
        let a = t * pi / s_one;
        let ppart = pool * pi / s_one;
        proof {
            lemma_div_floor(t as int * pi as int, s);
            lemma_div_floor(pool as int * pi as int, s);
            assert(ppart as int <= pool as int) by (nonlinear_arith)
                requires
                    s * (ppart as int) <= pool as int * (pi as int),
                    pi as int <= s,
                    s > 0,
                    pool as int >= 0,
                    ppart as int >= 0,
            {}
            assert(a as int <= s) by (nonlinear_arith)
                requires
                    s * (a as int) <= t as int * (pi as int),
                    t as int * pi as int <= s * s,
                    s > 0,
                    a as int >= 0,
            {}
        }
        let val = nv + ppart;
        proof {
            assert(nv as int <= s - pool as int);
            assert(val as int <= s);
            assert(damp as int * val as int >= 0 && damp as int * val as int <= s * s)
                by (nonlinear_arith)
                requires
                    0 <= damp as int <= s,
                    0 <= val as int <= s,
            {}
        }
        let b = damp * val / s_one;
        proof {
            lemma_div_floor(damp as int * val as int, s);
            assert(b as int <= val as int) by (nonlinear_arith)
                requires
                    s * (b as int) <= damp as int * (val as int),
                    damp as int <= s,
                    s > 0,
                    val as int >= 0,
                    b as int >= 0,
            {}
        }
        let x = a + b;
        proof {
            // One step of the two mass inequalities.
            assert(s * (valsum + val as int) <= s * (np + nv as int) + pool as int * (tp
                + pi as int)) by (nonlinear_arith)
                requires
                    s * valsum <= s * np + pool as int * tp,
                    s * (val as int) == s * (nv as int) + s * (ppart as int),
                    s * (ppart as int) <= pool as int * (pi as int),
            {}
            assert(s * (total as int + x as int) <= t as int * (tp + pi as int) + damp as int
                * (valsum + val as int)) by (nonlinear_arith)
                requires
                    s * (total as int) <= t as int * tp + damp as int * valsum,
                    s * (x as int) == s * (a as int) + s * (b as int),
                    s * (a as int) <= t as int * (pi as int),
                    s * (b as int) <= damp as int * (val as int),
                    val as int >= 0,
                    damp as int >= 0,
            {}
            // The running total stays at or below one.
            lemma_sum64_prefix_le(tele@, i as int + 1);
            lemma_sum64_prefix_le(next@, i as int + 1);
            lemma_sum64_nonneg(tele@);
            assert(total as int + x as int <= s) by (nonlinear_arith)
                requires
                    s * (total as int + x as int) <= t as int * (tp + pi as int) + damp as int
                        * (valsum + val as int),
                    s * (valsum + val as int) <= s * (np + nv as int) + pool as int * (tp
                        + pi as int),
                    tp + pi as int <= s,
                    np + nv as int + pool as int <= s,
                    0 <= t as int,
                    0 <= damp as int,
                    t as int + damp as int == s,
                    s > 0,
                    0 <= valsum + val as int,
                    0 <= pool as int,
            {}
            lemma_sum64_push(prn@, x);
            valsum = valsum + val as int;
            assert(x as int == combine_entry_spec(damp, nv, pool as int, pi));
            assert(combine_prefix_spec(tele@, next@, pool as int, damp, i as int + 1)
                == combine_prefix_spec(tele@, next@, pool as int, damp, i as int).push(x));
        }
        prn.push(x);
        total = total + x;
        i += 1;
    }
    proof {
        lemma_sum64_take_all(tele@);
        lemma_sum64_take_all(next@);
    }
    let def = s_one - total;
    top_up(&mut prn, def);
    prn
}

/// L1 distance between two vectors of the same length.
pub open spec fn l1_dist(a: Seq<u64>, b: Seq<u64>, k: int) -> int
    decreases k,
{
    if k <= 0 {
        0
    } else {
        l1_dist(a, b, k - 1) + if a[k - 1] >= b[k - 1] {
            a[k - 1] - b[k - 1]
        } else {
            b[k - 1] - a[k - 1]
        }
    }
}

/// Sum of the pointwise absolute differences of two score vectors.
fn l1_delta(a: &Vec<u64>, b: &Vec<u64>) -> (dl: u64)
    requires
        a@.len() == b@.len(),
        sum64(a@) <= FIXED_ONE as int,
        sum64(b@) <= FIXED_ONE as int,
    ensures
        dl as int == l1_dist(a@, b@, a@.len() as int),
{
    let n = a.len();
    let mut dl: u64 = 0;
    let mut i: usize = 0;
    while i < n
        invariant
            n == a@.len(),
            a@.len() == b@.len(),
            sum64(a@) <= FIXED_ONE as int,
            sum64(b@) <= FIXED_ONE as int,
            0 <= i <= n,
            dl as int == l1_dist(a@, b@, i as int),
            dl as int <= sum64(a@.take(i as int)) + sum64(b@.take(i as int)),
        decreases n - i,
    {
        proof {
            lemma_sum64_take_succ(a@, i as int);
            lemma_sum64_take_succ(b@, i as int);
            lemma_sum64_prefix_le(a@, i as int + 1);
            lemma_sum64_prefix_le(b@, i as int + 1);
            lemma_sum64_nonneg(a@.take(i as int));
            lemma_sum64_nonneg(b@.take(i as int));
        }
        let av = a[i];
        let bv = b[i];
        let d = if av >= bv {
            av - bv
        } else {
            bv - av
        };
        dl = dl + d;
        i += 1;
    }
    dl
}

/// Shared power-iteration core. `rows` and `wsums` describe the transition
/// structure (see [`rows_ok`]); `tele` is the teleport distribution, used
/// both for the `(1 - damping)` restart mass and for redistributing
/// dangling-node mass. Iterates until the L1 delta between successive
/// iterates is within `cfg.tol` or `cfg.max_iters` iterations have run.
#[verifier::rlimit(80)]
fn pagerank_core(
    n: usize,
    rows: &Vec<Vec<Edge>>,
    wsums: &Vec<u128>,
    tele: &Vec<u64>,
    cfg: PageRankConfig,
) -> (run: PageRankRun)
    requires
        1 <= n,
        cfg.valid(),
        rows_ok(n as int, rows@, wsums@),
        tele@.len() == n,
        sum64(tele@) == FIXED_ONE as int,
    ensures
        run.scores@.len() == n,
        sum64(run.scores@) == FIXED_ONE as int,
        forall|i: int| 0 <= i < n ==> #[trigger] run.scores@[i] <= FIXED_ONE,
        run.converged <==> run.diff_l1 <= cfg.tol,
        !run.converged ==> run.iterations == cfg.max_iters,
        1 <= run.iterations <= cfg.max_iters,
        solver_run_ok(
            run.scores@,
            run.iterations as int,
            run.diff_l1 as int,
            run.converged,
            rows_view(rows@),
            tele@,
            cfg,
            n as int,
        ),
{
    let ghost rv = rows_view(rows@);
    let ghost damp = cfg.damping;
    let mut pr = uniform_fixed(n);
    proof {
        assert(pr@ == iterate_spec(rv, tele@, damp, n as int, 0)) by {
            reveal_with_fuel(iterate_spec, 1);
        }
    }
    let mut iters: usize = 0;
    let mut delta: u64 = 0;
    let mut converged: bool = false;
    while iters < cfg.max_iters && !converged
        invariant
            1 <= n,
            cfg.valid(),
            rows_ok(n as int, rows@, wsums@),
            rv == rows_view(rows@),
            damp == cfg.damping,
            tele@.len() == n,
            sum64(tele@) == FIXED_ONE as int,
            pr@.len() == n,
            sum64(pr@) == FIXED_ONE as int,
            0 <= iters <= cfg.max_iters,
            converged ==> delta <= cfg.tol,
            iters >= 1 && !converged ==> delta > cfg.tol,
            converged ==> iters >= 1,
            pr@ == iterate_spec(rv, tele@, damp, n as int, iters as nat),
            iters >= 1 ==> delta as int == l1_dist(
                iterate_spec(rv, tele@, damp, n as int, iters as nat),
                iterate_spec(rv, tele@, damp, n as int, (iters - 1) as nat),
                n as int,
            ),
            forall|j: nat|
                1 <= j < iters ==> l1_dist(
                    #[trigger] iterate_spec(rv, tele@, damp, n as int, j),
                    iterate_spec(rv, tele@, damp, n as int, (j - 1) as nat),
                    n as int,
                ) > cfg.tol,
        decreases cfg.max_iters - iters,
    {
        let (next, pool) = distribute(n, rows, wsums, &pr);
        let prn = combine(n, tele, &next, pool, cfg.damping);
        delta = l1_delta(&prn, &pr);
        proof {
            assert(prn@ == step_spec(pr@, rv, tele@, damp, n as int));
            assert(prn@ == iterate_spec(rv, tele@, damp, n as int, (iters + 1) as nat)) by {
                reveal_with_fuel(iterate_spec, 2);
            }
        }
        pr = prn;
        iters += 1;
        converged = delta <= cfg.tol;
    }
    proof {
        assert forall|i: int| 0 <= i < n implies #[trigger] pr@[i] <= FIXED_ONE by {
            lemma_sum64_bounds_element(pr@, i);
        }
    }
    PageRankRun { scores: pr, iterations: iters, diff_l1: delta, converged }
}

/// Total weight of an adjacency row, accumulated exactly.
fn row_total(row: &Vec<Edge>) -> (w: u128)
    ensures
        w as int == wprefix(row@, row@.len() as int),
{
    let d = row.len();
    let mut acc: u128 = 0;
    let mut k: usize = 0;
    while k < d
        invariant
            d == row@.len(),
            0 <= k <= d,
            acc as int == wprefix(row@, k as int),
            acc as int <= k as int * (u64::MAX as int),
        decreases d - k,
    {
        let e = row[k];
        proof {
            assert(acc as int + e.weight as int <= (k as int + 1) * (u64::MAX as int))
                by (nonlinear_arith)
                requires
                    acc as int <= k as int * (u64::MAX as int),
                    e.weight as int <= u64::MAX as int,
            {}
            assert((k as int + 1) * (u64::MAX as int) <= (usize::MAX as int + 1) * (
            u64::MAX as int)) by (nonlinear_arith)
                requires
                    k as int + 1 <= usize::MAX as int + 1,
            {}
        }
        acc = acc + (e.weight as u128);
        k += 1;
    }
    acc
}

/// Builds the unit-weight transition structure: every edge counts as weight
/// one, so each node's mass splits evenly over its out-edges.
fn unit_rows<N>(g: &Graph<N>) -> (r: (Vec<Vec<Edge>>, Vec<u128>))
    requires
        g.wf(),
    ensures
        rows_ok(g.n(), r.0@, r.1@),
        rows_view(r.0@) == unit_rows_view(*g),
{
    let n = g.node_count();
    let mut rows: Vec<Vec<Edge>> = Vec::new();
    let mut wsums: Vec<u128> = Vec::new();
    let mut u: usize = 0;
    while u < n
        invariant
            g.wf(),
            n == g.n(),
            0 <= u <= n,
            rows@.len() == u,
            wsums@.len() == u,
            forall|a: int, k: int|
                0 <= a < u && 0 <= k < rows@[a]@.len() ==> (#[trigger] rows@[a]@[k]).to < n,
            forall|a: int|
                0 <= a < u ==> #[trigger] wsums@[a] as int == wprefix(
                    rows@[a]@,
                    rows@[a]@.len() as int,
                ),
            forall|a: int|
                0 <= a < u ==> (#[trigger] rows@[a])@ == g.row(a).map_values(
                    |e: Edge| Edge { to: e.to, weight: 1 },
                ),
        decreases n - u,
    {
        let d = g.adj[u].len();
        let mut row: Vec<Edge> = Vec::new();
        let mut k: usize = 0;
        while k < d
            invariant
                g.wf(),
                u < n,
                n == g.n(),
                d == g.row(u as int).len(),
                0 <= k <= d,
                row@.len() == k,
                forall|j: int|
                    0 <= j < k ==> (#[trigger] row@[j]).to < n && row@[j].weight == 1,
                forall|j: int|
                    0 <= j < k ==> (#[trigger] row@[j]).to == g.row(u as int)[j].to,
                wprefix(row@, k as int) == k as int,
            decreases d - k,
        {
            let e = g.adj[u][k];
            proof {
                assert(g.row_ok(u as int));
                lemma_wprefix_push(row@, Edge { to: e.to, weight: 1 }, k as int);
            }
            row.push(Edge { to: e.to, weight: 1 });
            k += 1;
        }
        proof {
            assert(row@ =~= g.row(u as int).map_values(|e: Edge| Edge { to: e.to, weight: 1 }));
        }
        rows.push(row);
        wsums.push(d as u128);
        u += 1;
    }
    proof {
        assert(rows_view(rows@) =~= unit_rows_view(*g));
    }
    (rows, wsums)
}

/// Builds the weighted transition structure: rows as stored in the graph,
/// with their exact total outgoing weight.
fn weighted_rows<N>(g: &Graph<N>) -> (r: (Vec<Vec<Edge>>, Vec<u128>))
    requires
        g.wf(),
    ensures
        rows_ok(g.n(), r.0@, r.1@),
        rows_view(r.0@) == weighted_rows_view(*g),
{
    let n = g.node_count();
    let mut rows: Vec<Vec<Edge>> = Vec::new();
    let mut wsums: Vec<u128> = Vec::new();
    let mut u: usize = 0;
    while u < n
        invariant
            g.wf(),
            n == g.n(),
            0 <= u <= n,
            rows@.len() == u,
            wsums@.len() == u,
            forall|a: int, k: int|
                0 <= a < u && 0 <= k < rows@[a]@.len() ==> (#[trigger] rows@[a]@[k]).to < n,
            forall|a: int|
                0 <= a < u ==> #[trigger] wsums@[a] as int == wprefix(
                    rows@[a]@,
                    rows@[a]@.len() as int,
                ),
            forall|a: int| 0 <= a < u ==> (#[trigger] rows@[a])@ == g.row(a),
        decreases n - u,
    {
        let d = g.adj[u].len();
        let mut row: Vec<Edge> = Vec::new();
        let mut k: usize = 0;
        while k < d
            invariant
                g.wf(),
                u < n,
                n == g.n(),
                d == g.row(u as int).len(),
                0 <= k <= d,
                row@.len() == k,
                forall|j: int| 0 <= j < k ==> (#[trigger] row@[j]).to < n,
                forall|j: int| 0 <= j < k ==> #[trigger] row@[j] == g.row(u as int)[j],
            decreases d - k,
        {
            let e = g.adj[u][k];
            proof {
                assert(g.row_ok(u as int));
            }
            row.push(Edge { to: e.to, weight: e.weight });
            k += 1;
        }
        proof {
            assert(row@ =~= g.row(u as int));
        }
        let w = row_total(&row);
        rows.push(row);
        wsums.push(w);
        u += 1;
    }
    proof {
        assert(rows_view(rows@) =~= weighted_rows_view(*g));
    }
    (rows, wsums)
}

/// Adds `def` billionths to the vector, one at a time round-robin from node
/// zero, preserving the length and raising the sum by exactly `def`.
fn top_up(v: &mut Vec<u64>, def: u64)
    requires
        old(v)@.len() >= 1,
        sum64(old(v)@) + def as int <= u64::MAX as int,
    ensures
        final(v)@.len() == old(v)@.len(),
        sum64(final(v)@) == sum64(old(v)@) + def as int,
        final(v)@ == topped_up_spec(old(v)@, old(v)@.len() as int, def as int),
{
    let n = v.len();
    let nn = n as u64;
    let ghost base = sum64(v@);
    let ghost orig = v@;
    let mut k: u64 = 0;
    while k < def
        invariant
            v@.len() == n,
            1 <= n,
            nn == n as u64,
            0 <= k <= def,
            orig == old(v)@,
            base == sum64(old(v)@),
            base + def as int <= u64::MAX as int,
            sum64(v@) == base + k as int,
            v@ == topped_up_spec(orig, n as int, k as int),
        decreases def - k,
    {
        proof {
            vstd::arithmetic::div_mod::lemma_mod_bound(k as int, nn as int);
        }
        let idx = (k % nn) as usize;
        let cur = v[idx];
        proof {
            lemma_sum64_bounds_element(v@, idx as int);
            lemma_sum64_update(v@, idx as int, (cur + 1) as u64);
            assert(topped_up_spec(orig, n as int, k as int + 1) == v@.update(
                idx as int,
                (cur + 1) as u64,
            ));
        }
        v.set(idx, cur + 1);
        k += 1;
    }
}

/// The first `i` renormalized teleport entries, before the deficit sweep.
pub open spec fn norm_prefix_spec(p: Seq<u64>, sump: int, i: int) -> Seq<u64>
    decreases i,
{
    if i <= 0 {
        Seq::empty()
    } else {
        norm_prefix_spec(p, sump, i - 1).push(
            ((p[i - 1] as int) * (FIXED_ONE as int) / sump) as u64,
        )
    }
}

/// The renormalized teleport vector: each entry scaled by
/// `FIXED_ONE / sum`, the rounding deficit swept back in round-robin; the
/// uniform vector when the input sums to zero.
pub open spec fn normalize_spec(p: Seq<u64>, n: int) -> Seq<u64> {
    if sum64(p) == 0 {
        uniform_spec(n)
    } else {
        let base = norm_prefix_spec(p, sum64(p), n);
        topped_up_spec(base, n, FIXED_ONE - sum64(base))
    }
}

/// Renormalizes a personalization vector to sum to exactly `FIXED_ONE`, or
/// falls back to the uniform distribution when it sums to zero. The
/// fallback is a documented policy, not an error.
fn normalize_teleport(n: usize, p: &Vec<u64>) -> (tele: Vec<u64>)
    requires
        1 <= n,
        p@.len() == n,
    ensures
        tele@.len() == n,
        sum64(tele@) == FIXED_ONE as int,
        tele@ == normalize_spec(p@, n as int),
{
    let mut sump: u128 = 0;
    let mut i: usize = 0;
    while i < n
        invariant
            p@.len() == n,
            0 <= i <= n,
            sump as int == sum64(p@.take(i as int)),
            sump as int <= i as int * (u64::MAX as int),
        decreases n - i,
    {
        proof {
            lemma_sum64_take_succ(p@, i as int);
            assert(sump as int + p@[i as int] <= (i as int + 1) * (u64::MAX as int))
                by (nonlinear_arith)
                requires
                    sump as int <= i as int * (u64::MAX as int),
                    p@[i as int] <= u64::MAX as int,
            {}
            assert((i as int + 1) * (u64::MAX as int) <= (usize::MAX as int + 1) * (
            u64::MAX as int)) by (nonlinear_arith)
                requires
                    i as int + 1 <= usize::MAX as int + 1,
            {}
        }
        sump = sump + (p[i] as u128);
        i += 1;
    }
    proof {
        lemma_sum64_take_all(p@);
    }
    if sump == 0 {
        return uniform_fixed(n);
    }
    let ghost sp = sump as int;
    let mut tele: Vec<u64> = Vec::new();
    let mut total: u64 = 0;
    let mut j: usize = 0;
    while j < n
        invariant
            1 <= n,
            p@.len() == n,
            sump as int == sum64(p@),
            sump > 0,
            sp == sump as int,
            0 <= j <= n,
            tele@.len() == j,
            tele@ == norm_prefix_spec(p@, sp, j as int),
            total as int == sum64(tele@),
            total <= FIXED_ONE,
            sp * (total as int) <= FIXED_ONE as int * sum64(p@.take(j as int)),
        decreases n - j,
    {
        proof {
            lemma_sum64_take_succ(p@, j as int);
            lemma_sum64_prefix_le(p@, j as int + 1);
            lemma_sum64_nonneg(p@.take(j as int));
            lemma_sum64_bounds_element(p@, j as int);
            assert((p@[j as int] as int) * (FIXED_ONE as int) <= (u64::MAX as int) * (
            FIXED_ONE as int)) by (nonlinear_arith)
                requires
                    0 <= p@[j as int] as int <= u64::MAX as int,
            {}
        }
        let pv = p[j];
        let t128 = (pv as u128) * (FIXED_ONE as u128) / sump;
        proof {
            lemma_div_floor((pv as int) * (FIXED_ONE as int), sp);
            assert(t128 as int <= FIXED_ONE as int) by (nonlinear_arith)
                requires
                    sp * (t128 as int) <= (pv as int) * (FIXED_ONE as int),
                    pv as int <= sp,
                    sp > 0,
                    t128 as int >= 0,
            {}
            assert(sp * (total as int + t128 as int) <= FIXED_ONE as int * (sum64(
                p@.take(j as int),
            ) + p@[j as int])) by (nonlinear_arith)
                requires
                    sp * (total as int) <= FIXED_ONE as int * sum64(p@.take(j as int)),
                    sp * (t128 as int) <= (p@[j as int] as int) * (FIXED_ONE as int),
            {}
            assert(total as int + t128 as int <= FIXED_ONE as int) by (nonlinear_arith)
                requires
                    sp * (total as int + t128 as int) <= FIXED_ONE as int * (sum64(
                        p@.take(j as int),
                    ) + p@[j as int]),
                    sum64(p@.take(j as int)) + p@[j as int] <= sp,
                    sp > 0,
                    FIXED_ONE as int > 0,
                    total as int + t128 as int >= 0,
            {}
            lemma_sum64_push(tele@, t128 as u64);
            assert(norm_prefix_spec(p@, sp, j as int + 1) == tele@.push(t128 as u64));
        }
        let tv = t128 as u64;
        tele.push(tv);
        total = total + tv;
        j += 1;
    }
    proof {
        lemma_sum64_take_all(p@);
    }
    let def = FIXED_ONE - total;
    top_up(&mut tele, def);
    tele
}

/// All edge weights in the graph are exactly one (`FIXED_ONE`).
pub open spec fn unit_weights<N>(g: Graph<N>) -> bool {
    forall|u: int, k: int|
        0 <= u < g.n() && 0 <= k < g.row(u).len() ==> (#[trigger] g.row(u)[k]).weight
            == FIXED_ONE
}

/// Decides whether every edge weight is exactly one, which selects the
/// unweighted PageRank fast path.
pub fn is_unweighted<N>(g: &Graph<N>) -> (b: bool)
    requires
        g.wf(),
    ensures
        b == unit_weights(*g),
{
    let n = g.node_count();
    let mut u: usize = 0;
    while u < n
        invariant
            g.wf(),
            n == g.n(),
            0 <= u <= n,
            forall|a: int, k: int|
                0 <= a < u && 0 <= k < g.row(a).len() ==> (#[trigger] g.row(a)[k]).weight
                    == FIXED_ONE,
        decreases n - u,
    {
        let d = g.adj[u].len();
        let mut k: usize = 0;
        while k < d
            invariant
                g.wf(),
                u < n,
                n == g.n(),
                d == g.row(u as int).len(),
                0 <= k <= d,
                forall|j: int|
                    0 <= j < k ==> (#[trigger] g.row(u as int)[j]).weight == FIXED_ONE,
            decreases d - k,
        {
            if g.adj[u][k].weight != FIXED_ONE {
                return false;
            }
            k += 1;
        }
        u += 1;
    }
    true
}

/// Unweighted PageRank with diagnostics: every edge splits its source's
/// mass evenly, whatever weight it carries.
pub fn pagerank_unweighted_run<N>(g: &Graph<N>, cfg: PageRankConfig) -> (run: PageRankRun)
    requires
        g.wf(),
        cfg.valid(),
    ensures
        run.scores@.len() == g.n(),
        g.n() >= 1 ==> sum64(run.scores@) == FIXED_ONE as int,
        forall|i: int| 0 <= i < g.n() ==> #[trigger] run.scores@[i] <= FIXED_ONE,
        run.converged <==> run.diff_l1 <= cfg.tol,
        !run.converged ==> run.iterations == cfg.max_iters,
        run.iterations <= cfg.max_iters,
        g.n() >= 1 ==> run.iterations >= 1,
        g.n() == 0 ==> run.iterations == 0 && run.converged,
        g.n() >= 1 ==> solver_run_ok(
            run.scores@,
            run.iterations as int,
            run.diff_l1 as int,
            run.converged,
            unit_rows_view(*g),
            uniform_spec(g.n()),
            cfg,
            g.n(),
        ),
{
    let n = g.node_count();
    if n == 0 {
        return PageRankRun { scores: Vec::new(), iterations: 0, diff_l1: 0, converged: true };
    }
    let (rows, wsums) = unit_rows(g);
    let tele = uniform_fixed(n);
    pagerank_core(n, &rows, &wsums, &tele, cfg)
}

/// Weighted PageRank with diagnostics: each out-edge receives mass in
/// proportion to its weight over the node's total outgoing weight; nodes
/// with zero total outgoing weight are dangling.
pub fn pagerank_weighted_run<N>(g: &Graph<N>, cfg: PageRankConfig) -> (run: PageRankRun)
    requires
        g.wf(),
        cfg.valid(),
    ensures
        run.scores@.len() == g.n(),
        g.n() >= 1 ==> sum64(run.scores@) == FIXED_ONE as int,
        forall|i: int| 0 <= i < g.n() ==> #[trigger] run.scores@[i] <= FIXED_ONE,
        run.converged <==> run.diff_l1 <= cfg.tol,
        !run.converged ==> run.iterations == cfg.max_iters,
        run.iterations <= cfg.max_iters,
        g.n() >= 1 ==> run.iterations >= 1,
        g.n() == 0 ==> run.iterations == 0 && run.converged,
        g.n() >= 1 ==> solver_run_ok(
            run.scores@,
            run.iterations as int,
            run.diff_l1 as int,
            run.converged,
            weighted_rows_view(*g),
            uniform_spec(g.n()),
            cfg,
            g.n(),
        ),
{
    let n = g.node_count();
    if n == 0 {
        return PageRankRun { scores: Vec::new(), iterations: 0, diff_l1: 0, converged: true };
    }
    let (rows, wsums) = weighted_rows(g);
    let tele = uniform_fixed(n);
    pagerank_core(n, &rows, &wsums, &tele, cfg)
}

/// Unweighted PageRank, scores only.
pub fn pagerank_unweighted<N>(g: &Graph<N>, cfg: PageRankConfig) -> (scores: Vec<u64>)
    requires
        g.wf(),
        cfg.valid(),
    ensures
        scores@.len() == g.n(),
        g.n() >= 1 ==> sum64(scores@) == FIXED_ONE as int,
        forall|i: int| 0 <= i < g.n() ==> #[trigger] scores@[i] <= FIXED_ONE,
        g.n() >= 1 ==> solver_scores_ok(scores@, unit_rows_view(*g), uniform_spec(g.n()), cfg, g.n()),
{
    let run = pagerank_unweighted_run(g, cfg);
    proof {
        if g.n() >= 1 {
            assert(solver_run_ok(
                run.scores@,
                run.iterations as int,
                run.diff_l1 as int,
                run.converged,
                unit_rows_view(*g),
                uniform_spec(g.n()),
                cfg,
                g.n(),
            ));
        }
    }
    run.scores
}

/// Weighted PageRank, scores only.
pub fn pagerank_weighted<N>(g: &Graph<N>, cfg: PageRankConfig) -> (scores: Vec<u64>)
    requires
        g.wf(),
        cfg.valid(),
    ensures
        scores@.len() == g.n(),
        g.n() >= 1 ==> sum64(scores@) == FIXED_ONE as int,
        forall|i: int| 0 <= i < g.n() ==> #[trigger] scores@[i] <= FIXED_ONE,
        g.n() >= 1 ==> solver_scores_ok(
            scores@,
            weighted_rows_view(*g),
            uniform_spec(g.n()),
            cfg,
            g.n(),
        ),
{
    let run = pagerank_weighted_run(g, cfg);
    proof {
        if g.n() >= 1 {
            assert(solver_run_ok(
                run.scores@,
                run.iterations as int,
                run.diff_l1 as int,
                run.converged,
                weighted_rows_view(*g),
                uniform_spec(g.n()),
                cfg,
                g.n(),
            ));
        }
    }
    run.scores
}

/// PageRank with the default configuration and diagnostics, choosing the
/// unweighted fast path when every edge weight is exactly one — a
/// performance policy, not a behavioral one: on an all-ones graph the two
/// paths compute the same transition structure.
pub fn pagerank_run<N>(g: &Graph<N>) -> (run: PageRankRun)
    requires
        g.wf(),
    ensures
        run.scores@.len() == g.n(),
        g.n() >= 1 ==> sum64(run.scores@) == FIXED_ONE as int,
        forall|i: int| 0 <= i < g.n() ==> #[trigger] run.scores@[i] <= FIXED_ONE,
        run.converged <==> run.diff_l1 <= DEFAULT_TOL,
        !run.converged ==> run.iterations == DEFAULT_MAX_ITERS,
        g.n() == 0 ==> run.iterations == 0 && run.converged,
        g.n() >= 1 && unit_weights(*g) ==> solver_run_ok(
            run.scores@,
            run.iterations as int,
            run.diff_l1 as int,
            run.converged,
            unit_rows_view(*g),
            uniform_spec(g.n()),
            default_config_spec(),
            g.n(),
        ),
        g.n() >= 1 && !unit_weights(*g) ==> solver_run_ok(
            run.scores@,
            run.iterations as int,
            run.diff_l1 as int,
            run.converged,
            weighted_rows_view(*g),
            uniform_spec(g.n()),
            default_config_spec(),
            g.n(),
        ),
{
    let cfg = PageRankConfig::default();
    if is_unweighted(g) {
        pagerank_unweighted_run(g, cfg)
    } else {
        pagerank_weighted_run(g, cfg)
    }
}

/// PageRank with the default configuration, scores only: identical to the
/// scores of [`pagerank_run`], which it returns.
pub fn pagerank<N>(g: &Graph<N>) -> (scores: Vec<u64>)
    requires
        g.wf(),
    ensures
        scores@.len() == g.n(),
        g.n() >= 1 ==> sum64(scores@) == FIXED_ONE as int,
        forall|i: int| 0 <= i < g.n() ==> #[trigger] scores@[i] <= FIXED_ONE,
        g.n() >= 1 && unit_weights(*g) ==> solver_scores_ok(
            scores@,
            unit_rows_view(*g),
            uniform_spec(g.n()),
            default_config_spec(),
            g.n(),
        ),
        g.n() >= 1 && !unit_weights(*g) ==> solver_scores_ok(
            scores@,
            weighted_rows_view(*g),
            uniform_spec(g.n()),
            default_config_spec(),
            g.n(),
        ),
{
    let run = pagerank_run(g);
    proof {
        if g.n() >= 1 {
            if unit_weights(*g) {
                assert(solver_run_ok(
                    run.scores@,
                    run.iterations as int,
                    run.diff_l1 as int,
                    run.converged,
                    unit_rows_view(*g),
                    uniform_spec(g.n()),
                    default_config_spec(),
                    g.n(),
                ));
            } else {
                assert(solver_run_ok(
                    run.scores@,
                    run.iterations as int,
                    run.diff_l1 as int,
                    run.converged,
                    weighted_rows_view(*g),
                    uniform_spec(g.n()),
                    default_config_spec(),
                    g.n(),
                ));
            }
        }
    }
    run.scores
}

/// Personalized PageRank with diagnostics: the teleport and dangling mass
/// follow the given personalization vector, renormalized to sum to one, or
/// replaced by the uniform distribution when it sums to zero.
pub fn personalized_pagerank_run<N>(
    g: &Graph<N>,
    cfg: PageRankConfig,
    personalization: &Vec<u64>,
) -> (run: PageRankRun)
    requires
        g.wf(),
        cfg.valid(),
        g.n() != 0 ==> personalization@.len() == g.n(),
    ensures
        run.scores@.len() == g.n(),
        g.n() >= 1 ==> sum64(run.scores@) == FIXED_ONE as int,
        forall|i: int| 0 <= i < g.n() ==> #[trigger] run.scores@[i] <= FIXED_ONE,
        run.converged <==> run.diff_l1 <= cfg.tol,
        !run.converged ==> run.iterations == cfg.max_iters,
        run.iterations <= cfg.max_iters,
        g.n() == 0 ==> run.iterations == 0 && run.converged,
        g.n() >= 1 ==> solver_run_ok(
            run.scores@,
            run.iterations as int,
            run.diff_l1 as int,
            run.converged,
            weighted_rows_view(*g),
            normalize_spec(personalization@, g.n()),
            cfg,
            g.n(),
        ),
{
    let n = g.node_count();
    if n == 0 {
        return PageRankRun { scores: Vec::new(), iterations: 0, diff_l1: 0, converged: true };
    }
    let tele = normalize_teleport(n, personalization);
    let (rows, wsums) = weighted_rows(g);
    pagerank_core(n, &rows, &wsums, &tele, cfg)
}

/// The solver is a pure function of its inputs: any two finished solves
/// over the same transition structure, teleport vector and configuration
/// agree exactly — scores, iteration count, final delta and the converged
/// flag. In particular the scores-only and diagnostics entry points can
/// never disagree.
pub proof fn lemma_solver_deterministic(
    s1: Seq<u64>,
    i1: int,
    d1: int,
    c1: bool,
    s2: Seq<u64>,
    i2: int,
    d2: int,
    c2: bool,
    rows: Seq<Seq<Edge>>,
    tele: Seq<u64>,
    cfg: PageRankConfig,
    n: int,
)
    requires
        solver_run_ok(s1, i1, d1, c1, rows, tele, cfg, n),
        solver_run_ok(s2, i2, d2, c2, rows, tele, cfg, n),
    ensures
        s1 == s2,
        i1 == i2,
        d1 == d2,
        c1 == c2,
{
    if i1 < i2 {
        // Run 2 says every delta before i2 is above tolerance, so run 1
        // cannot have stopped converged at i1; unconverged it would have
        // used all iterations, contradicting i1 < i2 <= max_iters.
        assert(l1_dist(
            iterate_spec(rows, tele, cfg.damping, n, i1 as nat),
            iterate_spec(rows, tele, cfg.damping, n, (i1 - 1) as nat),
            n,
        ) > cfg.tol);
        assert(!c1);
        assert(false);
    }
    if i2 < i1 {
        assert(l1_dist(
            iterate_spec(rows, tele, cfg.damping, n, i2 as nat),
            iterate_spec(rows, tele, cfg.damping, n, (i2 - 1) as nat),
            n,
        ) > cfg.tol);
        assert(!c2);
        assert(false);
    }
}

/// On a row of unit count-weights, the weight prefix is the entry count.
proof fn lemma_wprefix_ones(row: Seq<Edge>, k: int)
    requires
        0 <= k <= row.len(),
        forall|j: int| 0 <= j < row.len() ==> (#[trigger] row[j]).weight == 1,
    ensures
        wprefix(row, k) == k,
    decreases k,
{
    if k > 0 {
        lemma_wprefix_ones(row, k - 1);
    }
}

/// On a row whose weights are all exactly one (`FIXED_ONE`), the weight
/// prefix is the entry count scaled by `FIXED_ONE`.
proof fn lemma_wprefix_all_one(row: Seq<Edge>, k: int)
    requires
        0 <= k <= row.len(),
        forall|j: int| 0 <= j < row.len() ==> (#[trigger] row[j]).weight == FIXED_ONE,
    ensures
        wprefix(row, k) == k * (FIXED_ONE as int),
    decreases k,
{
    if k > 0 {
        lemma_wprefix_all_one(row, k - 1);
        assert(k * (FIXED_ONE as int) == (k - 1) * (FIXED_ONE as int) + FIXED_ONE)
            by (nonlinear_arith)
        {}
    }
}

/// Distributing over a row of all-one weights hands out the same shares as
/// distributing over the same row with every weight counted as one: the
/// shares are scale-invariant.
proof fn lemma_dist_row_scale(next: Seq<u64>, pru: u64, row: Seq<Edge>, k: int)
    requires
        0 <= k <= row.len(),
        forall|j: int| 0 <= j < row.len() ==> (#[trigger] row[j]).weight == FIXED_ONE,
        row.len() >= 1,
    ensures
        dist_row_spec(
            next,
            pru,
            row.map_values(|e: Edge| Edge { to: e.to, weight: 1 }),
            row.len() as int,
            k,
        ) == dist_row_spec(next, pru, row, row.len() as int * (FIXED_ONE as int), k),
    decreases k,
{
    let unit_row = row.map_values(|e: Edge| Edge { to: e.to, weight: 1 });
    let d = row.len() as int;
    if k > 0 {
        lemma_dist_row_scale(next, pru, row, k - 1);
        let e = row[k - 1];
        let eu = unit_row[k - 1];
        assert(eu.to == e.to && eu.weight == 1 && e.weight == FIXED_ONE);
        vstd::arithmetic::div_mod::lemma_div_multiples_vanish_quotient(
            FIXED_ONE as int,
            pru as int,
            d,
        );
        assert((pru as int) * (eu.weight as int) == pru as int) by (nonlinear_arith)
            requires
                eu.weight == 1,
        {}
        assert((pru as int) * (e.weight as int) == (FIXED_ONE as int) * (pru as int))
            by (nonlinear_arith)
            requires
                e.weight == FIXED_ONE,
        {}
        assert(d * (FIXED_ONE as int) == (FIXED_ONE as int) * d) by (nonlinear_arith) {}
        assert((pru as int) * (eu.weight as int) / d == (pru as int) * (e.weight as int) / (d
            * (FIXED_ONE as int)));
    }
}

/// The whole distribution pass is scale-invariant on all-one weights.
proof fn lemma_dist_scale(pr: Seq<u64>, rows: Seq<Seq<Edge>>, n: int, u: int)
    requires
        0 <= u <= rows.len(),
        forall|b: int, j: int|
            0 <= b < rows.len() && 0 <= j < rows[b].len() ==> (#[trigger] rows[b][j]).weight
                == FIXED_ONE,
    ensures
        dist_spec(pr, rows_unit(rows), n, u) == dist_spec(pr, rows, n, u),
    decreases u,
{
    if u > 0 {
        lemma_dist_scale(pr, rows, n, u - 1);
        let row = rows[u - 1];
        let unit_row = rows_unit(rows)[u - 1];
        assert(unit_row == row.map_values(|e: Edge| Edge { to: e.to, weight: 1 }));
        assert(forall|j: int| 0 <= j < row.len() ==> (#[trigger] row[j]).weight == FIXED_ONE);
        assert(forall|j: int|
            0 <= j < unit_row.len() ==> (#[trigger] unit_row[j]).weight == 1) by {
            assert forall|j: int|
                0 <= j < unit_row.len() implies (#[trigger] unit_row[j]).weight == 1 by {
                assert(unit_row[j] == (Edge { to: row[j].to, weight: 1 }));
            }
        }
        lemma_wprefix_ones(unit_row, unit_row.len() as int);
        lemma_wprefix_all_one(row, row.len() as int);
        if row.len() >= 1 {
            assert(row.len() as int * (FIXED_ONE as int) > 0) by (nonlinear_arith)
                requires
                    row.len() >= 1,
            {}
            lemma_dist_row_scale(
                dist_spec(pr, rows, n, u - 1).0,
                pr[u - 1],
                row,
                row.len() as int,
            );
        }
    }
}

/// Power iteration is scale-invariant on all-one weights: the unweighted
/// fast path and the weighted path produce the same iterates.
proof fn lemma_iterate_scale(rows: Seq<Seq<Edge>>, tele: Seq<u64>, damp: u64, n: int, k: nat)
    requires
        forall|b: int, j: int|
            0 <= b < rows.len() && 0 <= j < rows[b].len() ==> (#[trigger] rows[b][j]).weight
                == FIXED_ONE,
        n == rows.len(),
    ensures
        iterate_spec(rows_unit(rows), tele, damp, n, k) == iterate_spec(rows, tele, damp, n, k),
    decreases k,
{
    reveal_with_fuel(iterate_spec, 1);
    if k > 0 {
        lemma_iterate_scale(rows, tele, damp, n, (k - 1) as nat);
        let prev = iterate_spec(rows, tele, damp, n, (k - 1) as nat);
        lemma_dist_scale(prev, rows, n, n);
        assert(rows_unit(rows).len() == n);
        assert(step_spec(prev, rows_unit(rows), tele, damp, n) == step_spec(
            prev,
            rows,
            tele,
            damp,
            n,
        ));
    }
}

/// Choosing the unweighted fast path on an all-one-weights graph is a
/// performance decision, not a behavioral one: a solve through the unit
/// transition structure and a solve through the weighted one agree exactly
/// — scores, iteration count, final delta and the converged flag.
pub proof fn lemma_fast_path_agrees(
    g_rows: Seq<Seq<Edge>>,
    tele: Seq<u64>,
    cfg: PageRankConfig,
    n: int,
    s1: Seq<u64>,
    i1: int,
    d1: int,
    c1: bool,
    s2: Seq<u64>,
    i2: int,
    d2: int,
    c2: bool,
)
    requires
        n == g_rows.len(),
        forall|b: int, j: int|
            0 <= b < g_rows.len() && 0 <= j < g_rows[b].len() ==> (#[trigger] g_rows[b][j]).weight
                == FIXED_ONE,
        solver_run_ok(s1, i1, d1, c1, rows_unit(g_rows), tele, cfg, n),
        solver_run_ok(s2, i2, d2, c2, g_rows, tele, cfg, n),
    ensures
        s1 == s2,
        i1 == i2,
        d1 == d2,
        c1 == c2,
{
    assert forall|k: nat| #[trigger]
        iterate_spec(rows_unit(g_rows), tele, cfg.damping, n, k) == iterate_spec(
        g_rows,
        tele,
        cfg.damping,
        n,
        k,
    ) by {
        lemma_iterate_scale(g_rows, tele, cfg.damping, n, k);
    }
    assert(solver_run_ok(s1, i1, d1, c1, g_rows, tele, cfg, n)) by {
        assert(s1 == iterate_spec(g_rows, tele, cfg.damping, n, i1 as nat));
        assert(d1 == l1_dist(
            iterate_spec(g_rows, tele, cfg.damping, n, i1 as nat),
            iterate_spec(g_rows, tele, cfg.damping, n, (i1 - 1) as nat),
            n,
        ));
        assert forall|j: nat| 1 <= j < i1 implies l1_dist(
            #[trigger] iterate_spec(g_rows, tele, cfg.damping, n, j),
            iterate_spec(g_rows, tele, cfg.damping, n, (j - 1) as nat),
            n,
        ) > cfg.tol by {
            assert(l1_dist(
                iterate_spec(rows_unit(g_rows), tele, cfg.damping, n, j),
                iterate_spec(rows_unit(g_rows), tele, cfg.damping, n, (j - 1) as nat),
                n,
            ) > cfg.tol);
        }
    }
    lemma_solver_deterministic(s1, i1, d1, c1, s2, i2, d2, c2, g_rows, tele, cfg, n);
}

/// The automatic weighted/unweighted selection cannot change behavior: on a
/// graph whose edge weights are all exactly one, an unweighted solve and a
/// weighted solve return the same scores and diagnostics.
pub proof fn lemma_auto_selection_is_policy<N>(
    g: Graph<N>,
    cfg: PageRankConfig,
    s1: Seq<u64>,
    i1: int,
    d1: int,
    c1: bool,
    s2: Seq<u64>,
    i2: int,
    d2: int,
    c2: bool,
)
    requires
        g.n() >= 1,
        unit_weights(g),
        solver_run_ok(s1, i1, d1, c1, unit_rows_view(g), uniform_spec(g.n()), cfg, g.n()),
        solver_run_ok(s2, i2, d2, c2, weighted_rows_view(g), uniform_spec(g.n()), cfg, g.n()),
    ensures
        s1 == s2,
        i1 == i2,
        d1 == d2,
        c1 == c2,
{
    let rows = weighted_rows_view(g);
    assert forall|b: int, j: int|
        0 <= b < rows.len() && 0 <= j < rows[b].len() implies (#[trigger] rows[b][j]).weight
        == FIXED_ONE by {
        assert(rows[b] == g.row(b));
        assert(g.row(b)[j].weight == FIXED_ONE);
    }
    assert(unit_rows_view(g) =~~= rows_unit(rows));
    lemma_fast_path_agrees(
        rows,
        uniform_spec(g.n()),
        cfg,
        g.n(),
        s1,
        i1,
        d1,
        c1,
        s2,
        i2,
        d2,
        c2,
    );
}

/// Every weight in the row structure is exactly one.
pub open spec fn rows_all_unit(rows: Seq<Seq<Edge>>) -> bool {
    forall|b: int, k: int|
        0 <= b < rows.len() && 0 <= k < rows[b].len() ==> (#[trigger] rows[b][k]).weight
            == FIXED_ONE
}

/// The row structure with every weight replaced by one edge count unit.
pub open spec fn rows_unit(rows: Seq<Seq<Edge>>) -> Seq<Seq<Edge>> {
    rows.map_values(|row: Seq<Edge>| row.map_values(|e: Edge| Edge { to: e.to, weight: 1 }))
}

/// A default-configuration solve on `g`, through whichever transition
/// structure the all-unit-weights test selects.
pub open spec fn auto_solver_run_ok<N>(
    scores: Seq<u64>,
    iterations: int,
    diff_l1: int,
    converged: bool,
    g: Graph<N>,
) -> bool {
    &&& (unit_weights(g) ==> solver_run_ok(
        scores,
        iterations,
        diff_l1,
        converged,
        unit_rows_view(g),
        uniform_spec(g.n()),
        default_config_spec(),
        g.n(),
    ))
    &&& (!unit_weights(g) ==> solver_run_ok(
        scores,
        iterations,
        diff_l1,
        converged,
        weighted_rows_view(g),
        uniform_spec(g.n()),
        default_config_spec(),
        g.n(),
    ))
}

/// PageRank of the reversed graph, with diagnostics: ranks nodes by who
/// consumes (depends on) them. Node indices align with the input graph,
/// because reversal preserves them.
pub fn consumers_pagerank_run<N: Clone>(g: &Graph<N>) -> (run: PageRankRun)
    requires
        g.wf(),
    ensures
        run.scores@.len() == g.n(),
        g.n() >= 1 ==> sum64(run.scores@) == FIXED_ONE as int,
        forall|i: int| 0 <= i < g.n() ==> #[trigger] run.scores@[i] <= FIXED_ONE,
        run.converged <==> run.diff_l1 <= DEFAULT_TOL,
        !run.converged ==> run.iterations == DEFAULT_MAX_ITERS,
        g.n() == 0 ==> run.iterations == 0 && run.converged,
        g.n() >= 1 ==> exists|r: Graph<N>|
            r.wf() && #[trigger] crate::transform::is_reverse_of(r, *g) && auto_solver_run_ok(
                run.scores@,
                run.iterations as int,
                run.diff_l1 as int,
                run.converged,
                r,
            ),
        g.n() >= 1 && rows_all_unit(crate::transform::reversed_rows(*g)) ==> solver_run_ok(
            run.scores@,
            run.iterations as int,
            run.diff_l1 as int,
            run.converged,
            rows_unit(crate::transform::reversed_rows(*g)),
            uniform_spec(g.n()),
            default_config_spec(),
            g.n(),
        ),
        g.n() >= 1 && !rows_all_unit(crate::transform::reversed_rows(*g)) ==> solver_run_ok(
            run.scores@,
            run.iterations as int,
            run.diff_l1 as int,
            run.converged,
            crate::transform::reversed_rows(*g),
            uniform_spec(g.n()),
            default_config_spec(),
            g.n(),
        ),
{
    let r = crate::transform::reverse_graph(g);
    let run = pagerank_run(&r);
    proof {
        if g.n() >= 1 {
            assert(r.wf() && crate::transform::is_reverse_of(r, *g) && auto_solver_run_ok(
                run.scores@,
                run.iterations as int,
                run.diff_l1 as int,
                run.converged,
                r,
            ));
            lemma_reversal_views(*g, r);
        }
    }
    run
}

/// A graph whose rows are the canonical reversed rows of `g` presents the
/// solver with a transition structure determined by `g` alone.
proof fn lemma_reversal_views<N>(g: Graph<N>, r: Graph<N>)
    requires
        r.n() == g.n(),
        forall|b: int|
            0 <= b < g.n() ==> #[trigger] r.row(b) == crate::transform::in_row_upto(
                g,
                b,
                g.n(),
            ),
    ensures
        weighted_rows_view(r) == crate::transform::reversed_rows(g),
        unit_rows_view(r) == rows_unit(crate::transform::reversed_rows(g)),
        unit_weights(r) == rows_all_unit(crate::transform::reversed_rows(g)),
{
    let rr = crate::transform::reversed_rows(g);
    assert(weighted_rows_view(r) =~~= rr);
    assert(unit_rows_view(r) =~~= rows_unit(rr));
    assert(unit_weights(r) == rows_all_unit(rr)) by {
        if unit_weights(r) {
            assert forall|b: int, k: int|
                0 <= b < rr.len() && 0 <= k < rr[b].len() implies (#[trigger] rr[b][k]).weight
                == FIXED_ONE by {
                assert(r.row(b)[k].weight == FIXED_ONE);
            }
        }
        if rows_all_unit(rr) {
            assert forall|u: int, k: int|
                0 <= u < r.n() && 0 <= k < r.row(u).len() implies (#[trigger] r.row(u)[k]).weight
                == FIXED_ONE by {
                assert(rr[u][k].weight == FIXED_ONE);
            }
        }
    }
}

/// Reversal symmetry: the consumers scores of `g` coincide exactly —
/// pointwise, with the same diagnostics — with a plain default PageRank run
/// on the reversed graph, whenever that graph carries the canonical
/// reversed rows that `reverse_graph` builds.
pub proof fn lemma_consumers_matches_reverse<N>(
    g: Graph<N>,
    gr: Graph<N>,
    cs: Seq<u64>,
    ci: int,
    cd: int,
    cc: bool,
    ps: Seq<u64>,
    pi: int,
    pd: int,
    pc: bool,
)
    requires
        g.n() >= 1,
        gr.n() == g.n(),
        forall|b: int|
            0 <= b < g.n() ==> #[trigger] gr.row(b) == crate::transform::in_row_upto(
                g,
                b,
                g.n(),
            ),
        rows_all_unit(crate::transform::reversed_rows(g)) ==> solver_run_ok(
            cs,
            ci,
            cd,
            cc,
            rows_unit(crate::transform::reversed_rows(g)),
            uniform_spec(g.n()),
            default_config_spec(),
            g.n(),
        ),
        !rows_all_unit(crate::transform::reversed_rows(g)) ==> solver_run_ok(
            cs,
            ci,
            cd,
            cc,
            crate::transform::reversed_rows(g),
            uniform_spec(g.n()),
            default_config_spec(),
            g.n(),
        ),
        unit_weights(gr) ==> solver_run_ok(
            ps,
            pi,
            pd,
            pc,
            unit_rows_view(gr),
            uniform_spec(gr.n()),
            default_config_spec(),
            gr.n(),
        ),
        !unit_weights(gr) ==> solver_run_ok(
            ps,
            pi,
            pd,
            pc,
            weighted_rows_view(gr),
            uniform_spec(gr.n()),
            default_config_spec(),
            gr.n(),
        ),
    ensures
        cs == ps,
        ci == pi,
        cd == pd,
        cc == pc,
{
    lemma_reversal_views(g, gr);
    let rr = crate::transform::reversed_rows(g);
    if rows_all_unit(rr) {
        lemma_solver_deterministic(
            cs,
            ci,
            cd,
            cc,
            ps,
            pi,
            pd,
            pc,
            rows_unit(rr),
            uniform_spec(g.n()),
            default_config_spec(),
            g.n(),
        );
    } else {
        lemma_solver_deterministic(
            cs,
            ci,
            cd,
            cc,
            ps,
            pi,
            pd,
            pc,
            rr,
            uniform_spec(g.n()),
            default_config_spec(),
            g.n(),
        );
    }
}

/// PageRank of the reversed graph, scores only: the scores of
/// [`consumers_pagerank_run`], which it returns.
pub fn consumers_pagerank<N: Clone>(g: &Graph<N>) -> (scores: Vec<u64>)
    requires
        g.wf(),
    ensures
        scores@.len() == g.n(),
        g.n() >= 1 ==> sum64(scores@) == FIXED_ONE as int,
        forall|i: int| 0 <= i < g.n() ==> #[trigger] scores@[i] <= FIXED_ONE,
        g.n() >= 1 && rows_all_unit(crate::transform::reversed_rows(*g)) ==> solver_scores_ok(
            scores@,
            rows_unit(crate::transform::reversed_rows(*g)),
            uniform_spec(g.n()),
            default_config_spec(),
            g.n(),
        ),
        g.n() >= 1 && !rows_all_unit(crate::transform::reversed_rows(*g)) ==> solver_scores_ok(
            scores@,
            crate::transform::reversed_rows(*g),
            uniform_spec(g.n()),
            default_config_spec(),
            g.n(),
        ),
{
    let run = consumers_pagerank_run(g);
    proof {
        if g.n() >= 1 {
            let rr = crate::transform::reversed_rows(*g);
            if rows_all_unit(rr) {
                assert(solver_run_ok(
                    run.scores@,
                    run.iterations as int,
                    run.diff_l1 as int,
                    run.converged,
                    rows_unit(rr),
                    uniform_spec(g.n()),
                    default_config_spec(),
                    g.n(),
                ));
            } else {
                assert(solver_run_ok(
                    run.scores@,
                    run.iterations as int,
                    run.diff_l1 as int,
                    run.converged,
                    rr,
                    uniform_spec(g.n()),
                    default_config_spec(),
                    g.n(),
                ));
            }
        }
    }
    run.scores
}

/// Personalized PageRank, scores only.
pub fn personalized_pagerank<N>(
    g: &Graph<N>,
    cfg: PageRankConfig,
    personalization: &Vec<u64>,
) -> (scores: Vec<u64>)
    requires
        g.wf(),
        cfg.valid(),
        g.n() != 0 ==> personalization@.len() == g.n(),
    ensures
        scores@.len() == g.n(),
        g.n() >= 1 ==> sum64(scores@) == FIXED_ONE as int,
        forall|i: int| 0 <= i < g.n() ==> #[trigger] scores@[i] <= FIXED_ONE,
        g.n() >= 1 ==> solver_scores_ok(
            scores@,
            weighted_rows_view(*g),
            normalize_spec(personalization@, g.n()),
            cfg,
            g.n(),
        ),
{
    let run = personalized_pagerank_run(g, cfg, personalization);
    proof {
        if g.n() >= 1 {
            assert(solver_run_ok(
                run.scores@,
                run.iterations as int,
                run.diff_l1 as int,
                run.converged,
                weighted_rows_view(*g),
                normalize_spec(personalization@, g.n()),
                cfg,
                g.n(),
            ));
        }
    }
    run.scores
}

} // verus!
