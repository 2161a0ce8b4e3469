//! Reachability counts: for every node, how many distinct nodes it can reach
//! (dependencies) and how many can reach it (dependents), by breadth-first
//! search with an epoch-stamped visited array reused across all runs.
//!
//! The input is a raw edge list over `n` nodes; edges with an endpoint out
//! of range are silently skipped — a documented policy of this engine, not
//! an error.

use vstd::prelude::*;
use vstd::set_lib::{lemma_int_range, lemma_len_subset, set_int_range};

verus! {

/// One expansion step: everything in `s`, plus every node with a valid edge
/// from a node in `s`.
pub open spec fn step(n: int, edges: Seq<(usize, usize)>, s: Set<int>) -> Set<int> {
    s.union(
        Set::new(
            |v: int|
                exists|k: int|
                    0 <= k < edges.len() && (#[trigger] edges[k]).0 < n && edges[k].1 < n
                        && s.contains(edges[k].0 as int) && edges[k].1 as int == v,
        ),
    )
}

/// The nodes reachable from `src` in at most `k` steps along valid edges.
pub open spec fn reach_within(n: int, edges: Seq<(usize, usize)>, src: int, k: nat) -> Set<int>
    decreases k,
{
    if k == 0 {
        set![src]
    } else {
        step(n, edges, reach_within(n, edges, src, (k - 1) as nat))
    }
}

/// `v` is reachable from `src` in some number of steps (zero included, so
/// every node reaches itself).
pub open spec fn reaches(n: int, edges: Seq<(usize, usize)>, src: int, v: int) -> bool {
    exists|k: nat| reach_within(n, edges, src, k).contains(v)
}

/// The set of nodes reachable from `src`, `src` itself included.
pub open spec fn reach_set(n: int, edges: Seq<(usize, usize)>, src: int) -> Set<int> {
    Set::new(|v: int| reaches(n, edges, src, v))
}

/// The edge list with every pair flipped: the reverse graph.
pub open spec fn swap_edges(edges: Seq<(usize, usize)>) -> Seq<(usize, usize)> {
    edges.map_values(|e: (usize, usize)| (e.1, e.0))
}

/// Taking one more step after a reachable node stays reachable.
proof fn lemma_reaches_step(n: int, edges: Seq<(usize, usize)>, src: int, u: int, k: int)
    requires
        reaches(n, edges, src, u),
        0 <= k < edges.len(),
        edges[k].0 < n,
        edges[k].1 < n,
        edges[k].0 as int == u,
    ensures
        reaches(n, edges, src, edges[k].1 as int),
    decreases 0nat,
{
    let steps = choose|steps: nat| reach_within(n, edges, src, steps).contains(u);
    let r = reach_within(n, edges, src, steps);
    let v = edges[k].1 as int;
    assert(step(n, edges, r).contains(v));
    assert(reach_within(n, edges, src, steps + 1) == step(n, edges, r));
    assert(reach_within(n, edges, src, steps + 1).contains(v));
}

/// A set that contains the source and is closed under valid edges contains
/// every `reach_within` stage.
proof fn lemma_closed_contains_stage(
    n: int,
    edges: Seq<(usize, usize)>,
    src: int,
    vset: Set<int>,
    k: nat,
)
    requires
        vset.contains(src),
        forall|j: int|
            0 <= j < edges.len() && (#[trigger] edges[j]).0 < n && edges[j].1 < n
                && vset.contains(edges[j].0 as int) ==> vset.contains(edges[j].1 as int),
    ensures
        reach_within(n, edges, src, k).subset_of(vset),
    decreases k,
{
    if k == 0 {
    } else {
        lemma_closed_contains_stage(n, edges, src, vset, (k - 1) as nat);
        let prev = reach_within(n, edges, src, (k - 1) as nat);
        assert forall|v: int| reach_within(n, edges, src, k).contains(v) implies vset.contains(
            v,
        ) by {
            if !prev.contains(v) {
                let j = choose|j: int|
                    0 <= j < edges.len() && (#[trigger] edges[j]).0 < n && edges[j].1 < n
                        && prev.contains(edges[j].0 as int) && edges[j].1 as int == v;
                assert(vset.contains(edges[j].0 as int));
            }
        }
    }
}

/// A valid edge `(u, v)` occurs among the first `k` entries of the list.
pub open spec fn edge_present_upto(
    n: int,
    edges: Seq<(usize, usize)>,
    k: int,
    u: int,
    v: int,
) -> bool {
    exists|j: int|
        0 <= j < k && j < edges.len() && (#[trigger] edges[j]).0 < n && edges[j].1 < n
            && edges[j].0 as int == u && edges[j].1 as int == v
}

/// A valid edge `(u, v)` occurs in the list.
pub open spec fn edge_present(n: int, edges: Seq<(usize, usize)>, u: int, v: int) -> bool {
    edge_present_upto(n, edges, edges.len() as int, u, v)
}

/// Row `u` of the adjacency structure holds `v`.
pub open spec fn adj_has(adj: Seq<Vec<usize>>, u: int, v: int) -> bool {
    exists|j: int| 0 <= j < adj[u]@.len() && (#[trigger] adj[u]@[j]) as int == v
}

/// The adjacency structure holds exactly the valid edges of the list.
pub open spec fn adj_matches(n: int, adj: Seq<Vec<usize>>, edges: Seq<(usize, usize)>) -> bool {
    &&& adj.len() == n
    &&& forall|u: int, j: int|
        0 <= u < n && 0 <= j < adj[u]@.len() ==> (#[trigger] adj[u]@[j]) < n
    &&& forall|u: int, v: int|
        0 <= u < n && 0 <= v < n ==> ((#[trigger] adj_has(adj, u, v)) <==> edge_present(
            n,
            edges,
            u,
            v,
        ))
}

/// Node `u` still waits in the queue at or after position `head`.
pub open spec fn in_pending(queue: Seq<usize>, head: int, u: int) -> bool {
    exists|i: int| head <= i < queue.len() && (#[trigger] queue[i]) as int == u
}

/// A visited array stamped with an epoch: beginning a new run bumps the
/// stamp instead of clearing the array, and the explicit wrap-around branch
/// zeroes everything when the counter would overflow.
pub struct EpochVisited {
    pub stamps: Vec<u32>,
    pub epoch: u32,
}

impl EpochVisited {
    /// No stamp is ever ahead of the current epoch.
    pub open spec fn wf(self) -> bool {
        &&& self.epoch >= 1
        &&& forall|i: int| 0 <= i < self.stamps@.len() ==> self.stamps@[i] <= self.epoch
    }

    /// Number of slots.
    pub open spec fn size(self) -> int {
        self.stamps@.len() as int
    }

    /// Slot `i` is marked in the current run.
    pub open spec fn marked(self, i: int) -> bool {
        self.stamps@[i] == self.epoch
    }

    /// A fresh visited array over `n` slots.
    pub fn new(n: usize) -> (vis: EpochVisited)
        ensures
            vis.wf(),
            vis.size() == n,
            forall|i: int| 0 <= i < n ==> !vis.marked(i),
    {
        EpochVisited::new_at(n, 1)
    }

    /// A visited array whose epoch counter starts at `epoch`, so the
    /// wrap-around reset can be exercised without billions of runs.
    pub fn new_at(n: usize, epoch: u32) -> (vis: EpochVisited)
        requires
            epoch >= 1,
        ensures
            vis.wf(),
            vis.size() == n,
            vis.epoch == epoch,
            forall|i: int| 0 <= i < n ==> !vis.marked(i),
    {
        let mut stamps: Vec<u32> = Vec::new();
        let mut i: usize = 0;
        while i < n
            invariant
                stamps@.len() == i,
                0 <= i <= n,
                forall|j: int| 0 <= j < i ==> stamps@[j] == 0,
            decreases n - i,
        {
            stamps.push(0);
            i += 1;
        }
        EpochVisited { stamps, epoch }
    }

    /// Starts a new run: afterwards nothing is marked. When the epoch
    /// counter is about to overflow, the whole array is reset to zero and
    /// stamping restarts from the beginning.
    pub fn begin(&mut self)
        requires
            old(self).wf(),
        ensures
            final(self).wf(),
            final(self).size() == old(self).size(),
            forall|i: int| 0 <= i < final(self).size() ==> !final(self).marked(i),
    {
        if self.epoch == u32::MAX {
            let n = self.stamps.len();
            let mut i: usize = 0;
            while i < n
                invariant
                    self.stamps@.len() == n,
                    0 <= i <= n,
                    forall|j: int| 0 <= j < i ==> self.stamps@[j] == 0,
                decreases n - i,
            {
                self.stamps.set(i, 0);
                i += 1;
            }
            self.epoch = 1;
        }
        self.epoch = self.epoch + 1;
    }

    /// Marks slot `i` for the current run.
    pub fn mark(&mut self, i: usize)
        requires
            old(self).wf(),
            i < old(self).size(),
        ensures
            final(self).wf(),
            final(self).size() == old(self).size(),
            final(self).epoch == old(self).epoch,
            final(self).marked(i as int),
            forall|j: int|
                0 <= j < final(self).size() && j != i ==> final(self).marked(j) == old(
                    self,
                ).marked(j),
    {
        let e = self.epoch;
        self.stamps.set(i, e);
    }

    /// Whether slot `i` is marked in the current run.
    pub fn is_marked(&self, i: usize) -> (b: bool)
        requires
            i < self.size(),
        ensures
            b == self.marked(i as int),
    {
        self.stamps[i] == self.epoch
    }
}

/// Breadth-first search from `s` over the adjacency structure, counting the
/// distinct nodes reached other than `s` itself. The visited array is
/// reused: the search opens a fresh epoch instead of clearing it.
fn bfs_count(
    n: usize,
    adj: &Vec<Vec<usize>>,
    s: usize,
    vis: &mut EpochVisited,
    Ghost(edges): Ghost<Seq<(usize, usize)>>,
) -> (c: usize)
    requires
        s < n,
        adj_matches(n as int, adj@, edges),
        old(vis).wf(),
        old(vis).size() == n,
    ensures
        final(vis).wf(),
        final(vis).size() == n,
        reach_set(n as int, edges, s as int).finite(),
        c as int == reach_set(n as int, edges, s as int).len() - 1,
{
    let ghost ni = n as int;
    let ghost si = s as int;
    vis.begin();
    vis.mark(s);
    let mut queue: Vec<usize> = Vec::new();
    queue.push(s);
    let mut head: usize = 0;
    let mut c: usize = 0;
    let ghost mut vset: Set<int> = Set::empty().insert(si);
    proof {
        vstd::set::axiom_set_insert_len(Set::<int>::empty(), si);
        assert(vset.len() == 1);
        lemma_int_range(0, ni);
        lemma_len_subset(vset, set_int_range(0, ni));
        assert(reach_within(ni, edges, si, 0).contains(si));
        assert(queue@[0] as int == si);
        assert(in_pending(queue@, 0, si));
    }
    while head < queue.len()
        invariant
            adj_matches(ni, adj@, edges),
            ni == n as int,
            si == s as int,
            s < n,
            vis.wf(),
            vis.size() == n,
            0 <= head <= queue@.len(),
            queue@.len() == vset.len(),
            vset.finite(),
            vset.len() <= n,
            c as int == vset.len() - 1,
            vset.contains(si),
            forall|i: int| 0 <= i < queue@.len() ==> (#[trigger] queue@[i]) < n,
            forall|i: int| 0 <= i < queue@.len() ==> vset.contains(#[trigger] queue@[i] as int),
            forall|v: int| #![trigger vset.contains(v)] #![trigger vis.marked(v)]
                vset.contains(v) <==> (0 <= v < n && vis.marked(v)),
            forall|v: int| #[trigger] vset.contains(v) ==> reaches(ni, edges, si, v),
            forall|w: int, j: int|
                vset.contains(w) && !in_pending(queue@, head as int, w) && 0 <= j
                    < adj@[w]@.len() ==> vset.contains(#[trigger] adj@[w]@[j] as int),
        decreases n - head,
    {
        let u = queue[head];
        let ghost head_old = head as int;
        head += 1;
        proof {
            assert forall|w: int|
                in_pending(queue@, head_old, w) && w != u as int implies in_pending(
                queue@,
                head as int,
                w,
            ) by {
                let i = choose|i: int|
                    head_old <= i < queue@.len() && (#[trigger] queue@[i]) as int == w;
                assert(i != head_old);
                assert(head as int <= i < queue@.len() && queue@[i] as int == w);
            }
        }
        let d = adj[u].len();
        let mut j: usize = 0;
        while j < d
            invariant
                adj_matches(ni, adj@, edges),
                ni == n as int,
                si == s as int,
                s < n,
                u < n,
                vset.contains(u as int),
                d == adj@[u as int]@.len(),
                0 <= j <= d,
                vis.wf(),
                vis.size() == n,
                0 <= head <= queue@.len(),
                queue@.len() == vset.len(),
                vset.finite(),
                vset.len() <= n,
                c as int == vset.len() - 1,
                vset.contains(si),
                forall|i: int| 0 <= i < queue@.len() ==> (#[trigger] queue@[i]) < n,
                forall|i: int|
                    0 <= i < queue@.len() ==> vset.contains(#[trigger] queue@[i] as int),
                forall|v: int| #![trigger vset.contains(v)] #![trigger vis.marked(v)]
                    vset.contains(v) <==> (0 <= v < n && vis.marked(v)),
                forall|v: int| #[trigger] vset.contains(v) ==> reaches(ni, edges, si, v),
                forall|jj: int| 0 <= jj < j ==> vset.contains(#[trigger] adj@[u as int]@[jj] as int),
                forall|w: int, jj: int|
                    vset.contains(w) && !in_pending(queue@, head as int, w) && w != u as int
                        && 0 <= jj < adj@[w]@.len() ==> vset.contains(
                        #[trigger] adj@[w]@[jj] as int,
                    ),
            decreases d - j,
        {
            let v = adj[u][j];
            if !vis.is_marked(v) {
                vis.mark(v);
                proof {
                    let vi = v as int;
                    assert(!vset.contains(vi));
                    vstd::set::axiom_set_insert_len(vset, vi);
                    let vset_new = vset.insert(vi);
                    assert(vset_new.subset_of(set_int_range(0, ni)));
                    lemma_int_range(0, ni);
                    lemma_len_subset(vset_new, set_int_range(0, ni));
                    // v is reachable: u is, and (u, v) is a valid present edge.
                    assert(adj_has(adj@, u as int, vi));
                    assert(edge_present(ni, edges, u as int, vi));
                    let k = choose|k: int|
                        0 <= k < edges.len() && k < edges.len() && (#[trigger] edges[k]).0 < ni
                            && edges[k].1 < ni && edges[k].0 as int == u as int
                            && edges[k].1 as int == vi;
                    lemma_reaches_step(ni, edges, si, u as int, k);
                    vset = vset_new;
                }
                c += 1;
                let ghost old_q = queue@;
                queue.push(v);
                proof {
                    assert(queue@[queue@.len() - 1] as int == v as int);
                    assert(in_pending(queue@, head as int, v as int));
                    assert forall|w: int|
                        in_pending(old_q, head as int, w) implies in_pending(
                        queue@,
                        head as int,
                        w,
                    ) by {
                        let i = choose|i: int|
                            head as int <= i < old_q.len() && (#[trigger] old_q[i]) as int == w;
                        assert(queue@[i] as int == w);
                    }
                    assert forall|w: int|
                        !in_pending(queue@, head as int, w) implies !in_pending(
                        old_q,
                        head as int,
                        w,
                    ) by {}
                }
            }
            j += 1;
        }
    }
    proof {
        // The queue is drained, so the visited set is closed under valid
        // edges, hence contains everything reachable; soundness gives the
        // other inclusion.
        assert forall|k: int|
            0 <= k < edges.len() && (#[trigger] edges[k]).0 < ni && edges[k].1 < ni
                && vset.contains(edges[k].0 as int) implies vset.contains(
            edges[k].1 as int,
        ) by {
            let u = edges[k].0 as int;
            let v = edges[k].1 as int;
            assert(edge_present_upto(ni, edges, edges.len() as int, u, v));
            assert(adj_has(adj@, u, v));
            let j = choose|j: int| 0 <= j < adj@[u]@.len() && (#[trigger] adj@[u]@[j]) as int == v;
            assert(!in_pending(queue@, head as int, u));
            assert(vset.contains(adj@[u]@[j] as int));
        }
        assert forall|v: int| reach_set(ni, edges, si).contains(v) implies vset.contains(v) by {
            let k = choose|k: nat| reach_within(ni, edges, si, k).contains(v);
            lemma_closed_contains_stage(ni, edges, si, vset, k);
        }
        assert(vset =~= reach_set(ni, edges, si));
    }
    c
}

/// Builds the adjacency rows for the edge list, flipped when asked, skipping
/// edges with an endpoint out of range.
fn build_adj(n: usize, edges: &Vec<(usize, usize)>, flip: bool) -> (adj: Vec<Vec<usize>>)
    ensures
        adj_matches(
            n as int,
            adj@,
            if flip {
                swap_edges(edges@)
            } else {
                edges@
            },
        ),
{
    let ghost target: Seq<(usize, usize)> = if flip {
        swap_edges(edges@)
    } else {
        edges@
    };
    let ghost ni = n as int;
    let mut adj: Vec<Vec<usize>> = Vec::new();
    let mut i: usize = 0;
    while i < n
        invariant
            adj@.len() == i,
            0 <= i <= n,
            forall|u: int| 0 <= u < i ==> (#[trigger] adj@[u])@.len() == 0,
        decreases n - i,
    {
        adj.push(Vec::new());
        i += 1;
    }
    let m = edges.len();
    proof {
        assert(target.len() == edges@.len());
        assert forall|u: int, v: int|
            0 <= u < ni && 0 <= v < ni implies ((#[trigger] adj_has(adj@, u, v))
            <==> edge_present_upto(ni, target, 0, u, v)) by {
            assert(adj@[u]@.len() == 0);
        }
    }
    let mut k: usize = 0;
    while k < m
        invariant
            ni == n as int,
            m == edges@.len(),
            target.len() == m,
            target == (if flip {
                swap_edges(edges@)
            } else {
                edges@
            }),
            0 <= k <= m,
            adj@.len() == n,
            forall|u: int, j: int|
                0 <= u < ni && 0 <= j < adj@[u]@.len() ==> (#[trigger] adj@[u]@[j]) < n,
            forall|u: int, v: int|
                0 <= u < ni && 0 <= v < ni ==> ((#[trigger] adj_has(adj@, u, v))
                    <==> edge_present_upto(ni, target, k as int, u, v)),
        decreases m - k,
    {
        let e = edges[k];
        let (src, dst) = if flip {
            (e.1, e.0)
        } else {
            (e.0, e.1)
        };
        proof {
            assert(target[k as int] == (src, dst));
        }
        let ghost adj_old = adj@;
        if src < n && dst < n {
            adj[src].push(dst);
            proof {
                let su = src as int;
                let dv = dst as int;
                assert(adj@[su]@ == adj_old[su]@.push(dst));
                assert forall|u: int, v: int|
                    0 <= u < ni && 0 <= v < ni implies ((#[trigger] adj_has(adj@, u, v))
                    <==> edge_present_upto(ni, target, k as int + 1, u, v)) by {
                    if u == su {
                        if adj_has(adj@, u, v) {
                            let j = choose|j: int|
                                0 <= j < adj@[u]@.len() && (#[trigger] adj@[u]@[j]) as int == v;
                            if j < adj_old[u]@.len() {
                                assert(adj_has(adj_old, u, v));
                            } else {
                                assert(v == dv);
                                assert(edge_present_upto(ni, target, k as int + 1, u, v));
                            }
                        }
                        if edge_present_upto(ni, target, k as int + 1, u, v) {
                            if edge_present_upto(ni, target, k as int, u, v) {
                                assert(adj_has(adj_old, u, v));
                                let j = choose|j: int|
                                    0 <= j < adj_old[u]@.len() && (#[trigger] adj_old[u]@[j]) as int
                                        == v;
                                assert(adj@[u]@[j] as int == v);
                                assert(adj_has(adj@, u, v));
                            } else {
                                assert(v == dv);
                                let j = adj_old[u]@.len() as int;
                                assert(adj@[u]@[j] as int == v);
                                assert(adj_has(adj@, u, v));
                            }
                        }
                        if adj_has(adj_old, u, v) {
                            let j = choose|j: int|
                                0 <= j < adj_old[u]@.len() && (#[trigger] adj_old[u]@[j]) as int
                                    == v;
                            assert(adj@[u]@[j] as int == v);
                        }
                    } else {
                        assert(adj@[u]@ == adj_old[u]@);
                        assert(adj_has(adj@, u, v) == adj_has(adj_old, u, v));
                    }
                }
            }
        } else {
            proof {
                assert forall|u: int, v: int|
                    0 <= u < ni && 0 <= v < ni implies ((#[trigger] adj_has(adj@, u, v))
                    <==> edge_present_upto(ni, target, k as int + 1, u, v)) by {
                    if edge_present_upto(ni, target, k as int + 1, u, v) {
                        assert(edge_present_upto(ni, target, k as int, u, v));
                    }
                }
            }
        }
        k += 1;
    }
    adj
}

/// Reachability counts for a directed graph given as an edge list:
/// `dependencies[u]` is the number of distinct nodes reachable from `u`
/// (excluding `u`), `dependents[u]` the number that can reach `u` — the
/// same count over the flipped edge list. Out-of-range endpoints are
/// skipped, not reported. Returns `(dependents, dependencies)`.
pub fn reachability_counts_edges(n: usize, edges: &Vec<(usize, usize)>) -> (r: (
    Vec<usize>,
    Vec<usize>,
))
    ensures
        r.0@.len() == n,
        r.1@.len() == n,
        forall|s: int|
            0 <= s < n ==> #[trigger] r.1@[s] as int == reach_set(n as int, edges@, s).len() - 1,
        forall|s: int|
            0 <= s < n ==> #[trigger] r.0@[s] as int == reach_set(
                n as int,
                swap_edges(edges@),
                s,
            ).len() - 1,
{
    let adj = build_adj(n, edges, false);
    let radj = build_adj(n, edges, true);
    let mut vis = EpochVisited::new(n);
    let mut deps: Vec<usize> = Vec::new();
    let mut s: usize = 0;
    while s < n
        invariant
            adj_matches(n as int, adj@, edges@),
            vis.wf(),
            vis.size() == n,
            0 <= s <= n,
            deps@.len() == s,
            forall|t: int|
                0 <= t < s ==> #[trigger] deps@[t] as int == reach_set(
                    n as int,
                    edges@,
                    t,
                ).len() - 1,
        decreases n - s,
    {
        let c = bfs_count(n, &adj, s, &mut vis, Ghost(edges@));
        deps.push(c);
        s += 1;
    }
    let mut dependents: Vec<usize> = Vec::new();
    let mut s2: usize = 0;
    while s2 < n
        invariant
            adj_matches(n as int, radj@, swap_edges(edges@)),
            vis.wf(),
            vis.size() == n,
            0 <= s2 <= n,
            dependents@.len() == s2,
            forall|t: int|
                0 <= t < s2 ==> #[trigger] dependents@[t] as int == reach_set(
                    n as int,
                    swap_edges(edges@),
                    t,
                ).len() - 1,
        decreases n - s2,
    {
        let c = bfs_count(n, &radj, s2, &mut vis, Ghost(swap_edges(edges@)));
        dependents.push(c);
        s2 += 1;
    }
    (dependents, deps)
}

} // verus!
