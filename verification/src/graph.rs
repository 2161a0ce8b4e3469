//! Directed graph with stable insertion-order node indices and one weighted
//! edge per ordered pair of nodes.
//!
//! Node payloads are opaque to the engines; indices are dense in
//! `[0, node_count)` and never move. `add_or_update_edge` replaces the weight
//! of an existing edge instead of inserting a parallel one, so the
//! mathematical view of the edge set is a map from ordered index pairs to
//! weights.

use vstd::prelude::*;

verus! {

/// The index `i` occurs in the sequence.
pub open spec fn seq_has_idx(s: Seq<usize>, i: int) -> bool {
    exists|p: int| 0 <= p < s.len() && (#[trigger] s[p]) as int == i
}

/// A triple with source `a` and target `b` occurs in the edge list.
pub open spec fn edge_list_has(s: Seq<(usize, usize, u64)>, a: int, b: int) -> bool {
    exists|idx: int|
        0 <= idx < s.len() && (#[trigger] s[idx]).0 as int == a && s[idx].1 as int == b
}

/// One adjacency entry: target node index and fixed-point edge weight.
#[derive(Clone, Copy)]
pub struct Edge {
    pub to: usize,
    pub weight: u64,
}

/// Direction selector for neighbor queries.
#[derive(Clone, Copy, PartialEq, Eq, Structural)]
pub enum Direction {
    Outgoing,
    Incoming,
}

/// A directed graph: payloads in insertion order, plus one adjacency row per
/// node. Indices are assigned at insertion time and stay valid for the life
/// of the graph.
pub struct Graph<N> {
    pub nodes: Vec<N>,
    pub adj: Vec<Vec<Edge>>,
}

impl<N> Graph<N> {
    /// Number of nodes.
    pub open spec fn n(self) -> int {
        self.nodes@.len() as int
    }

    /// Node payloads, indexed by node index.
    pub open spec fn payloads(self) -> Seq<N> {
        self.nodes@
    }

    /// Adjacency row of node `u`.
    pub open spec fn row(self, u: int) -> Seq<Edge> {
        self.adj@[u]@
    }

    /// Row `u` points inside the graph and holds at most one entry per target.
    pub open spec fn row_ok(self, u: int) -> bool {
        &&& forall|k: int|
            0 <= k < self.row(u).len() ==> (#[trigger] self.row(u)[k]).to < self.nodes@.len()
        &&& forall|k1: int, k2: int|
            0 <= k1 < k2 < self.row(u).len() ==> self.row(u)[k1].to != self.row(u)[k2].to
    }

    /// Structural well-formedness: one row per node, every row well-formed.
    pub open spec fn wf(self) -> bool {
        &&& self.adj@.len() == self.nodes@.len()
        &&& forall|u: int| 0 <= u < self.adj@.len() ==> self.row_ok(u)
    }

    /// There is an edge from `u` to `v`.
    pub open spec fn has_edge(self, u: int, v: int) -> bool {
        &&& 0 <= u < self.adj@.len()
        &&& exists|k: int| 0 <= k < self.row(u).len() && (#[trigger] self.row(u)[k]).to == v
    }

    /// Weight of the edge from `u` to `v` (meaningful when `has_edge(u, v)`).
    pub open spec fn edge_weight(self, u: int, v: int) -> u64 {
        let k = choose|k: int|
            0 <= k < self.row(u).len() && (#[trigger] self.row(u)[k]).to == v;
        self.row(u)[k].weight
    }

    /// The edge set as a map from ordered index pairs to weights.
    pub open spec fn edges(self) -> Map<(int, int), u64> {
        Map::new(
            |p: (int, int)| self.has_edge(p.0, p.1),
            |p: (int, int)| self.edge_weight(p.0, p.1),
        )
    }

    /// Out-degree of node `u`.
    pub open spec fn out_degree(self, u: int) -> int {
        self.row(u).len() as int
    }

    /// The entry at a given row position fixes `has_edge` and `edge_weight`.
    pub proof fn lemma_edge_at(self, u: int, k: int)
        requires
            self.wf(),
            0 <= u < self.n(),
            0 <= k < self.row(u).len(),
        ensures
            self.has_edge(u, self.row(u)[k].to as int),
            self.edge_weight(u, self.row(u)[k].to as int) == self.row(u)[k].weight,
    {
        assert(self.row_ok(u));
        let v = self.row(u)[k].to as int;
        assert(0 <= k < self.row(u).len() && self.row(u)[k].to == v);
        let k2 = choose|k2: int|
            0 <= k2 < self.row(u).len() && (#[trigger] self.row(u)[k2]).to == v;
        if k2 != k {
            if k2 < k {
                assert(self.row(u)[k2].to != self.row(u)[k].to);
            } else {
                assert(self.row(u)[k].to != self.row(u)[k2].to);
            }
        }
    }

    /// The edge map's domain and values coincide with `has_edge` and
    /// `edge_weight`.
    pub proof fn lemma_edges_dom(self)
        ensures
            forall|a: int, b: int| #[trigger]
                self.edges().dom().contains((a, b)) <==> self.has_edge(a, b),
            forall|a: int, b: int| #[trigger]
                self.has_edge(a, b) ==> self.edges()[(a, b)] == self.edge_weight(a, b),
    {
        assert forall|a: int, b: int| #[trigger]
            self.edges().dom().contains((a, b)) <==> self.has_edge(a, b) by {
            assert(self.edges().dom().contains((a, b)) == self.has_edge(a, b));
        }
    }

    /// Two well-formed graphs with the same rows have the same edge map.
    proof fn lemma_same_rows_same_edges(self, other: Graph<N>)
        requires
            self.wf(),
            other.wf(),
            self.adj@.len() <= other.adj@.len(),
            forall|u: int| 0 <= u < self.adj@.len() ==> self.row(u) == other.row(u),
            forall|u: int| self.adj@.len() <= u < other.adj@.len() ==> other.row(u).len() == 0,
        ensures
            self.edges() == other.edges(),
    {
        assert forall|p: (int, int)| #[trigger]
            self.has_edge(p.0, p.1) <==> other.has_edge(p.0, p.1) by {
            if 0 <= p.0 < self.adj@.len() {
                assert(self.row(p.0) == other.row(p.0));
            }
        }
        assert forall|p: (int, int)| #[trigger] self.has_edge(p.0, p.1) implies
            self.edge_weight(p.0, p.1) == other.edge_weight(p.0, p.1) by {
            let j = choose|k: int|
                0 <= k < self.row(p.0).len() && (#[trigger] self.row(p.0)[k]).to == p.1;
            assert(self.row(p.0) == other.row(p.0));
            self.lemma_edge_at(p.0, j);
            other.lemma_edge_at(p.0, j);
            assert(p.1 == self.row(p.0)[j].to as int);
        }
        assert(self.edges() =~= other.edges());
    }

    /// Creates an empty graph.
    pub fn new() -> (g: Graph<N>)
        ensures
            g.wf(),
            g.n() == 0,
            g.payloads() == Seq::<N>::empty(),
            g.edges() == Map::<(int, int), u64>::empty(),
    {
        let g = Graph { nodes: Vec::new(), adj: Vec::new() };
        proof {
            assert(g.payloads() =~= Seq::<N>::empty());
            assert(g.edges() =~= Map::<(int, int), u64>::empty());
        }
        g
    }

    /// Number of nodes.
    pub fn node_count(&self) -> (c: usize)
        ensures
            c == self.n(),
    {
        self.nodes.len()
    }

    /// Appends a node and returns its index, equal to the node count before
    /// the call. Existing indices and edges are untouched.
    pub fn add_node(&mut self, payload: N) -> (idx: usize)
        requires
            old(self).wf(),
        ensures
            final(self).wf(),
            idx == old(self).n(),
            final(self).payloads() == old(self).payloads().push(payload),
            final(self).edges() == old(self).edges(),
    {
        let idx = self.nodes.len();
        self.nodes.push(payload);
        self.adj.push(Vec::new());
        proof {
            let newg = *self;
            let oldg = *old(self);
            let oldn = oldg.adj@.len() as int;
            assert forall|u: int| 0 <= u < newg.adj@.len() implies newg.row_ok(u) by {
                if u < oldn {
                    assert(oldg.row_ok(u));
                    assert(newg.row(u) == oldg.row(u));
                } else {
                    assert(newg.row(u).len() == 0);
                }
            }
            oldg.lemma_same_rows_same_edges(newg);
        }
        idx
    }

    /// Looks up the weight of the edge from `u` to `v`, if present.
    pub fn get_edge_weight(&self, u: usize, v: usize) -> (r: Option<u64>)
        requires
            self.wf(),
            u < self.n(),
        ensures
            match r {
                Some(w) => self.has_edge(u as int, v as int) && w == self.edge_weight(
                    u as int,
                    v as int,
                ),
                None => !self.has_edge(u as int, v as int),
            },
    {
        let row_len = self.adj[u].len();
        let mut k: usize = 0;
        while k < row_len
            invariant
                self.wf(),
                u < self.n(),
                row_len == self.row(u as int).len(),
                0 <= k <= row_len,
                forall|j: int| 0 <= j < k ==> (#[trigger] self.row(u as int)[j]).to != v,
            decreases row_len - k,
        {
            let e = self.adj[u][k];
            if e.to == v {
                proof {
                    self.lemma_edge_at(u as int, k as int);
                }
                return Some(e.weight);
            }
            k += 1;
        }
        None
    }

    /// Borrows the payload of node `i`.
    pub fn payload(&self, i: usize) -> (p: &N)
        requires
            i < self.n(),
        ensures
            *p == self.payloads()[i as int],
    {
        &self.nodes[i]
    }

    /// The targets of the out-edges of `u`, in adjacency order.
    pub fn out_neighbors(&self, u: usize) -> (r: Vec<usize>)
        requires
            self.wf(),
            u < self.n(),
        ensures
            r@.len() == self.out_degree(u as int),
            forall|k: int| 0 <= k < r@.len() ==> (#[trigger] r@[k]) == self.row(u as int)[k].to,
            forall|v: int|
                0 <= v < self.n() ==> (seq_has_idx(r@, v) <==> self.has_edge(u as int, v)),
    {
        let d = self.adj[u].len();
        let mut r: Vec<usize> = Vec::new();
        let mut k: usize = 0;
        while k < d
            invariant
                self.wf(),
                u < self.n(),
                d == self.row(u as int).len(),
                0 <= k <= d,
                r@.len() == k,
                forall|j: int| 0 <= j < k ==> (#[trigger] r@[j]) == self.row(u as int)[j].to,
            decreases d - k,
        {
            let e = self.adj[u][k];
            r.push(e.to);
            k += 1;
        }
        proof {
            assert forall|v: int|
                0 <= v < self.n() implies (seq_has_idx(r@, v) <==> self.has_edge(
                u as int,
                v,
            )) by {
                if seq_has_idx(r@, v) {
                    let p = choose|p: int| 0 <= p < r@.len() && (#[trigger] r@[p]) as int == v;
                    assert(self.row(u as int)[p].to as int == v);
                }
                if self.has_edge(u as int, v) {
                    let j = choose|j: int|
                        0 <= j < self.row(u as int).len() && (#[trigger] self.row(u as int)[j]).to
                            == v;
                    assert(r@[j] as int == v);
                }
            }
        }
        r
    }

    /// The sources of the in-edges of `v`, in ascending index order.
    pub fn in_neighbors(&self, v: usize) -> (r: Vec<usize>)
        requires
            self.wf(),
            v < self.n(),
        ensures
            forall|i: int, j: int| 0 <= i < j < r@.len() ==> r@[i] < r@[j],
            forall|u: int| 0 <= u < self.n() ==> (seq_has_idx(r@, u) <==> self.has_edge(u, v as int)),
    {
        let n = self.nodes.len();
        let mut r: Vec<usize> = Vec::new();
        let mut u: usize = 0;
        while u < n
            invariant
                self.wf(),
                v < self.n(),
                n == self.n(),
                0 <= u <= n,
                forall|i: int, j: int| 0 <= i < j < r@.len() ==> r@[i] < r@[j],
                forall|p: int| 0 <= p < r@.len() ==> (#[trigger] r@[p]) < u,
                forall|uu: int| 0 <= uu < u ==> (seq_has_idx(r@, uu) <==> self.has_edge(uu, v as int)),
            decreases n - u,
        {
            let ghost pre = r@;
            if self.get_edge_weight(u, v).is_some() {
                r.push(u);
            }
            proof {
                assert forall|uu: int|
                    0 <= uu < u + 1 implies (seq_has_idx(r@, uu) <==> self.has_edge(
                    uu,
                    v as int,
                )) by {
                    if uu < u as int {
                        if seq_has_idx(pre, uu) {
                            let p = choose|p: int|
                                0 <= p < pre.len() && (#[trigger] pre[p]) as int == uu;
                            assert(r@[p] as int == uu);
                        }
                        if seq_has_idx(r@, uu) {
                            let p = choose|p: int|
                                0 <= p < r@.len() && (#[trigger] r@[p]) as int == uu;
                            assert(p < pre.len());
                        }
                    } else {
                        if self.has_edge(uu, v as int) {
                            assert(r@[r@.len() - 1] as int == uu);
                        }
                        if seq_has_idx(r@, uu) {
                            let p = choose|p: int|
                                0 <= p < r@.len() && (#[trigger] r@[p]) as int == uu;
                            assert(p == r@.len() - 1 || pre[p] as int == uu);
                        }
                    }
                }
            }
            u += 1;
        }
        r
    }

    /// Neighbor indices of `node` in the chosen direction: out-edge targets
    /// in adjacency order, or in-edge sources in ascending order.
    pub fn neighbors(&self, node: usize, dir: Direction) -> (r: Vec<usize>)
        requires
            self.wf(),
            node < self.n(),
        ensures
            dir == Direction::Outgoing ==> forall|v: int|
                0 <= v < self.n() ==> (seq_has_idx(r@, v) <==> self.has_edge(node as int, v)),
            dir == Direction::Incoming ==> forall|u: int|
                0 <= u < self.n() ==> (seq_has_idx(r@, u) <==> self.has_edge(u, node as int)),
    {
        match dir {
            Direction::Outgoing => self.out_neighbors(node),
            Direction::Incoming => self.in_neighbors(node),
        }
    }

    /// Number of in-edges of `v` among the nodes below `u`.
    pub open spec fn in_degree_upto(self, v: int, u: int) -> int
        decreases u,
    {
        if u <= 0 {
            0
        } else {
            self.in_degree_upto(v, u - 1) + if self.has_edge(u - 1, v) {
                1int
            } else {
                0int
            }
        }
    }

    /// Degree of `node`: the number of out-edges, or of in-edges.
    pub fn degree(&self, node: usize, dir: Direction) -> (d: usize)
        requires
            self.wf(),
            node < self.n(),
        ensures
            dir == Direction::Outgoing ==> d == self.out_degree(node as int),
            dir == Direction::Incoming ==> d == self.in_degree_upto(node as int, self.n()),
    {
        match dir {
            Direction::Outgoing => self.adj[node].len(),
            Direction::Incoming => {
                let n = self.nodes.len();
                let mut d: usize = 0;
                let mut u: usize = 0;
                while u < n
                    invariant
                        self.wf(),
                        node < self.n(),
                        n == self.n(),
                        0 <= u <= n,
                        d as int == self.in_degree_upto(node as int, u as int),
                        d as int <= u as int,
                    decreases n - u,
                {
                    if self.get_edge_weight(u, node).is_some() {
                        d += 1;
                    }
                    u += 1;
                }
                d
            },
        }
    }

    /// Number of edges among the rows of the first `u` nodes.
    pub open spec fn edge_count_upto(self, u: int) -> int
        decreases u,
    {
        if u <= 0 {
            0
        } else {
            self.edge_count_upto(u - 1) + self.row(u - 1).len()
        }
    }

    /// Counts never shrink as more rows are included.
    proof fn lemma_edge_count_mono(self, u: int, w: int)
        requires
            0 <= u <= w,
        ensures
            self.edge_count_upto(u) <= self.edge_count_upto(w),
        decreases w - u,
    {
        if u < w {
            self.lemma_edge_count_mono(u, w - 1);
        }
    }

    /// Number of edges in the graph, saturating at `usize::MAX`.
    pub fn edge_count(&self) -> (c: usize)
        requires
            self.wf(),
        ensures
            c as int == (if self.edge_count_upto(self.n()) <= usize::MAX as int {
                self.edge_count_upto(self.n())
            } else {
                usize::MAX as int
            }),
    {
        let n = self.adj.len();
        let mut c: usize = 0;
        let mut u: usize = 0;
        while u < n
            invariant
                self.wf(),
                n == self.adj@.len(),
                0 <= u <= n,
                c as int == self.edge_count_upto(u as int),
                c as int <= u as int * (usize::MAX as int),
            decreases n - u,
        {
            let d = self.adj[u].len();
            proof {
                assert(c as int + d as int <= (u as int + 1) * (usize::MAX as int))
                    by (nonlinear_arith)
                    requires
                        c as int <= u as int * (usize::MAX as int),
                        d as int <= usize::MAX as int,
                {}
            }
            if c > usize::MAX - d {
                proof {
                    self.lemma_edge_count_mono(u as int + 1, self.n());
                }
                return usize::MAX;
            }
            c = c + d;
            u += 1;
        }
        c
    }

    /// Every edge as a `(source, target, weight)` triple, rows in index
    /// order.
    pub fn edge_list(&self) -> (r: Vec<(usize, usize, u64)>)
        requires
            self.wf(),
        ensures
            forall|idx: int|
                0 <= idx < r@.len() ==> self.has_edge(
                    (#[trigger] r@[idx]).0 as int,
                    r@[idx].1 as int,
                ) && r@[idx].2 == self.edge_weight(r@[idx].0 as int, r@[idx].1 as int),
            forall|a: int, b: int| #[trigger] self.has_edge(a, b) ==> edge_list_has(r@, a, b),
    {
        let n = self.adj.len();
        let mut r: Vec<(usize, usize, u64)> = Vec::new();
        let mut u: usize = 0;
        while u < n
            invariant
                self.wf(),
                n == self.adj@.len(),
                0 <= u <= n,
                forall|idx: int|
                    0 <= idx < r@.len() ==> self.has_edge(
                        (#[trigger] r@[idx]).0 as int,
                        r@[idx].1 as int,
                    ) && r@[idx].2 == self.edge_weight(r@[idx].0 as int, r@[idx].1 as int),
                forall|a: int, b: int|
                    0 <= a < u && #[trigger] self.has_edge(a, b) ==> edge_list_has(r@, a, b),
            decreases n - u,
        {
            let d = self.adj[u].len();
            let mut k: usize = 0;
            while k < d
                invariant
                    self.wf(),
                    n == self.adj@.len(),
                    u < n,
                    d == self.row(u as int).len(),
                    0 <= k <= d,
                    forall|idx: int|
                        0 <= idx < r@.len() ==> self.has_edge(
                            (#[trigger] r@[idx]).0 as int,
                            r@[idx].1 as int,
                        ) && r@[idx].2 == self.edge_weight(r@[idx].0 as int, r@[idx].1 as int),
                    forall|a: int, b: int|
                        0 <= a < u && #[trigger] self.has_edge(a, b) ==> edge_list_has(r@, a, b),
                    forall|j: int|
                        0 <= j < k ==> edge_list_has(
                            r@,
                            u as int,
                            (#[trigger] self.row(u as int)[j]).to as int,
                        ),
                decreases d - k,
            {
                let e = self.adj[u][k];
                proof {
                    self.lemma_edge_at(u as int, k as int);
                }
                let ghost pre = r@;
                r.push((u, e.to, e.weight));
                proof {
                    assert(r@[r@.len() - 1] == (u, e.to, e.weight));
                    assert forall|a: int, b: int|
                        edge_list_has(pre, a, b) implies edge_list_has(r@, a, b) by {
                        let idx = choose|idx: int|
                            0 <= idx < pre.len() && (#[trigger] pre[idx]).0 as int == a
                                && pre[idx].1 as int == b;
                        assert(r@[idx] == pre[idx]);
                    }
                    assert(edge_list_has(r@, u as int, e.to as int));
                }
                k += 1;
            }
            proof {
                assert forall|a: int, b: int|
                    0 <= a < u + 1 && #[trigger] self.has_edge(a, b) implies edge_list_has(
                    r@,
                    a,
                    b,
                ) by {
                    if a == u as int {
                        let j = choose|j: int|
                            0 <= j < self.row(a).len() && (#[trigger] self.row(a)[j]).to == b;
                        assert(edge_list_has(r@, a, self.row(a)[j].to as int));
                    }
                }
            }
            u += 1;
        }
        r
    }

    /// Inserts the edge `(u, v)` with the given weight, or replaces the
    /// weight of the existing edge between the same ordered pair. Never
    /// creates parallel edges; self-loops are allowed.
    pub fn add_or_update_edge(&mut self, u: usize, v: usize, weight: u64)
        requires
            old(self).wf(),
            u < old(self).n(),
            v < old(self).n(),
        ensures
            final(self).wf(),
            final(self).payloads() == old(self).payloads(),
            final(self).edges() == old(self).edges().insert((u as int, v as int), weight),
            forall|w: int|
                0 <= w < old(self).n() && w != u as int ==> final(self).row(w) == old(self).row(w),
            !old(self).has_edge(u as int, v as int) ==> final(self).row(u as int) == old(
                self,
            ).row(u as int).push(Edge { to: v, weight }),
    {
        let ghost oldg = *old(self);
        let row_len = self.adj[u].len();
        let mut k: usize = 0;
        while k < row_len
            invariant
                oldg == *old(self),
                *self == oldg,
                oldg.wf(),
                u < oldg.n(),
                v < oldg.n(),
                row_len == oldg.row(u as int).len(),
                0 <= k <= row_len,
                forall|j: int| 0 <= j < k ==> (#[trigger] oldg.row(u as int)[j]).to != v,
            decreases row_len - k,
        {
            if self.adj[u][k].to == v {
                self.adj[u].set(k, Edge { to: v, weight });
                proof {
                    self.lemma_replace_entry(oldg, u, v, k as int, weight);
                }
                return;
            }
            k += 1;
        }
        self.adj[u].push(Edge { to: v, weight });
        proof {
            self.lemma_push_entry(oldg, u, v, weight);
        }
    }

    /// Replacing the entry for target `v` in row `u` rebinds `(u, v)` in the
    /// edge map and changes nothing else.
    proof fn lemma_replace_entry(self, oldg: Graph<N>, u: usize, v: usize, k: int, weight: u64)
        requires
            oldg.wf(),
            u < oldg.n(),
            v < oldg.n(),
            self.nodes@ == oldg.nodes@,
            self.adj@ == oldg.adj@.update(u as int, self.adj@[u as int]),
            0 <= k < oldg.row(u as int).len(),
            oldg.row(u as int)[k].to == v,
            self.row(u as int) == oldg.row(u as int).update(k, Edge { to: v, weight }),
        ensures
            self.wf(),
            self.edges() == oldg.edges().insert((u as int, v as int), weight),
    {
        let newg = self;
        let ui = u as int;
        let vi = v as int;
        assert(newg.adj@.len() == oldg.adj@.len());
        assert(oldg.row_ok(ui));
        assert forall|w: int| 0 <= w < newg.adj@.len() implies newg.row_ok(w) by {
            assert(oldg.row_ok(w));
            if w != ui {
                assert(newg.row(w) == oldg.row(w));
            } else {
                assert forall|j: int| 0 <= j < newg.row(w).len() implies (#[trigger]
                    newg.row(w)[j]).to < newg.nodes@.len() by {
                    assert(oldg.row(w)[j].to < oldg.nodes@.len());
                }
                assert forall|j1: int, j2: int| 0 <= j1 < j2 < newg.row(w).len() implies
                    newg.row(w)[j1].to != newg.row(w)[j2].to by {
                    assert(oldg.row(w)[j1].to != oldg.row(w)[j2].to);
                    assert(newg.row(w)[j1].to == oldg.row(w)[j1].to);
                    assert(newg.row(w)[j2].to == oldg.row(w)[j2].to);
                }
            }
        }
        assert forall|p: (int, int)| #[trigger]
            newg.has_edge(p.0, p.1) <==> (p == (ui, vi) || oldg.has_edge(p.0, p.1)) by {
            if p.0 == ui {
                if newg.has_edge(p.0, p.1) {
                    let j = choose|j: int|
                        0 <= j < newg.row(ui).len() && (#[trigger] newg.row(ui)[j]).to == p.1;
                    assert(oldg.row(ui)[j].to == newg.row(ui)[j].to);
                    assert(oldg.has_edge(p.0, p.1));
                }
                if oldg.has_edge(p.0, p.1) {
                    let j = choose|j: int|
                        0 <= j < oldg.row(ui).len() && (#[trigger] oldg.row(ui)[j]).to == p.1;
                    assert(newg.row(ui)[j].to == oldg.row(ui)[j].to);
                    assert(newg.has_edge(p.0, p.1));
                }
                if p == (ui, vi) {
                    assert(newg.row(ui)[k].to == v);
                    assert(newg.has_edge(ui, vi));
                }
            } else if 0 <= p.0 < oldg.adj@.len() {
                assert(newg.row(p.0) == oldg.row(p.0));
            }
        }
        assert(newg.row(ui)[k].to == v && newg.row(ui)[k].weight == weight);
        newg.lemma_edge_at(ui, k);
        assert(newg.edge_weight(ui, vi) == weight);
        assert forall|p: (int, int)| #[trigger]
            newg.has_edge(p.0, p.1) && p != (ui, vi) implies newg.edge_weight(p.0, p.1)
            == oldg.edge_weight(p.0, p.1) by {
            if p.0 != ui {
                assert(newg.row(p.0) == oldg.row(p.0));
                let j = choose|j: int|
                    0 <= j < newg.row(p.0).len() && (#[trigger] newg.row(p.0)[j]).to == p.1;
                newg.lemma_edge_at(p.0, j);
                oldg.lemma_edge_at(p.0, j);
            } else {
                let j = choose|j: int|
                    0 <= j < newg.row(ui).len() && (#[trigger] newg.row(ui)[j]).to == p.1;
                if j == k {
                    assert(p.1 == vi);
                } else {
                    assert(newg.row(ui)[j] == oldg.row(ui)[j]);
                    newg.lemma_edge_at(ui, j);
                    oldg.lemma_edge_at(ui, j);
                }
            }
        }
        assert(newg.edges() =~= oldg.edges().insert((ui, vi), weight));
    }

    /// Pushing a fresh target `v` onto row `u` binds `(u, v)` in the edge map
    /// and changes nothing else.
    proof fn lemma_push_entry(self, oldg: Graph<N>, u: usize, v: usize, weight: u64)
        requires
            oldg.wf(),
            u < oldg.n(),
            v < oldg.n(),
            self.nodes@ == oldg.nodes@,
            self.adj@ == oldg.adj@.update(u as int, self.adj@[u as int]),
            forall|j: int| 0 <= j < oldg.row(u as int).len() ==> (#[trigger]
                oldg.row(u as int)[j]).to != v,
            self.row(u as int) == oldg.row(u as int).push(Edge { to: v, weight }),
        ensures
            self.wf(),
            self.edges() == oldg.edges().insert((u as int, v as int), weight),
    {
        let newg = self;
        let ui = u as int;
        let vi = v as int;
        let klast = oldg.row(ui).len() as int;
        assert(newg.adj@.len() == oldg.adj@.len());
        assert(oldg.row_ok(ui));
        assert(newg.row(ui)[klast].to == v && newg.row(ui)[klast].weight == weight);
        assert forall|w: int| 0 <= w < newg.adj@.len() implies newg.row_ok(w) by {
            assert(oldg.row_ok(w));
            if w != ui {
                assert(newg.row(w) == oldg.row(w));
            } else {
                assert forall|j: int| 0 <= j < newg.row(w).len() implies (#[trigger]
                    newg.row(w)[j]).to < newg.nodes@.len() by {
                    if j < klast {
                        assert(newg.row(w)[j] == oldg.row(w)[j]);
                    }
                }
                assert forall|j1: int, j2: int| 0 <= j1 < j2 < newg.row(w).len() implies
                    newg.row(w)[j1].to != newg.row(w)[j2].to by {
                    assert(newg.row(w)[j1] == oldg.row(w)[j1]);
                    if j2 < klast {
                        assert(newg.row(w)[j2] == oldg.row(w)[j2]);
                        assert(oldg.row(w)[j1].to != oldg.row(w)[j2].to);
                    } else {
                        assert(oldg.row(w)[j1].to != v);
                    }
                }
            }
        }
        assert forall|p: (int, int)| #[trigger]
            newg.has_edge(p.0, p.1) <==> (p == (ui, vi) || oldg.has_edge(p.0, p.1)) by {
            if p.0 == ui {
                if newg.has_edge(p.0, p.1) && p.1 != vi {
                    let j = choose|j: int|
                        0 <= j < newg.row(ui).len() && (#[trigger] newg.row(ui)[j]).to == p.1;
                    assert(j < klast);
                    assert(oldg.row(ui)[j].to == newg.row(ui)[j].to);
                    assert(oldg.has_edge(p.0, p.1));
                }
                if oldg.has_edge(p.0, p.1) {
                    let j = choose|j: int|
                        0 <= j < oldg.row(ui).len() && (#[trigger] oldg.row(ui)[j]).to == p.1;
                    assert(newg.row(ui)[j].to == oldg.row(ui)[j].to);
                    assert(newg.has_edge(p.0, p.1));
                }
                if p.1 == vi {
                    assert(newg.row(ui)[klast].to == v);
                    assert(newg.has_edge(ui, vi));
                }
            } else if 0 <= p.0 < oldg.adj@.len() {
                assert(newg.row(p.0) == oldg.row(p.0));
            }
        }
        newg.lemma_edge_at(ui, klast);
        assert(newg.edge_weight(ui, vi) == weight);
        assert forall|p: (int, int)| #[trigger]
            newg.has_edge(p.0, p.1) && p != (ui, vi) implies newg.edge_weight(p.0, p.1)
            == oldg.edge_weight(p.0, p.1) by {
            if p.0 != ui {
                assert(newg.row(p.0) == oldg.row(p.0));
                let j = choose|j: int|
                    0 <= j < newg.row(p.0).len() && (#[trigger] newg.row(p.0)[j]).to == p.1;
                newg.lemma_edge_at(p.0, j);
                oldg.lemma_edge_at(p.0, j);
            } else {
                let j = choose|j: int|
                    0 <= j < newg.row(ui).len() && (#[trigger] newg.row(ui)[j]).to == p.1;
                assert(j < klast);
                assert(newg.row(ui)[j] == oldg.row(ui)[j]);
                newg.lemma_edge_at(ui, j);
                oldg.lemma_edge_at(ui, j);
            }
        }
        assert(newg.edges() =~= oldg.edges().insert((ui, vi), weight));
    }
}

} // verus!

