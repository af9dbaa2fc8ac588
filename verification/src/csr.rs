//! Immutable compressed adjacency (CSR-style) graph.
//!
//! A [`CsrGraph`] is compiled once from a [`GraphBuilder`] snapshot and never
//! mutated afterwards: row offsets into a flat neighbor list, per-row
//! neighbor indices and edge weights, and a precomputed per-node total
//! outgoing weight used as the normalization denominator during ranking.
//! The ranking engine performs many full passes over every edge, so the
//! array-backed layout keeps the hot loop free of hashing and pointer
//! chasing.

use vstd::prelude::*;
use crate::graph_builder::{
    keys_seq, lemma_row_weight_absent, lemma_row_weight_at, lemma_row_weight_push,
    spec_row_distinct, spec_row_sum, spec_row_weight, AdjEntry, GraphBuilder,
};
use crate::types::{KeyView, NodeKey};

verus! {

/// The adjacency row of node `u`, reconstructed from the flat arrays.
pub open spec fn csr_row(
    offsets: Seq<usize>,
    neighbors: Seq<usize>,
    weights: Seq<u64>,
    u: int,
) -> Seq<AdjEntry> {
    Seq::new(
        (offsets[u + 1] - offsets[u]) as nat,
        |k: int| AdjEntry { node: neighbors[offsets[u] + k], weight: weights[offsets[u] + k] },
    )
}

/// Immutable compressed adjacency representation of the co-occurrence
/// graph. Node indices and their order are exactly those of the builder it
/// was compiled from.
#[derive(Debug)]
pub struct CsrGraph {
    /// Node keys, indexed by node index (reverse lookup for phrase
    /// assembly).
    pub keys: Vec<NodeKey>,
    /// Row offsets: the neighbors of node `u` occupy the index range
    /// `offsets[u] .. offsets[u + 1]` of `neighbors` and `weights`.
    pub offsets: Vec<usize>,
    /// Flat neighbor indices.
    pub neighbors: Vec<usize>,
    /// Flat edge weights, parallel to `neighbors`.
    pub weights: Vec<u64>,
    /// Per-node total outgoing weight (row sum).
    pub totals: Vec<u64>,
}

impl CsrGraph {
    /// Number of nodes.
    pub open spec fn n(self) -> int {
        self.keys@.len() as int
    }

    /// Node keys as mathematical values.
    pub open spec fn keys_view(self) -> Seq<KeyView> {
        keys_seq(self.keys@)
    }

    /// Adjacency row of node `u`.
    pub open spec fn row_seq(self, u: int) -> Seq<AdjEntry> {
        csr_row(self.offsets@, self.neighbors@, self.weights@, u)
    }

    /// Weight of the undirected edge `{u, v}`; 0 for self-pairs and
    /// out-of-range indices.
    pub open spec fn edge_weight(self, u: int, v: int) -> int {
        if 0 <= u < self.n() && 0 <= v < self.n() && u != v {
            spec_row_weight(self.row_seq(u), v)
        } else {
            0
        }
    }

    /// Structural invariant: monotone offsets covering the flat arrays,
    /// in-range distinct neighbors, symmetric weights, and row-sum totals.
    pub open spec fn wf(self) -> bool {
        &&& self.offsets@.len() == self.n() + 1
        &&& self.offsets@[0] == 0usize
        &&& (forall|u: int|
            0 <= u < self.n() ==> self.offsets@[u] <= #[trigger] self.offsets@[u + 1])
        &&& (forall|u: int|
            0 <= u <= self.n() ==> #[trigger] self.offsets@[u] <= self.neighbors@.len())
        &&& self.offsets@[self.n() as int] == self.neighbors@.len()
        &&& self.weights@.len() == self.neighbors@.len()
        &&& self.totals@.len() == self.n()
        &&& (forall|i: int, j: int|
            0 <= i < j < self.keys_view().len() ==> self.keys_view()[i] != self.keys_view()[j])
        &&& (forall|u: int, k: int|
            0 <= u < self.n() && 0 <= k < self.row_seq(u).len() ==> {
                &&& (#[trigger] self.row_seq(u)[k]).node < self.n()
                &&& self.row_seq(u)[k].node != u
                &&& self.row_seq(u)[k].weight >= 1
            })
        &&& (forall|u: int| 0 <= u < self.n() ==> spec_row_distinct(#[trigger] self.row_seq(u)))
        &&& (forall|u: int, v: int|
            0 <= u < self.n() && 0 <= v < self.n() ==> #[trigger] spec_row_weight(
                self.row_seq(u),
                v,
            ) == spec_row_weight(self.row_seq(v), u))
        &&& (forall|u: int|
            0 <= u < self.n() ==> (#[trigger] self.totals@[u]) as int == spec_row_sum(
                self.row_seq(u),
            ))
    }

    /// Number of nodes, in O(1).
    pub fn node_count(&self) -> (n: usize)
        ensures
            n as int == self.n(),
    {
        self.keys.len()
    }

    /// Number of undirected edges.
    pub fn edge_count(&self) -> (m: usize)
        ensures
            m as int == self.neighbors@.len() / 2,
    {
        self.neighbors.len() / 2
    }

    /// Key of node `u` (reverse lookup from index to key).
    pub fn key_at(&self, u: usize) -> (k: &NodeKey)
        requires
            (u as int) < self.n(),
        ensures
            k@ == self.keys_view()[u as int],
    {
        &self.keys[u]
    }

    /// Degree of node `u` (number of neighbors), in O(1).
    pub fn row_len(&self, u: usize) -> (d: usize)
        requires
            self.wf(),
            (u as int) < self.n(),
        ensures
            d as int == self.row_seq(u as int).len(),
    {
        proof {
            vstd::std_specs::vec::axiom_spec_len(&self.offsets);
        }
        self.offsets[u + 1] - self.offsets[u]
    }

    /// The `k`-th neighbor entry of node `u`, in O(1).
    pub fn row_entry(&self, u: usize, k: usize) -> (e: AdjEntry)
        requires
            self.wf(),
            (u as int) < self.n(),
            (k as int) < self.row_seq(u as int).len(),
        ensures
            e == self.row_seq(u as int)[k as int],
    {
        let s = self.offsets[u];
        AdjEntry { node: self.neighbors[s + k], weight: self.weights[s + k] }
    }

    /// Weight of the undirected edge `{u, v}`, in O(degree(u)); 0 when no
    /// edge joins the two nodes or when `u == v`.
    pub fn edge_weight_of(&self, u: usize, v: usize) -> (w: u64)
        requires
            self.wf(),
            (u as int) < self.n(),
            (v as int) < self.n(),
        ensures
            w as int == self.edge_weight(u as int, v as int),
    {
        if u == v {
            return 0;
        }
        let deg = self.row_len(u);
        let mut k: usize = 0;
        while k < deg
            invariant
                self.wf(),
                (u as int) < self.n(),
                (v as int) < self.n(),
                u != v,
                deg as int == self.row_seq(u as int).len(),
                k <= deg,
                forall|p: int|
                    0 <= p < k ==> (#[trigger] self.row_seq(u as int)[p]).node != v,
            decreases deg - k,
        {
            let e = self.row_entry(u, k);
            if e.node == v {
                proof {
                    lemma_row_weight_at(self.row_seq(u as int), k as int);
                }
                return e.weight;
            }
            k = k + 1;
        }
        proof {
            lemma_row_weight_absent(self.row_seq(u as int), v as int);
        }
        0
    }

    /// Total outgoing weight of node `u`, in O(1).
    pub fn total_weight(&self, u: usize) -> (t: u64)
        requires
            self.wf(),
            (u as int) < self.n(),
        ensures
            t == self.totals@[u as int],
            t as int == spec_row_sum(self.row_seq(u as int)),
    {
        self.totals[u]
    }
}

/// The stored total outgoing weight of every node equals the sum of its
/// neighbor weights.
pub proof fn lemma_total_out_weight(g: CsrGraph, u: int)
    requires
        g.wf(),
        0 <= u < g.n(),
    ensures
        g.totals@[u] as int == spec_row_sum(g.row_seq(u)),
{
}

/// Compiled edge weights are symmetric, like the builder's.
pub proof fn lemma_csr_edge_weights_symmetric(g: CsrGraph, u: int, v: int)
    requires
        g.wf(),
    ensures
        g.edge_weight(u, v) == g.edge_weight(v, u),
{
}

/// Prefix sums of a row are bounded by the full row sum.
proof fn lemma_row_sum_take(row: Seq<AdjEntry>, k: int)
    requires
        0 <= k < row.len(),
    ensures
        spec_row_sum(row.take(k + 1)) == spec_row_sum(row.take(k)) + row[k].weight,
{
    assert(row.take(k + 1).drop_last() =~= row.take(k));
    assert(row.take(k + 1).last() == row[k]);
}

proof fn lemma_row_sum_take_le(row: Seq<AdjEntry>, k: int)
    requires
        0 <= k <= row.len(),
    ensures
        spec_row_sum(row.take(k)) <= spec_row_sum(row),
    decreases row.len() - k,
{
    if k == row.len() {
        assert(row.take(k) =~= row);
    } else {
        lemma_row_sum_take(row, k);
        lemma_row_sum_take_le(row, k + 1);
    }
}

/// An adjacency row with every edge below `thr` removed, order preserved.
pub open spec fn spec_prune_row(row: Seq<AdjEntry>, thr: u64) -> Seq<AdjEntry>
    decreases row.len(),
{
    if row.len() == 0 {
        Seq::empty()
    } else {
        let p = spec_prune_row(row.drop_last(), thr);
        if row.last().weight >= thr {
            p.push(row.last())
        } else {
            p
        }
    }
}

/// A neighbor absent from a row is absent from its pruned form.
proof fn lemma_prune_absent(row: Seq<AdjEntry>, thr: u64, v: int)
    requires
        forall|k: int| 0 <= k < row.len() ==> (#[trigger] row[k]).node != v,
    ensures
        forall|k: int|
            0 <= k < spec_prune_row(row, thr).len() ==> (#[trigger] spec_prune_row(
                row,
                thr,
            )[k]).node != v,
    decreases row.len(),
{
    if row.len() > 0 {
        assert(row.last() == row[row.len() - 1]);
        lemma_prune_absent(row.drop_last(), thr, v);
        let p = spec_prune_row(row.drop_last(), thr);
        if row.last().weight >= thr {
            assert forall|k: int|
                0 <= k < spec_prune_row(row, thr).len() implies (#[trigger] spec_prune_row(
                row,
                thr,
            )[k]).node != v by {
                if k < p.len() {
                    assert(spec_prune_row(row, thr)[k] == p[k]);
                }
            }
        }
    }
}

/// Pruning keeps the rows' entry well-formedness and distinctness.
proof fn lemma_prune_row_props(row: Seq<AdjEntry>, thr: u64, u: int, n: int)
    requires
        spec_row_distinct(row),
        forall|k: int|
            0 <= k < row.len() ==> {
                &&& (#[trigger] row[k]).node < n
                &&& row[k].node != u
                &&& row[k].weight >= 1
            },
    ensures
        spec_row_distinct(spec_prune_row(row, thr)),
        forall|k: int|
            0 <= k < spec_prune_row(row, thr).len() ==> {
                &&& (#[trigger] spec_prune_row(row, thr)[k]).node < n
                &&& spec_prune_row(row, thr)[k].node != u
                &&& spec_prune_row(row, thr)[k].weight >= 1
            },
        spec_row_sum(spec_prune_row(row, thr)) <= spec_row_sum(row),
    decreases row.len(),
{
    let pruned = spec_prune_row(row, thr);
    if row.len() > 0 {
        let row0 = row.drop_last();
        assert(row.last() == row[row.len() - 1]);
        assert(spec_row_distinct(row0));
        lemma_prune_row_props(row0, thr, u, n);
        let p = spec_prune_row(row0, thr);
        assert(forall|k: int| 0 <= k < row0.len() ==> (#[trigger] row0[k]).node != row.last().node);
        lemma_prune_absent(row0, thr, row.last().node as int);
        if row.last().weight >= thr {
            assert(pruned == p.push(row.last()));
            assert forall|k1: int, k2: int|
                0 <= k1 < k2 < pruned.len() implies (#[trigger] pruned[k1]).node != (
            #[trigger] pruned[k2]).node by {
                if k2 < p.len() {
                    assert(pruned[k1] == p[k1]);
                    assert(pruned[k2] == p[k2]);
                } else {
                    assert(pruned[k1] == p[k1]);
                    assert(pruned[k2] == row.last());
                }
            }
            assert(spec_row_sum(pruned) == spec_row_sum(p) + row.last().weight) by {
                assert(pruned.drop_last() =~= p);
                assert(pruned.last() == row.last());
            }
            assert forall|k: int|
                0 <= k < pruned.len() implies {
                &&& (#[trigger] pruned[k]).node < n
                &&& pruned[k].node != u
                &&& pruned[k].weight >= 1
            } by {
                if k < p.len() {
                    assert(pruned[k] == p[k]);
                } else {
                    assert(pruned[k] == row.last());
                }
            }
        }
    }
}

/// The weight a pruned row records for a neighbor: the original weight if
/// it reaches the threshold, else nothing.
proof fn lemma_prune_row_weight(row: Seq<AdjEntry>, thr: u64, v: int)
    requires
        spec_row_distinct(row),
    ensures
        spec_row_weight(spec_prune_row(row, thr), v) == (if spec_row_weight(row, v)
            >= thr as int {
            spec_row_weight(row, v)
        } else {
            0
        }),
    decreases row.len(),
{
    let pruned = spec_prune_row(row, thr);
    if row.len() == 0 {
    } else {
        let row0 = row.drop_last();
        assert(row.last() == row[row.len() - 1]);
        assert(spec_row_distinct(row0));
        lemma_prune_row_weight(row0, thr, v);
        let p = spec_prune_row(row0, thr);
        if row.last().node == v {
            assert(forall|k: int| 0 <= k < row0.len() ==> (#[trigger] row0[k]).node != v);
            lemma_row_weight_absent(row0, v);
            lemma_prune_absent(row0, thr, v);
            lemma_row_weight_absent(p, v);
            if row.last().weight >= thr {
                lemma_row_weight_push(p, row.last(), v);
            }
        } else {
            if row.last().weight >= thr {
                lemma_row_weight_push(p, row.last(), v);
            }
        }
    }
}

/// Clone a node key, preserving its view.
fn clone_key(k: &NodeKey) -> (r: NodeKey)
    ensures
        r@ == k@,
{
    NodeKey { lemma: clone_lemma(&k.lemma), pos: k.pos }
}

/// Clone a lemma string.
fn clone_lemma(s: &String) -> (r: String)
    ensures
        r@ == s@,
{
    s.clone()
}

/// Compile a builder snapshot into its immutable compressed form.
///
/// Node indices, keys, and edge weights are preserved exactly;
/// `totals[u]` is the sum of the neighbor weights of `u`. Compilation is
/// all-or-nothing: no partial graph is ever exposed.
pub fn compile(b: &GraphBuilder) -> (g: CsrGraph)
    requires
        b.wf(),
    ensures
        g.wf(),
        g.n() == b.keys@.len(),
        g.keys_view() == b.keys_view(),
        forall|u: int| 0 <= u < g.n() ==> #[trigger] g.row_seq(u) == b.row(u),
        forall|u: int, v: int| #[trigger] g.edge_weight(u, v) == b.edge_weight(u, v),
{
    let n = b.keys.len();
    let mut keys: Vec<NodeKey> = Vec::new();
    let mut u: usize = 0;
    while u < n
        invariant
            n == b.keys@.len(),
            u <= n,
            keys@.len() == u,
            forall|w: int| 0 <= w < u ==> keys_seq(keys@)[w] == b.keys_view()[w],
        decreases n - u,
    {
        keys.push(clone_key(&b.keys[u]));
        u = u + 1;
    }
    let mut offsets: Vec<usize> = Vec::new();
    let mut neighbors: Vec<usize> = Vec::new();
    let mut weights: Vec<u64> = Vec::new();
    let mut totals: Vec<u64> = Vec::new();
    offsets.push(0);
    let mut u: usize = 0;
    while u < n
        invariant
            b.wf(),
            n == b.keys@.len(),
            u <= n,
            offsets@.len() == u + 1,
            offsets@[0] == 0usize,
            totals@.len() == u,
            weights@.len() == neighbors@.len(),
            offsets@[u as int] == neighbors@.len(),
            forall|w: int| 0 <= w < u ==> offsets@[w] <= #[trigger] offsets@[w + 1],
            forall|w: int| 0 <= w <= u ==> #[trigger] offsets@[w] <= neighbors@.len(),
            forall|w: int|
                0 <= w < u ==> csr_row(offsets@, neighbors@, weights@, w) == #[trigger] b.row(w),
            forall|w: int|
                0 <= w < u ==> (#[trigger] totals@[w]) as int == spec_row_sum(b.row(w)),
        decreases n - u,
    {
        let start = neighbors.len();
        let ghost neigh0 = neighbors@;
        let ghost wts0 = weights@;
        let ghost offs0 = offsets@;
        let mut total: u64 = 0;
        let mut k: usize = 0;
        let ghost deg = b.row(u as int).len();
        while k < b.adj[u].len()
            invariant
                b.wf(),
                n == b.keys@.len(),
                (u as int) < n,
                deg == b.row(u as int).len(),
                k <= deg,
                neigh0.len() == start,
                wts0.len() == start,
                weights@.len() == neighbors@.len(),
                neighbors@.len() == start + k,
                neighbors@.take(start as int) =~= neigh0,
                weights@.take(start as int) =~= wts0,
                forall|p: int|
                    0 <= p < k ==> #[trigger] neighbors@[start + p] == b.row(u as int)[p].node,
                forall|p: int|
                    0 <= p < k ==> #[trigger] weights@[start + p] == b.row(u as int)[p].weight,
                total as int == spec_row_sum(b.row(u as int).take(k as int)),
            decreases deg - k,
        {
            let e = b.adj[u][k];
            proof {
                lemma_row_sum_take(b.row(u as int), k as int);
                lemma_row_sum_take_le(b.row(u as int), k as int + 1);
                assert(spec_row_sum(b.row(u as int)) <= b.pairs as int);
                assert(b.row(u as int).take(k as int + 1).drop_last() =~= b.row(u as int).take(
                    k as int,
                ));
            }
            neighbors.push(e.node);
            weights.push(e.weight);
            total = total + e.weight;
            k = k + 1;
        }
        proof {
            assert(b.row(u as int).take(deg as int) =~= b.row(u as int));
        }
        offsets.push(neighbors.len());
        totals.push(total);
        proof {
            let ghost uu = u as int;
            assert forall|w: int|
                0 <= w <= uu implies csr_row(offsets@, neighbors@, weights@, w) == #[trigger]
                b.row(w) by {
                if w < uu {
                    assert(offsets@[w] == offs0[w]);
                    assert(offsets@[w + 1] == offs0[w + 1]);
                    assert(offs0[w + 1] <= start);
                    assert forall|p: int|
                        0 <= p < start implies neighbors@[p] == neigh0[p] && weights@[p]
                        == wts0[p] by {
                        assert(neighbors@.take(start as int)[p] == neighbors@[p]);
                        assert(weights@.take(start as int)[p] == weights@[p]);
                    }
                    assert(csr_row(offsets@, neighbors@, weights@, w) =~= csr_row(
                        offs0,
                        neigh0,
                        wts0,
                        w,
                    ));
                } else {
                    assert(csr_row(offsets@, neighbors@, weights@, w) =~= b.row(w));
                }
            }
        }
        u = u + 1;
    }
    let g = CsrGraph { keys, offsets, neighbors, weights, totals };
    proof {
        assert(g.keys_view() =~= b.keys_view());
        assert forall|u2: int| 0 <= u2 < g.n() implies #[trigger] g.row_seq(u2) == b.row(u2) by {
            assert(csr_row(g.offsets@, g.neighbors@, g.weights@, u2) == b.row(u2));
        }
        assert forall|u2: int, k2: int|
            0 <= u2 < g.n() && 0 <= k2 < g.row_seq(u2).len() implies {
            &&& (#[trigger] g.row_seq(u2)[k2]).node < g.n()
            &&& g.row_seq(u2)[k2].node != u2
            &&& g.row_seq(u2)[k2].weight >= 1
        } by {
            assert(g.row_seq(u2) == b.row(u2));
            assert(b.row(u2)[k2].node < b.adj@.len());
        }
        assert forall|u2: int|
            0 <= u2 < g.n() implies spec_row_distinct(#[trigger] g.row_seq(u2)) by {
            assert(g.row_seq(u2) == b.row(u2));
        }
        assert forall|u2: int, v2: int|
            0 <= u2 < g.n() && 0 <= v2 < g.n() implies #[trigger] spec_row_weight(
            g.row_seq(u2),
            v2,
        ) == spec_row_weight(g.row_seq(v2), u2) by {
            assert(g.row_seq(u2) == b.row(u2));
            assert(g.row_seq(v2) == b.row(v2));
        }
        assert forall|u2: int, v2: int| #[trigger]
            g.edge_weight(u2, v2) == b.edge_weight(u2, v2) by {
            if 0 <= u2 < g.n() && 0 <= v2 < g.n() && u2 != v2 {
                assert(g.row_seq(u2) == b.row(u2));
            }
        }
    }
    g
}

/// Graph transform: prune every edge whose accumulated weight lies below
/// `min_edge_weight`, producing a new compiled graph.
///
/// The transform preserves the undirected invariant and does not change
/// node indices or keys, so any previously built personalization vector
/// remains valid for the pruned graph.
pub fn prune_edges(g: &CsrGraph, min_edge_weight: u64) -> (r: CsrGraph)
    requires
        g.wf(),
    ensures
        r.wf(),
        r.n() == g.n(),
        r.keys_view() == g.keys_view(),
        forall|u: int, v: int| #[trigger]
            r.edge_weight(u, v) == (if g.edge_weight(u, v) >= min_edge_weight as int {
                g.edge_weight(u, v)
            } else {
                0
            }),
{
    let thr = min_edge_weight;
    let n = g.node_count();
    let mut keys: Vec<NodeKey> = Vec::new();
    let mut u: usize = 0;
    while u < n
        invariant
            n as int == g.n(),
            u <= n,
            keys@.len() == u,
            forall|w: int| 0 <= w < u ==> keys_seq(keys@)[w] == g.keys_view()[w],
        decreases n - u,
    {
        keys.push(clone_key(&g.keys[u]));
        u = u + 1;
    }
    let mut offsets: Vec<usize> = Vec::new();
    let mut neighbors: Vec<usize> = Vec::new();
    let mut weights: Vec<u64> = Vec::new();
    let mut totals: Vec<u64> = Vec::new();
    offsets.push(0);
    let mut u: usize = 0;
    while u < n
        invariant
            g.wf(),
            n as int == g.n(),
            u <= n,
            offsets@.len() == u + 1,
            offsets@[0] == 0usize,
            totals@.len() == u,
            weights@.len() == neighbors@.len(),
            offsets@[u as int] == neighbors@.len(),
            forall|w: int| 0 <= w < u ==> offsets@[w] <= #[trigger] offsets@[w + 1],
            forall|w: int| 0 <= w <= u ==> #[trigger] offsets@[w] <= neighbors@.len(),
            forall|w: int|
                0 <= w < u ==> csr_row(offsets@, neighbors@, weights@, w) == spec_prune_row(
                    #[trigger] g.row_seq(w),
                    thr,
                ),
            forall|w: int|
                0 <= w < u ==> (#[trigger] totals@[w]) as int == spec_row_sum(
                    spec_prune_row(g.row_seq(w), thr),
                ),
        decreases n - u,
    {
        let start = neighbors.len();
        let ghost neigh0 = neighbors@;
        let ghost wts0 = weights@;
        let ghost offs0 = offsets@;
        let ghost grow = g.row_seq(u as int);
        let mut total: u64 = 0;
        let mut k: usize = 0;
        let deg = g.row_len(u);
        while k < deg
            invariant
                g.wf(),
                n as int == g.n(),
                (u as int) < n as int,
                grow == g.row_seq(u as int),
                deg as int == grow.len(),
                k <= deg,
                neigh0.len() == start,
                wts0.len() == start,
                weights@.len() == neighbors@.len(),
                neighbors@.len() == start + spec_prune_row(grow.take(k as int), thr).len(),
                neighbors@.take(start as int) =~= neigh0,
                weights@.take(start as int) =~= wts0,
                forall|p: int|
                    0 <= p < spec_prune_row(grow.take(k as int), thr).len() ==> #[trigger]
                    neighbors@[start + p] == spec_prune_row(grow.take(k as int), thr)[p].node
                        && weights@[start + p] == spec_prune_row(
                        grow.take(k as int),
                        thr,
                    )[p].weight,
                total as int == spec_row_sum(spec_prune_row(grow.take(k as int), thr)),
            decreases deg - k,
        {
            let ghost pruned_k = spec_prune_row(grow.take(k as int), thr);
            let e = g.row_entry(u, k);
            proof {
                assert(grow.take(k as int + 1).drop_last() =~= grow.take(k as int));
                assert(grow.take(k as int + 1).last() == grow[k as int]);
                assert(spec_row_distinct(grow.take(k as int + 1))) by {
                    assert forall|k1: int, k2: int|
                        0 <= k1 < k2 < grow.take(k as int + 1).len() implies (
                    #[trigger] grow.take(k as int + 1)[k1]).node != (#[trigger] grow.take(
                        k as int + 1,
                    )[k2]).node by {
                        assert(grow.take(k as int + 1)[k1] == grow[k1]);
                        assert(grow.take(k as int + 1)[k2] == grow[k2]);
                    }
                }
                lemma_row_sum_take(grow, k as int);
                lemma_row_sum_take_le(grow, k as int + 1);
                lemma_prune_row_props(
                    grow.take(k as int + 1),
                    thr,
                    u as int,
                    n as int,
                );
                assert(spec_row_sum(grow.take(k as int + 1)) <= spec_row_sum(grow));
            }
            if e.weight >= thr {
                neighbors.push(e.node);
                weights.push(e.weight);
                proof {
                    assert(spec_prune_row(grow.take(k as int + 1), thr) =~= pruned_k.push(
                        grow[k as int],
                    ));
                    assert(spec_row_sum(pruned_k.push(grow[k as int])) == spec_row_sum(pruned_k)
                        + grow[k as int].weight) by {
                        assert(pruned_k.push(grow[k as int]).drop_last() =~= pruned_k);
                    }
                    assert(g.totals@[u as int] as int == spec_row_sum(grow));
                    assert(total as int + e.weight as int <= g.totals@[u as int] as int);
                }
                total = total + e.weight;
            } else {
                proof {
                    assert(spec_prune_row(grow.take(k as int + 1), thr) =~= pruned_k);
                }
            }
            k = k + 1;
        }
        proof {
            assert(grow.take(deg as int) =~= grow);
        }
        offsets.push(neighbors.len());
        totals.push(total);
        proof {
            let ghost uu = u as int;
            assert forall|w: int|
                0 <= w <= uu implies csr_row(offsets@, neighbors@, weights@, w)
                == spec_prune_row(#[trigger] g.row_seq(w), thr) by {
                if w < uu {
                    assert(offsets@[w] == offs0[w]);
                    assert(offsets@[w + 1] == offs0[w + 1]);
                    assert(offs0[w + 1] <= start);
                    assert forall|p: int|
                        0 <= p < start implies neighbors@[p] == neigh0[p] && weights@[p]
                        == wts0[p] by {
                        assert(neighbors@.take(start as int)[p] == neighbors@[p]);
                        assert(weights@.take(start as int)[p] == weights@[p]);
                    }
                    assert(csr_row(offsets@, neighbors@, weights@, w) =~= csr_row(
                        offs0,
                        neigh0,
                        wts0,
                        w,
                    ));
                } else {
                    assert(csr_row(offsets@, neighbors@, weights@, w) =~= spec_prune_row(
                        grow,
                        thr,
                    ));
                }
            }
        }
        u = u + 1;
    }
    let r = CsrGraph { keys, offsets, neighbors, weights, totals };
    proof {
        assert(r.keys_view() =~= g.keys_view());
        assert forall|u2: int|
            0 <= u2 < r.n() implies #[trigger] r.row_seq(u2) == spec_prune_row(
            g.row_seq(u2),
            thr,
        ) by {
            assert(csr_row(r.offsets@, r.neighbors@, r.weights@, u2) == spec_prune_row(
                g.row_seq(u2),
                thr,
            ));
        }
        assert forall|u2: int|
            0 <= u2 < r.n() implies spec_row_distinct(#[trigger] r.row_seq(u2)) && (forall|
                k2: int,
            |
                0 <= k2 < r.row_seq(u2).len() ==> {
                    &&& (#[trigger] r.row_seq(u2)[k2]).node < r.n()
                    &&& r.row_seq(u2)[k2].node != u2
                    &&& r.row_seq(u2)[k2].weight >= 1
                }) by {
            lemma_prune_row_props(g.row_seq(u2), thr, u2, n as int);
        }
        assert forall|u2: int, v2: int|
            0 <= u2 < r.n() && 0 <= v2 < r.n() implies #[trigger] spec_row_weight(
            r.row_seq(u2),
            v2,
        ) == spec_row_weight(r.row_seq(v2), u2) by {
            lemma_prune_row_weight(g.row_seq(u2), thr, v2);
            lemma_prune_row_weight(g.row_seq(v2), thr, u2);
        }
        assert forall|u2: int, v2: int| #[trigger]
            r.edge_weight(u2, v2) == (if g.edge_weight(u2, v2) >= thr as int {
                g.edge_weight(u2, v2)
            } else {
                0
            }) by {
            if 0 <= u2 < r.n() && 0 <= v2 < r.n() && u2 != v2 {
                lemma_prune_row_weight(g.row_seq(u2), thr, v2);
            }
        }
    }
    r
}

} // verus!
