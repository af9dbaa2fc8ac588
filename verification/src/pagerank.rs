//! Power-iteration PageRank over the compiled graph, shared by the plain
//! and the personalized/topical variants.
//!
//! Scores are fixed-point integers in units of 1e-12 (`SCALE` is 1.0). Every
//! update computes, for each node `v`,
//! `raw[v] = (1 - damping) * teleport[v] + damping * Σ w(u,v)/out(u) * score[u]`
//! in exact integer arithmetic and then renormalizes the vector,
//! spreading the rounding remainder over the first entries, so the score
//! mass provably sums to exactly 1.0 after every step. The whole run is a
//! pure function of its inputs ([`spec_run`]): reruns are bit-for-bit
//! reproducible.

use vstd::prelude::*;
use vstd::arithmetic::div_mod::{
    lemma_div_by_multiple, lemma_div_is_ordered, lemma_div_pos_is_pos,
    lemma_fundamental_div_mod, lemma_mod_bound,
};
use vstd::arithmetic::mul::{
    lemma_mul_inequality, lemma_mul_is_commutative, lemma_mul_upper_bound,
};
use crate::csr::CsrGraph;
use crate::graph_builder::{
    lemma_row_weight_absent, lemma_row_weight_at, lemma_row_weight_le_sum, spec_row_distinct,
    spec_row_sum, spec_row_weight, AdjEntry,
};
use crate::sums::{
    all_nonneg, as_ints, lemma_cancel_factor_le, lemma_sum_const, lemma_sum_distinct_bound,
    lemma_sum_div_le, lemma_sum_div_lower, lemma_sum_elem_le, lemma_sum_nonneg, lemma_sum_scale,
    lemma_sum_take_step, sum_int,
};
use crate::types::SCALE;

verus! {

/// Residual reported when no update step was performed.
pub const RESIDUAL_NONE: u64 = u64::MAX;

/// A fixed-point probability vector of length `n`: non-negative entries
/// summing to exactly 1.0.
pub open spec fn spec_distribution(t: Seq<int>, n: int) -> bool {
    &&& t.len() == n
    &&& all_nonneg(t)
    &&& sum_int(t) == SCALE as int
}

/// `base` with one extra unit on each of its first `deficit` entries: how
/// the mass lost to floor rounding is handed back.
pub open spec fn spec_topped(base: Seq<int>, deficit: int) -> Seq<int> {
    Seq::new(
        base.len(),
        |i: int| base[i] + if i < deficit {
            1int
        } else {
            0int
        },
    )
}

/// The floor quotients of normalization, before the remainder top-up.
pub open spec fn spec_floors(raw: Seq<int>) -> Seq<int> {
    raw.map_values(|x: int| (x * SCALE as int) / sum_int(raw))
}

/// The uniform vector: every entry is `1/n` rounded down, with the
/// division remainder spread one unit each over the first entries, so the
/// total is exactly 1.0.
pub open spec fn spec_uniform(n: int) -> Seq<int> {
    spec_topped(Seq::new(n as nat, |i: int| SCALE as int / n), SCALE as int % n)
}

/// Normalize a non-negative vector to total mass exactly 1.0: each entry
/// becomes `x * SCALE / sum` rounded down, and the rounding remainder (at
/// most one unit per entry) is spread over the first entries; a zero
/// vector falls back to uniform.
pub open spec fn spec_normalize(raw: Seq<int>) -> Seq<int> {
    let s = sum_int(raw);
    if s <= 0 {
        spec_uniform(raw.len() as int)
    } else {
        spec_topped(spec_floors(raw), SCALE as int - sum_int(spec_floors(raw)))
    }
}

/// Topping up `deficit` entries adds exactly `deficit` to the sum.
pub proof fn lemma_sum_topped(base: Seq<int>, deficit: int)
    requires
        0 <= deficit <= base.len(),
    ensures
        sum_int(spec_topped(base, deficit)) == sum_int(base) + deficit,
    decreases base.len(),
{
    let topped = spec_topped(base, deficit);
    if base.len() > 0 {
        if deficit == base.len() {
            assert(topped.drop_last() =~= spec_topped(base.drop_last(), deficit - 1));
            assert(topped.last() == base.last() + 1);
            lemma_sum_topped(base.drop_last(), deficit - 1);
        } else {
            assert(topped.drop_last() =~= spec_topped(base.drop_last(), deficit));
            assert(topped.last() == base.last());
            lemma_sum_topped(base.drop_last(), deficit);
        }
    }
}

/// The random-walk contribution flowing into `v` through its `k`-th edge:
/// `w(u,v) * score[u] / out(u)`.
pub open spec fn spec_edge_term(g: CsrGraph, s: Seq<int>, v: int, k: int) -> int {
    let e = g.row_seq(v)[k];
    (e.weight as int * s[e.node as int]) / (g.totals@[e.node as int] as int)
}

/// Partial sum of the contributions through the first `k` edges of `v`.
pub open spec fn spec_m_contrib(g: CsrGraph, s: Seq<int>, v: int, k: int) -> int
    decreases k,
{
    if k <= 0 {
        0
    } else {
        spec_m_contrib(g, s, v, k - 1) + spec_edge_term(g, s, v, k - 1)
    }
}

/// Total random-walk mass flowing into `v` in one update.
pub open spec fn spec_m(g: CsrGraph, s: Seq<int>, v: int) -> int {
    spec_m_contrib(g, s, v, g.row_seq(v).len() as int)
}

/// Un-normalized updated score of `v`.
pub open spec fn spec_raw_at(g: CsrGraph, d: int, t: Seq<int>, s: Seq<int>, v: int) -> int {
    ((SCALE as int - d) * t[v]) / (SCALE as int) + (d * spec_m(g, s, v)) / (SCALE as int)
}

/// Un-normalized updated score vector.
pub open spec fn spec_raws(g: CsrGraph, d: int, t: Seq<int>, s: Seq<int>) -> Seq<int> {
    Seq::new(g.n() as nat, |v: int| spec_raw_at(g, d, t, s, v))
}

/// One full update step: compute all raw scores, then renormalize.
pub open spec fn spec_step(g: CsrGraph, d: int, t: Seq<int>, s: Seq<int>) -> Seq<int> {
    spec_normalize(spec_raws(g, d, t, s))
}

/// Absolute value.
pub open spec fn abs_int(a: int) -> int {
    if a >= 0 {
        a
    } else {
        -a
    }
}

/// L1 distance of two equally long vectors.
pub open spec fn spec_l1(a: Seq<int>, b: Seq<int>) -> int {
    sum_int(Seq::new(a.len(), |i: int| abs_int(a[i] - b[i])))
}

/// Outcome of a ranking run, as a mathematical value.
pub ghost struct RankModel {
    /// Final score vector.
    pub scores: Seq<int>,
    /// Number of update steps performed.
    pub steps: int,
    /// Whether the L1 residual reached the threshold.
    pub converged: bool,
    /// Residual after the last performed step (`RESIDUAL_NONE` if none).
    pub residual: int,
}

/// The engine as a pure function: starting from `s`, perform update steps
/// until the residual reaches `thr` or `budget` steps were done. The
/// convergence test always follows a completed update.
pub open spec fn spec_run(
    g: CsrGraph,
    d: int,
    t: Seq<int>,
    thr: int,
    s: Seq<int>,
    budget: int,
) -> RankModel
    decreases budget,
{
    if budget <= 0 {
        RankModel { scores: s, steps: 0, converged: false, residual: RESIDUAL_NONE as int }
    } else {
        let s1 = spec_step(g, d, t, s);
        let r = spec_l1(s1, s);
        if r <= thr {
            RankModel { scores: s1, steps: 1, converged: true, residual: r }
        } else if budget == 1 {
            RankModel { scores: s1, steps: 1, converged: false, residual: r }
        } else {
            let m = spec_run(g, d, t, thr, s1, budget - 1);
            RankModel {
                scores: m.scores,
                steps: m.steps + 1,
                converged: m.converged,
                residual: m.residual,
            }
        }
    }
}

/// Iteration policy of [`spec_run`]: the step count never exceeds the
/// budget, convergence certifies the final residual, and a run that did
/// not converge used its whole budget.
pub proof fn lemma_run_props(g: CsrGraph, d: int, t: Seq<int>, thr: int, s: Seq<int>, budget: int)
    requires
        budget >= 0,
    ensures
        0 <= spec_run(g, d, t, thr, s, budget).steps <= budget,
        spec_run(g, d, t, thr, s, budget).converged ==> spec_run(g, d, t, thr, s, budget).residual
            <= thr,
        !spec_run(g, d, t, thr, s, budget).converged ==> spec_run(g, d, t, thr, s, budget).steps
            == budget,
    decreases budget,
{
    if budget > 0 {
        let s1 = spec_step(g, d, t, s);
        let r = spec_l1(s1, s);
        if r <= thr {
        } else if budget > 1 {
            lemma_run_props(g, d, t, thr, s1, budget - 1);
        }
    }
}

/// The random-walk terms of a row, summed, with the out-weight table
/// passed explicitly: the quantity [`spec_m`] computes for a node.
pub open spec fn spec_row_terms(row: Seq<AdjEntry>, s: Seq<int>, totals: Seq<u64>) -> int
    decreases row.len(),
{
    if row.len() == 0 {
        0
    } else {
        spec_row_terms(row.drop_last(), s, totals) + (row.last().weight as int * s[row.last().node
            as int]) / (totals[row.last().node as int] as int)
    }
}

/// [`spec_m_contrib`] agrees with the row-terms sum over the row prefix.
proof fn lemma_m_is_row_terms(g: CsrGraph, s: Seq<int>, v: int, k: int)
    requires
        0 <= k <= g.row_seq(v).len(),
    ensures
        spec_m_contrib(g, s, v, k) == spec_row_terms(g.row_seq(v).take(k), s, g.totals@),
    decreases k,
{
    if k > 0 {
        lemma_m_is_row_terms(g, s, v, k - 1);
        assert(g.row_seq(v).take(k).drop_last() =~= g.row_seq(v).take(k - 1));
        assert(g.row_seq(v).take(k).last() == g.row_seq(v)[k - 1]);
    }
}

/// Removing one entry from a duplicate-free row removes exactly its
/// weight, its term, and its neighbor.
proof fn lemma_row_remove(row: Seq<AdjEntry>, k: int, s: Seq<int>, totals: Seq<u64>)
    requires
        spec_row_distinct(row),
        0 <= k < row.len(),
    ensures
        spec_row_distinct(row.remove(k)),
        spec_row_sum(row.remove(k)) == spec_row_sum(row) - row[k].weight,
        spec_row_terms(row.remove(k), s, totals) == spec_row_terms(row, s, totals) - (row[k].weight
            as int * s[row[k].node as int]) / (totals[row[k].node as int] as int),
        forall|v: int| #[trigger]
            spec_row_weight(row.remove(k), v) == (if v == row[k].node as int {
                0int
            } else {
                spec_row_weight(row, v)
            }),
    decreases row.len(),
{
    row.remove_ensures(k);
    let removed = row.remove(k);
    assert forall|p1: int, p2: int|
        0 <= p1 < p2 < removed.len() implies (#[trigger] removed[p1]).node != (
    #[trigger] removed[p2]).node by {
        let q1: int = if p1 < k {
            p1
        } else {
            p1 + 1
        };
        let q2: int = if p2 < k {
            p2
        } else {
            p2 + 1
        };
        assert(removed[p1] == row[q1]);
        assert(removed[p2] == row[q2]);
    }
    if k == row.len() - 1 {
        assert(removed =~= row.drop_last());
        assert(row.last() == row[k]);
        assert forall|v: int| #[trigger]
            spec_row_weight(removed, v) == (if v == row[k].node as int {
                0int
            } else {
                spec_row_weight(row, v)
            }) by {
            if v == row[k].node as int {
                assert forall|p: int|
                    0 <= p < removed.len() implies (#[trigger] removed[p]).node != v by {
                    assert(removed[p] == row[p]);
                }
                lemma_row_weight_absent(removed, v);
            }
        }
    } else {
        assert(removed.drop_last() =~= row.drop_last().remove(k));
        assert(removed.last() == row.last());
        assert(spec_row_distinct(row.drop_last()));
        assert(row.drop_last()[k] == row[k]);
        lemma_row_remove(row.drop_last(), k, s, totals);
        assert forall|v: int| #[trigger]
            spec_row_weight(removed, v) == (if v == row[k].node as int {
                0int
            } else {
                spec_row_weight(row, v)
            }) by {
            assert(row.last() == row[row.len() - 1]);
            assert(row[k].node != row.last().node);
            if v == row.last().node as int {
            } else {
                assert(spec_row_weight(removed, v) == spec_row_weight(removed.drop_last(), v));
                assert(spec_row_weight(row, v) == spec_row_weight(row.drop_last(), v));
            }
        }
    }
}

/// Two duplicate-free rows that record the same weight for every neighbor
/// hold the same entries, so their weight totals and their random-walk
/// term sums coincide: the order of a row is irrelevant to the engine.
proof fn lemma_row_order_irrelevant(
    r1: Seq<AdjEntry>,
    r2: Seq<AdjEntry>,
    s: Seq<int>,
    totals: Seq<u64>,
)
    requires
        spec_row_distinct(r1),
        spec_row_distinct(r2),
        forall|p: int| 0 <= p < r1.len() ==> (#[trigger] r1[p]).weight >= 1,
        forall|p: int| 0 <= p < r2.len() ==> (#[trigger] r2[p]).weight >= 1,
        forall|v: int| #[trigger] spec_row_weight(r1, v) == spec_row_weight(r2, v),
    ensures
        spec_row_sum(r1) == spec_row_sum(r2),
        spec_row_terms(r1, s, totals) == spec_row_terms(r2, s, totals),
    decreases r1.len(),
{
    if r1.len() == 0 {
        if r2.len() > 0 {
            let e = r2.last();
            lemma_row_weight_at(r2, r2.len() - 1);
            assert(spec_row_weight(r2, e.node as int) == e.weight as int);
            lemma_row_weight_absent(r1, e.node as int);
            assert(spec_row_weight(r1, e.node as int) == 0);
            assert(false);
        }
    } else {
        let e = r1.last();
        lemma_row_weight_at(r1, r1.len() - 1);
        assert(spec_row_weight(r1, e.node as int) == e.weight as int);
        assert(spec_row_weight(r2, e.node as int) == e.weight as int);
        assert(exists|q: int| 0 <= q < r2.len() && (#[trigger] r2[q]).node == e.node) by {
            if forall|q: int| 0 <= q < r2.len() ==> (#[trigger] r2[q]).node != e.node {
                lemma_row_weight_absent(r2, e.node as int);
            }
        }
        let k2 = choose|q: int| 0 <= q < r2.len() && (#[trigger] r2[q]).node == e.node;
        lemma_row_weight_at(r2, k2);
        assert(r2[k2].weight as int == e.weight as int);
        assert(r2[k2] == e);
        let r1p = r1.drop_last();
        let r2p = r2.remove(k2);
        lemma_row_remove(r2, k2, s, totals);
        r2.remove_ensures(k2);
        assert(spec_row_distinct(r1p));
        assert forall|v: int| #[trigger]
            spec_row_weight(r1p, v) == spec_row_weight(r2p, v) by {
            if v == e.node as int {
                assert forall|p: int|
                    0 <= p < r1p.len() implies (#[trigger] r1p[p]).node != e.node by {
                    assert(r1p[p] == r1[p]);
                    assert(r1[p].node != r1[r1.len() - 1].node);
                }
                lemma_row_weight_absent(r1p, v);
            } else {
                assert(r1.last() == r1[r1.len() - 1]);
                assert(spec_row_weight(r1, v) == spec_row_weight(r1p, v));
            }
        }
        assert forall|p: int| 0 <= p < r1p.len() implies (#[trigger] r1p[p]).weight >= 1 by {
            assert(r1p[p] == r1[p]);
        }
        assert forall|p: int| 0 <= p < r2p.len() implies (#[trigger] r2p[p]).weight >= 1 by {
            if p < k2 {
                assert(r2p[p] == r2[p]);
            } else {
                assert(r2p[p] == r2[p + 1]);
            }
        }
        lemma_row_order_irrelevant(r1p, r2p, s, totals);
        assert(spec_row_sum(r1) == spec_row_sum(r1p) + e.weight);
        assert(spec_row_terms(r1, s, totals) == spec_row_terms(r1p, s, totals) + (e.weight as int
            * s[e.node as int]) / (totals[e.node as int] as int));
    }
}

/// One update step sees only the edge-weight function: two well-formed
/// graphs of equal size with the same weights take the same step.
proof fn lemma_step_depends_only_on_weights(
    g1: CsrGraph,
    g2: CsrGraph,
    d: int,
    t: Seq<int>,
    s: Seq<int>,
)
    requires
        g1.wf(),
        g2.wf(),
        g1.n() == g2.n(),
        forall|u: int, v: int| #[trigger] g1.edge_weight(u, v) == g2.edge_weight(u, v),
    ensures
        spec_step(g1, d, t, s) == spec_step(g2, d, t, s),
{
    let n = g1.n();
    assert forall|u: int, v: int|
        0 <= u < n implies #[trigger] spec_row_weight(g1.row_seq(u), v) == spec_row_weight(
        g2.row_seq(u),
        v,
    ) by {
        if 0 <= v < n && v != u {
            assert(g1.edge_weight(u, v) == g2.edge_weight(u, v));
        } else {
            assert forall|p: int|
                0 <= p < g1.row_seq(u).len() implies (#[trigger] g1.row_seq(u)[p]).node != v by {}
            assert forall|p: int|
                0 <= p < g2.row_seq(u).len() implies (#[trigger] g2.row_seq(u)[p]).node != v by {}
            lemma_row_weight_absent(g1.row_seq(u), v);
            lemma_row_weight_absent(g2.row_seq(u), v);
        }
    }
    assert forall|u: int| 0 <= u < n implies g1.totals@[u] == g2.totals@[u] by {
        lemma_row_order_irrelevant(g1.row_seq(u), g2.row_seq(u), s, g1.totals@);
    }
    assert(g1.totals@ =~= g2.totals@);
    assert forall|v: int| 0 <= v < n implies spec_m(g1, s, v) == spec_m(g2, s, v) by {
        lemma_m_is_row_terms(g1, s, v, g1.row_seq(v).len() as int);
        lemma_m_is_row_terms(g2, s, v, g2.row_seq(v).len() as int);
        assert(g1.row_seq(v).take(g1.row_seq(v).len() as int) =~= g1.row_seq(v));
        assert(g2.row_seq(v).take(g2.row_seq(v).len() as int) =~= g2.row_seq(v));
        lemma_row_order_irrelevant(g1.row_seq(v), g2.row_seq(v), s, g1.totals@);
    }
    assert(spec_raws(g1, d, t, s) =~= spec_raws(g2, d, t, s));
}

/// The whole run sees only the edge-weight function. Together with the
/// graph-construction contracts, which pin the node keys and the
/// edge-weight function as functions of the token sequence and the
/// configuration, this makes separately rebuilt runs identical bit for
/// bit, whatever adjacency order construction produced.
pub proof fn lemma_run_depends_only_on_weights(
    g1: CsrGraph,
    g2: CsrGraph,
    d: int,
    t: Seq<int>,
    thr: int,
    s: Seq<int>,
    budget: int,
)
    requires
        g1.wf(),
        g2.wf(),
        g1.n() == g2.n(),
        forall|u: int, v: int| #[trigger] g1.edge_weight(u, v) == g2.edge_weight(u, v),
    ensures
        spec_run(g1, d, t, thr, s, budget) == spec_run(g2, d, t, thr, s, budget),
    decreases budget,
{
    if budget > 0 {
        lemma_step_depends_only_on_weights(g1, g2, d, t, s);
        let s1 = spec_step(g1, d, t, s);
        if spec_l1(s1, s) <= thr {
        } else if budget > 1 {
            lemma_run_depends_only_on_weights(g1, g2, d, t, thr, s1, budget - 1);
        }
    }
}

/// Two compiled graphs that each satisfy the construction contract for
/// the same token sequence and configuration rank identically: rebuilding
/// the graph cannot change a ranking run, whatever adjacency order
/// construction produced.
pub proof fn lemma_rebuilt_run_identical(
    g1: CsrGraph,
    g2: CsrGraph,
    tokens: Seq<crate::types::Token>,
    cfg: crate::graph_builder::BuildCfg,
    d: int,
    t: Seq<int>,
    thr: int,
    s: Seq<int>,
    budget: int,
)
    requires
        g1.wf(),
        g2.wf(),
        g1.keys_view() == crate::graph_builder::spec_node_keys(
            tokens,
            cfg.pos_filter,
            cfg.pos_sensitive,
        ),
        g2.keys_view() == crate::graph_builder::spec_node_keys(
            tokens,
            cfg.pos_filter,
            cfg.pos_sensitive,
        ),
        forall|x: int, y: int|
            0 <= x < g1.n() && 0 <= y < g1.n() && x != y ==> #[trigger] g1.edge_weight(x, y)
                == crate::graph_builder::spec_edge_weight_model(
                tokens,
                cfg,
                g1.keys_view()[x],
                g1.keys_view()[y],
            ),
        forall|x: int, y: int|
            0 <= x < g2.n() && 0 <= y < g2.n() && x != y ==> #[trigger] g2.edge_weight(x, y)
                == crate::graph_builder::spec_edge_weight_model(
                tokens,
                cfg,
                g2.keys_view()[x],
                g2.keys_view()[y],
            ),
    ensures
        spec_run(g1, d, t, thr, s, budget) == spec_run(g2, d, t, thr, s, budget),
{
    assert(g1.n() == g1.keys_view().len());
    assert(g2.n() == g2.keys_view().len());
    assert forall|u: int, v: int| #[trigger]
        g1.edge_weight(u, v) == g2.edge_weight(u, v) by {
        if 0 <= u < g1.n() && 0 <= v < g1.n() && u != v {
            assert(g1.edge_weight(u, v) == crate::graph_builder::spec_edge_weight_model(
                tokens,
                cfg,
                g1.keys_view()[u],
                g1.keys_view()[v],
            ));
            assert(g2.edge_weight(u, v) == crate::graph_builder::spec_edge_weight_model(
                tokens,
                cfg,
                g2.keys_view()[u],
                g2.keys_view()[v],
            ));
        }
    }
    lemma_run_depends_only_on_weights(g1, g2, d, t, thr, s, budget);
}

/// The engine is deterministic: two outcomes of the same run coincide.
/// (The run is a pure function of graph, damping, teleport, threshold and
/// budget, so reruns with identical inputs are bit-for-bit identical.)
pub proof fn lemma_rank_deterministic(
    g: CsrGraph,
    d: int,
    t: Seq<int>,
    thr: int,
    s: Seq<int>,
    budget: int,
    m1: RankModel,
    m2: RankModel,
)
    requires
        m1 == spec_run(g, d, t, thr, s, budget),
        m2 == spec_run(g, d, t, thr, s, budget),
    ensures
        m1 == m2,
{
}

/// The uniform vector is a valid distribution: it sums to exactly 1.0.
pub proof fn lemma_uniform_distribution(n: int)
    requires
        n >= 1,
    ensures
        spec_distribution(spec_uniform(n), n),
        forall|i: int| 0 <= i < n ==> #[trigger] spec_uniform(n)[i] <= SCALE as int,
{
    let q = SCALE as int / n;
    let rem = SCALE as int % n;
    let base = Seq::new(n as nat, |i: int| q);
    lemma_div_pos_is_pos(SCALE as int, n);
    lemma_fundamental_div_mod(SCALE as int, n);
    lemma_mod_bound(SCALE as int, n);
    lemma_sum_const(n as nat, q);
    lemma_sum_topped(base, rem);
    assert(sum_int(spec_uniform(n)) == n * q + rem);
    assert(n * q + rem == SCALE as int);
    assert(all_nonneg(spec_uniform(n)));
    assert forall|i: int| 0 <= i < n implies #[trigger] spec_uniform(n)[i] <= SCALE as int by {
        lemma_sum_elem_le(spec_uniform(n), i);
    }
}

/// Bounds on the floor quotients of normalization: each lies in
/// `[0, SCALE]`, and their total falls short of `SCALE` by at most one
/// unit per entry.
pub proof fn lemma_floor_bounds(raw: Seq<int>)
    requires
        raw.len() >= 1,
        all_nonneg(raw),
        sum_int(raw) >= 1,
    ensures
        spec_floors(raw).len() == raw.len(),
        all_nonneg(spec_floors(raw)),
        forall|i: int| 0 <= i < raw.len() ==> #[trigger] spec_floors(raw)[i] <= SCALE as int,
        sum_int(spec_floors(raw)) <= SCALE as int,
        sum_int(spec_floors(raw)) >= SCALE as int - raw.len(),
{
    let n = raw.len() as int;
    let s = sum_int(raw);
    let big = SCALE as int;
    let mapped = spec_floors(raw);
    let scaled = raw.map_values(|x: int| x * big);
    assert forall|i: int| 0 <= i < n implies 0 <= #[trigger] mapped[i] <= big by {
        lemma_sum_elem_le(raw, i);
        lemma_div_pos_is_pos(raw[i] * big, s);
        assert(raw[i] * big >= 0) by (nonlinear_arith)
            requires
                raw[i] >= 0,
                big > 0,
        ;
        lemma_mul_inequality(raw[i], s, big);
        lemma_div_is_ordered(raw[i] * big, s * big, s);
        lemma_mul_is_commutative(s, big);
        lemma_div_by_multiple(big, s);
    }
    assert(all_nonneg(mapped));
    // Upper bound on the total.
    assert(all_nonneg(scaled)) by {
        assert forall|i: int| 0 <= i < n implies #[trigger] scaled[i] >= 0 by {
            assert(raw[i] * big >= 0) by (nonlinear_arith)
                requires
                    raw[i] >= 0,
                    big > 0,
            ;
        }
    }
    lemma_sum_div_le(scaled, s);
    assert(scaled.map_values(|x: int| x / s) =~= mapped);
    lemma_sum_scale(raw, big);
    assert(sum_int(scaled) == s * big) by {
        lemma_mul_is_commutative(s, big);
    }
    lemma_div_by_multiple(big, s);
    assert(sum_int(mapped) <= big);
    // Lower bound on the total.
    lemma_sum_div_lower(scaled, s);
    assert(s * sum_int(mapped) >= s * big - n * (s - 1));
    assert(n * (s - 1) <= n * s - n) by (nonlinear_arith)
        requires
            n >= 1,
    ;
    assert(s * big - (n * s - n) >= s * (big - n)) by (nonlinear_arith)
        requires
            n >= 1,
            s >= 1,
    ;
    lemma_cancel_factor_le(s, sum_int(mapped), big - n);
}

/// Normalization yields a valid distribution (total exactly 1.0) with
/// entries at most 1.0.
pub proof fn lemma_normalize_props(raw: Seq<int>)
    requires
        raw.len() >= 1,
        all_nonneg(raw),
    ensures
        spec_normalize(raw).len() == raw.len(),
        spec_distribution(spec_normalize(raw), raw.len() as int),
        forall|i: int|
            0 <= i < raw.len() ==> #[trigger] spec_normalize(raw)[i] <= SCALE as int,
{
    let n = raw.len() as int;
    let s = sum_int(raw);
    lemma_sum_nonneg(raw);
    if s <= 0 {
        lemma_uniform_distribution(n);
    } else {
        lemma_floor_bounds(raw);
        let floors = spec_floors(raw);
        let deficit = SCALE as int - sum_int(floors);
        lemma_sum_topped(floors, deficit);
        assert(sum_int(spec_normalize(raw)) == SCALE as int);
        assert(all_nonneg(spec_normalize(raw)));
        assert forall|i: int|
            0 <= i < n implies #[trigger] spec_normalize(raw)[i] <= SCALE as int by {
            lemma_sum_elem_le(spec_normalize(raw), i);
        }
    }
}

/// Each update term is bounded by the score it draws from.
proof fn lemma_edge_term_bounds(g: CsrGraph, s: Seq<int>, v: int, k: int)
    requires
        g.wf(),
        s.len() == g.n(),
        all_nonneg(s),
        0 <= v < g.n(),
        0 <= k < g.row_seq(v).len(),
    ensures
        0 <= spec_edge_term(g, s, v, k) <= s[g.row_seq(v)[k].node as int],
        g.totals@[g.row_seq(v)[k].node as int] >= g.row_seq(v)[k].weight >= 1,
{
    let e = g.row_seq(v)[k];
    let u = e.node as int;
    let w = e.weight as int;
    let tot = g.totals@[u] as int;
    lemma_row_weight_at(g.row_seq(v), k);
    assert(spec_row_weight_alias(g, v, u) == w);
    assert(spec_row_weight_alias(g, u, v) == w);
    lemma_row_weight_le_sum(g.row_seq(u), v);
    assert(tot >= w);
    lemma_div_pos_is_pos(w * s[u], tot);
    assert(w * s[u] >= 0) by (nonlinear_arith)
        requires
            w >= 0,
            s[u] >= 0,
    ;
    lemma_mul_inequality(w, tot, s[u]);
    lemma_div_is_ordered(w * s[u], tot * s[u], tot);
    lemma_mul_is_commutative(tot, s[u]);
    lemma_div_by_multiple(s[u], tot);
}

/// Alias so that the symmetry conjunct of the graph invariant triggers.
pub open spec fn spec_row_weight_alias(g: CsrGraph, a: int, b: int) -> int {
    crate::graph_builder::spec_row_weight(g.row_seq(a), b)
}

/// The random-walk mass flowing into any node is bounded by the total
/// score mass (neighbors are distinct, and each contributes at most its
/// own score).
proof fn lemma_m_bounded(g: CsrGraph, s: Seq<int>, v: int)
    requires
        g.wf(),
        s.len() == g.n(),
        all_nonneg(s),
        0 <= v < g.n(),
    ensures
        0 <= spec_m(g, s, v) <= sum_int(s),
{
    let deg = g.row_seq(v).len() as int;
    let idx = Seq::new(deg as nat, |k: int| g.row_seq(v)[k].node as int);
    let vals = Seq::new(deg as nat, |k: int| spec_edge_term(g, s, v, k));
    lemma_m_contrib_is_sum(g, s, v, deg);
    assert(spec_m(g, s, v) == sum_int(vals.take(deg)));
    assert(vals.take(deg) =~= vals);
    assert forall|j: int| 0 <= j < deg implies 0 <= #[trigger] vals[j] <= s[idx[j]] by {
        lemma_edge_term_bounds(g, s, v, j);
    }
    lemma_sum_distinct_bound(s, idx, vals);
    lemma_sum_nonneg(vals);
}

/// The partial contribution is the sum of the term sequence prefix.
proof fn lemma_m_contrib_is_sum(g: CsrGraph, s: Seq<int>, v: int, k: int)
    requires
        0 <= k <= g.row_seq(v).len(),
    ensures
        spec_m_contrib(g, s, v, k) == sum_int(
            Seq::new(g.row_seq(v).len() as nat, |p: int| spec_edge_term(g, s, v, p)).take(k),
        ),
    decreases k,
{
    let vals = Seq::new(g.row_seq(v).len() as nat, |p: int| spec_edge_term(g, s, v, p));
    if k > 0 {
        lemma_m_contrib_is_sum(g, s, v, k - 1);
        lemma_sum_take_step(vals, k - 1);
    }
}

/// Copy a score vector.
fn clone_scores(v: &Vec<u64>) -> (r: Vec<u64>)
    ensures
        r@ == v@,
{
    let mut r: Vec<u64> = Vec::new();
    let mut i: usize = 0;
    while i < v.len()
        invariant
            i <= v@.len(),
            r@ == v@.take(i as int),
        decreases v@.len() - i,
    {
        r.push(v[i]);
        proof {
            assert(r@ =~= v@.take(i as int + 1));
        }
        i = i + 1;
    }
    proof {
        assert(v@.take(v@.len() as int) =~= v@);
    }
    r
}

/// The uniform initial/teleport vector for `n` nodes.
fn uniform_vec(n: usize) -> (r: Vec<u64>)
    requires
        n >= 1,
    ensures
        r@.len() == n,
        as_ints(r@) == spec_uniform(n as int),
        spec_distribution(as_ints(r@), n as int),
        forall|i: int| 0 <= i < n ==> #[trigger] r@[i] <= SCALE,
{
    let q128: u128 = (SCALE as u128) / (n as u128);
    let rem128: u128 = (SCALE as u128) % (n as u128);
    proof {
        lemma_uniform_distribution(n as int);
        assert(q128 as int == SCALE as int / (n as int));
        assert(rem128 as int == SCALE as int % (n as int));
        lemma_mod_bound(SCALE as int, n as int);
    }
    let q: u64 = q128 as u64;
    let rem: u64 = rem128 as u64;
    let mut r: Vec<u64> = Vec::new();
    let mut i: usize = 0;
    while i < n
        invariant
            i <= n,
            r@.len() == i,
            q as int == SCALE as int / (n as int),
            q <= SCALE,
            rem as int == SCALE as int % (n as int),
            forall|p: int|
                0 <= p < i ==> #[trigger] r@[p] as int == q as int + if p < rem as int {
                    1int
                } else {
                    0int
                },
        decreases n - i,
    {
        if (i as u64) < rem {
            r.push(q + 1);
        } else {
            r.push(q);
        }
        i = i + 1;
    }
    proof {
        assert(as_ints(r@) =~= spec_uniform(n as int));
        assert forall|p: int| 0 <= p < n implies #[trigger] r@[p] <= SCALE by {
            assert(r@[p] as int == spec_uniform(n as int)[p]);
        }
    }
    r
}

/// Normalize a raw vector to total mass 1.0 (uniform fallback when the
/// vector is all zero).
pub(crate) fn normalize_scores(raws: &Vec<u64>) -> (r: Vec<u64>)
    requires
        raws@.len() >= 1,
    ensures
        r@.len() == raws@.len(),
        as_ints(r@) == spec_normalize(as_ints(raws@)),
        spec_distribution(as_ints(r@), raws@.len() as int),
        forall|p: int| 0 <= p < r@.len() ==> #[trigger] r@[p] <= SCALE,
    {
    let n = raws.len();
    let ghost rawsi = as_ints(raws@);
    let mut ssum: u128 = 0;
    let mut v: usize = 0;
    while v < n
        invariant
            n == raws@.len(),
            rawsi == as_ints(raws@),
            v <= n,
            ssum as int == sum_int(rawsi.take(v as int)),
            ssum as int <= (v as int) * (u64::MAX as int),
        decreases n - v,
    {
        proof {
            lemma_sum_take_step(rawsi, v as int);
            assert(((v as int) + 1) * (u64::MAX as int) == (v as int) * (u64::MAX as int)
                + u64::MAX as int) by (nonlinear_arith);
            lemma_mul_upper_bound(v as int, u64::MAX as int, u64::MAX as int, u64::MAX as int);
        }
        ssum = ssum + (raws[v] as u128);
        v = v + 1;
    }
    proof {
        assert(rawsi.take(n as int) =~= rawsi);
        assert(all_nonneg(rawsi));
        lemma_normalize_props(rawsi);
    }
    if ssum == 0 {
        let r = uniform_vec(n);
        proof {
            assert(spec_normalize(rawsi) == spec_uniform(n as int));
        }
        r
    } else {
        let ghost s = sum_int(rawsi);
        let ghost floors = spec_floors(rawsi);
        let mut r: Vec<u64> = Vec::new();
        let mut fsum: u128 = 0;
        let mut v: usize = 0;
        while v < n
            invariant
                n == raws@.len(),
                rawsi == as_ints(raws@),
                v <= n,
                s == sum_int(rawsi),
                s >= 1,
                ssum as int == s,
                floors == spec_floors(rawsi),
                r@.len() == v,
                forall|p: int|
                    0 <= p < v ==> #[trigger] r@[p] as int == floors[p] && r@[p] <= SCALE,
                fsum as int == sum_int(floors.take(v as int)),
                fsum as int <= (v as int) * (SCALE as int),
            decreases n - v,
        {
            let num: u128 = (raws[v] as u128) * (SCALE as u128);
            let q128: u128 = num / ssum;
            proof {
                lemma_sum_elem_le(rawsi, v as int);
                lemma_div_pos_is_pos(rawsi[v as int] * SCALE as int, s);
                assert(rawsi[v as int] * SCALE as int >= 0) by (nonlinear_arith)
                    requires
                        rawsi[v as int] >= 0,
                ;
                lemma_mul_inequality(rawsi[v as int], s, SCALE as int);
                lemma_div_is_ordered(rawsi[v as int] * SCALE as int, s * SCALE as int, s);
                lemma_mul_is_commutative(s, SCALE as int);
                lemma_div_by_multiple(SCALE as int, s);
                assert(q128 as int == (rawsi[v as int] * SCALE as int) / s);
                assert(q128 <= SCALE as u128);
                lemma_sum_take_step(floors, v as int);
                assert(((v as int) + 1) * (SCALE as int) == (v as int) * (SCALE as int)
                    + SCALE as int) by (nonlinear_arith);
                lemma_mul_upper_bound(v as int, u64::MAX as int, SCALE as int, SCALE as int);
            }
            r.push(q128 as u64);
            fsum = fsum + q128;
            v = v + 1;
        }
        proof {
            assert(floors.take(n as int) =~= floors);
            lemma_floor_bounds(rawsi);
        }
        let deficit64: u64 = SCALE - (fsum as u64);
        let deficit: usize = deficit64 as usize;
        let ghost def = SCALE as int - sum_int(floors);
        proof {
            assert(deficit as int == def);
            assert(def <= n as int);
        }
        let mut j: usize = 0;
        while j < deficit
            invariant
                n == raws@.len(),
                floors == spec_floors(rawsi),
                r@.len() == n,
                j <= deficit,
                deficit as int == def,
                0 <= def <= n as int,
                forall|p: int| 0 <= p < n ==> #[trigger] floors[p] <= SCALE as int,
                forall|p: int|
                    0 <= p < j ==> #[trigger] r@[p] as int == floors[p] + 1,
                forall|p: int|
                    j <= p < n ==> #[trigger] r@[p] as int == floors[p],
            decreases deficit - j,
        {
            let x = r[j];
            r[j] = x + 1;
            j = j + 1;
        }
        proof {
            assert(as_ints(r@) =~= spec_topped(floors, def));
            assert(as_ints(r@) =~= spec_normalize(rawsi));
            lemma_normalize_props(rawsi);
            assert forall|p: int| 0 <= p < r@.len() implies #[trigger] r@[p] <= SCALE by {
                assert(as_ints(r@)[p] == spec_normalize(rawsi)[p]);
            }
        }
        r
    }
}

/// The L1 distance of two non-negative vectors is at most the sum of
/// their masses.
proof fn lemma_l1_le_sums(a: Seq<int>, b: Seq<int>)
    requires
        a.len() == b.len(),
        all_nonneg(a),
        all_nonneg(b),
    ensures
        spec_l1(a, b) <= sum_int(a) + sum_int(b),
    decreases a.len(),
{
    let diffs = Seq::new(a.len(), |i: int| abs_int(a[i] - b[i]));
    if a.len() > 0 {
        lemma_l1_le_sums(a.drop_last(), b.drop_last());
        assert(diffs.drop_last() =~= Seq::new(
            a.drop_last().len(),
            |i: int| abs_int(a.drop_last()[i] - b.drop_last()[i]),
        ));
        assert(diffs.last() == abs_int(a.last() - b.last()));
    }
}

/// One power-iteration update step: compute the raw updated scores in
/// exact fixed-point arithmetic, then renormalize.
fn step(g: &CsrGraph, damping: u64, teleport: &Vec<u64>, scores: &Vec<u64>) -> (r: Vec<u64>)
    requires
        g.wf(),
        g.n() >= 1,
        damping <= SCALE,
        teleport@.len() == g.n(),
        scores@.len() == g.n(),
        forall|p: int| 0 <= p < g.n() ==> #[trigger] teleport@[p] <= SCALE,
        spec_distribution(as_ints(scores@), g.n()),
    ensures
        r@.len() == g.n(),
        as_ints(r@) == spec_step(*g, damping as int, as_ints(teleport@), as_ints(scores@)),
        spec_distribution(as_ints(r@), g.n()),
        forall|p: int| 0 <= p < r@.len() ==> #[trigger] r@[p] <= SCALE,
{
    let n = g.node_count();
    let ghost ti = as_ints(teleport@);
    let ghost si = as_ints(scores@);
    let ghost d = damping as int;
    let ghost big = SCALE as int;
    let mut raws: Vec<u64> = Vec::new();
    let mut v: usize = 0;
    while v < n
        invariant
            g.wf(),
            n as int == g.n(),
            n >= 1,
            damping <= SCALE,
            teleport@.len() == g.n(),
            scores@.len() == g.n(),
            ti == as_ints(teleport@),
            si == as_ints(scores@),
            d == damping as int,
            big == SCALE as int,
            forall|p: int| 0 <= p < g.n() ==> #[trigger] teleport@[p] <= SCALE,
            spec_distribution(si, g.n()),
            v <= n,
            raws@.len() == v,
            forall|p: int|
                0 <= p < v ==> #[trigger] raws@[p] as int == spec_raw_at(*g, d, ti, si, p)
                    && raws@[p] <= SCALE,
        decreases n - v,
    {
        let deg = g.row_len(v);
        let mut m: u128 = 0;
        let mut k: usize = 0;
        while k < deg
            invariant
                g.wf(),
                n as int == g.n(),
                (v as int) < n as int,
                scores@.len() == g.n(),
                si == as_ints(scores@),
                big == SCALE as int,
                spec_distribution(si, g.n()),
                deg as int == g.row_seq(v as int).len(),
                k <= deg,
                m as int == spec_m_contrib(*g, si, v as int, k as int),
                m as int <= (k as int) * big,
            decreases deg - k,
        {
            let e = g.row_entry(v, k);
            proof {
                lemma_edge_term_bounds(*g, si, v as int, k as int);
                lemma_sum_elem_le(si, e.node as int);
                lemma_mul_upper_bound(
                    e.weight as int,
                    u64::MAX as int,
                    si[e.node as int],
                    big,
                );
            }
            let tot = g.total_weight(e.node);
            let term: u128 = (e.weight as u128) * (scores[e.node] as u128) / (tot as u128);
            proof {
                assert(term as int == spec_edge_term(*g, si, v as int, k as int));
                assert(((k as int) + 1) * big == (k as int) * big + big) by (nonlinear_arith);
                lemma_mul_upper_bound(k as int, u64::MAX as int, big, big);
            }
            m = m + term;
            k = k + 1;
        }
        proof {
            lemma_m_bounded(*g, si, v as int);
            assert(m as int == spec_m(*g, si, v as int));
            assert(m as int <= big);
        }
        let tv = teleport[v];
        let sd = SCALE - damping;
        proof {
            lemma_mul_upper_bound(sd as int, big, tv as int, big);
            lemma_mul_upper_bound(d, big, m as int, big);
        }
        let part1: u128 = ((sd as u128) * (tv as u128)) / (SCALE as u128);
        let part2: u128 = ((damping as u128) * m) / (SCALE as u128);
        proof {
            // part1 <= SCALE - damping
            assert((sd as int) * (tv as int) >= 0) by (nonlinear_arith)
                requires
                    sd >= 0,
                    tv >= 0,
            ;
            lemma_mul_inequality(tv as int, big, sd as int);
            lemma_mul_is_commutative(tv as int, sd as int);
            lemma_mul_is_commutative(big, sd as int);
            lemma_div_is_ordered((sd as int) * (tv as int), (sd as int) * big, big);
            vstd::arithmetic::div_mod::lemma_div_multiples_vanish(sd as int, big);
            assert((big * (sd as int)) == ((sd as int) * big)) by (nonlinear_arith);
            assert(part1 as int == ((big - d) * ti[v as int]) / big);
            assert(part1 as int <= big - d);
            // part2 <= damping
            assert(d * (m as int) >= 0) by (nonlinear_arith)
                requires
                    d >= 0,
                    m as int >= 0,
            ;
            lemma_mul_inequality(m as int, big, d);
            lemma_mul_is_commutative(m as int, d);
            lemma_mul_is_commutative(big, d);
            lemma_div_is_ordered(d * (m as int), d * big, big);
            vstd::arithmetic::div_mod::lemma_div_multiples_vanish(d, big);
            assert(part2 as int == (d * spec_m(*g, si, v as int)) / big);
            assert(part2 as int <= d);
            lemma_div_pos_is_pos((sd as int) * (tv as int), big);
            lemma_div_pos_is_pos(d * (m as int), big);
        }
        let raw: u64 = (part1 + part2) as u64;
        proof {
            assert(raw as int == spec_raw_at(*g, d, ti, si, v as int));
            assert(raw <= SCALE);
        }
        raws.push(raw);
        v = v + 1;
    }
    proof {
        assert(as_ints(raws@) =~= spec_raws(*g, d, ti, si));
    }
    let r = normalize_scores(&raws);
    proof {
        assert(as_ints(r@) == spec_step(*g, d, ti, si));
    }
    r
}

/// L1 distance of two score vectors of bounded mass.
fn l1_diff(a: &Vec<u64>, b: &Vec<u64>) -> (r: u64)
    requires
        a@.len() == b@.len(),
        sum_int(as_ints(a@)) <= SCALE as int,
        sum_int(as_ints(b@)) <= SCALE as int,
    ensures
        r as int == spec_l1(as_ints(a@), as_ints(b@)),
        r <= 2 * SCALE,
{
    let ghost ai = as_ints(a@);
    let ghost bi = as_ints(b@);
    let ghost diffs = Seq::new(ai.len(), |i: int| abs_int(ai[i] - bi[i]));
    let n = a.len();
    let mut acc: u128 = 0;
    let mut v: usize = 0;
    while v < n
        invariant
            n == a@.len(),
            a@.len() == b@.len(),
            ai == as_ints(a@),
            bi == as_ints(b@),
            sum_int(ai) <= SCALE as int,
            sum_int(bi) <= SCALE as int,
            diffs == Seq::new(ai.len(), |i: int| abs_int(ai[i] - bi[i])),
            v <= n,
            acc as int == sum_int(diffs.take(v as int)),
            acc as int <= (v as int) * (2 * SCALE as int),
        decreases n - v,
    {
        let av = a[v];
        let bv = b[v];
        proof {
            lemma_sum_elem_le(ai, v as int);
            lemma_sum_elem_le(bi, v as int);
            lemma_sum_take_step(diffs, v as int);
            assert(((v as int) + 1) * (2 * SCALE as int) == (v as int) * (2 * SCALE as int) + 2
                * SCALE as int) by (nonlinear_arith);
            lemma_mul_upper_bound(v as int, u64::MAX as int, 2 * SCALE as int, 2 * SCALE as int);
        }
        let dv: u64 = if av >= bv {
            av - bv
        } else {
            bv - av
        };
        acc = acc + (dv as u128);
        v = v + 1;
    }
    proof {
        assert(diffs.take(n as int) =~= diffs);
        lemma_l1_le_sums(ai, bi);
        assert(acc as int <= 2 * SCALE as int);
    }
    acc as u64
}

/// Final outcome of one ranking run: the score vector in node-index order,
/// plus the convergence flag, the iteration count, and the last residual.
/// Immutable once produced.
#[derive(Debug)]
pub struct RankOutput {
    /// Scores, indexed like the graph's node indices; fixed-point units of
    /// 1e-12.
    pub scores: Vec<u64>,
    /// Whether the L1 residual reached the threshold.
    pub converged: bool,
    /// Number of update steps performed.
    pub iterations: u32,
    /// L1 residual after the last performed step, or [`RESIDUAL_NONE`]
    /// when no step ran on a non-empty graph (residual 0 on an empty one).
    pub residual: u64,
}

/// The initial (and teleport) distribution of a run: the supplied
/// personalization vector, or uniform.
pub open spec fn spec_initial(g: CsrGraph, personalization: Option<Seq<u64>>) -> Seq<int> {
    match personalization {
        Some(p) => as_ints(p),
        None => spec_uniform(g.n()),
    }
}

/// Run power-iteration PageRank on `g` to convergence or to
/// `max_iterations`.
///
/// The teleport vector doubles as the initial score distribution. Each
/// iteration performs the update for every node in index order and then
/// tests the L1 residual against `threshold`; exhausting `max_iterations`
/// without reaching it is reported as `converged == false`, never hidden.
/// A zero-node graph converges trivially with zero iterations. Dangling
/// nodes (zero outgoing weight) contribute nothing beyond the teleport
/// term — an intentional simplification, with no dangling-mass
/// redistribution. The result equals [`spec_run`] exactly, so reruns are
/// bit-for-bit identical.
pub fn rank(
    g: &CsrGraph,
    damping: u64,
    max_iterations: u32,
    threshold: u64,
    personalization: Option<&Vec<u64>>,
) -> (out: RankOutput)
    requires
        g.wf(),
        0 < damping < SCALE,
        personalization is Some ==> g.n() >= 1 && spec_distribution(
            as_ints(personalization->0@),
            g.n(),
        ),
    ensures
        out.scores@.len() == g.n(),
        g.n() == 0 ==> out.converged && out.iterations == 0 && out.residual == 0,
        g.n() >= 1 ==> {
            let m = spec_run(
                *g,
                damping as int,
                spec_initial(*g, match personalization { Some(p) => Some(p@), None => None }),
                threshold as int,
                spec_initial(*g, match personalization { Some(p) => Some(p@), None => None }),
                max_iterations as int,
            );
            &&& as_ints(out.scores@) == m.scores
            &&& out.iterations as int == m.steps
            &&& out.converged == m.converged
            &&& out.residual as int == m.residual
            &&& spec_distribution(as_ints(out.scores@), g.n())
        },
        out.iterations <= max_iterations,
        out.converged ==> out.residual <= threshold,
        !out.converged && g.n() >= 1 ==> out.iterations == max_iterations,
{
    let n = g.node_count();
    if n == 0 {
        return RankOutput { scores: Vec::new(), converged: true, iterations: 0, residual: 0 };
    }
    let teleport: Vec<u64> = match personalization {
        Some(p) => clone_scores(p),
        None => uniform_vec(n),
    };
    proof {
        if personalization is None {
            lemma_uniform_distribution(n as int);
        } else {
            assert forall|p: int| 0 <= p < n implies #[trigger] teleport@[p] <= SCALE by {
                lemma_sum_elem_le(as_ints(teleport@), p);
            }
        }
    }
    let ghost ti = as_ints(teleport@);
    let ghost thr = threshold as int;
    let ghost d = damping as int;
    let ghost target = spec_run(*g, d, ti, thr, ti, max_iterations as int);
    let mut scores = clone_scores(&teleport);
    let mut iterations: u32 = 0;
    let mut converged = false;
    let mut residual: u64 = RESIDUAL_NONE;
    while iterations < max_iterations && !converged
        invariant
            g.wf(),
            n as int == g.n(),
            n >= 1,
            0 < damping < SCALE,
            d == damping as int,
            thr == threshold as int,
            teleport@.len() == g.n(),
            ti == as_ints(teleport@),
            spec_distribution(ti, g.n()),
            forall|p: int| 0 <= p < g.n() ==> #[trigger] teleport@[p] <= SCALE,
            target == spec_run(*g, d, ti, thr, ti, max_iterations as int),
            scores@.len() == g.n(),
            spec_distribution(as_ints(scores@), g.n()),
            iterations <= max_iterations,
            !converged && iterations < max_iterations ==> {
                let rest = spec_run(
                    *g,
                    d,
                    ti,
                    thr,
                    as_ints(scores@),
                    max_iterations as int - iterations as int,
                );
                &&& target.scores == rest.scores
                &&& target.steps == iterations as int + rest.steps
                &&& target.converged == rest.converged
                &&& target.residual == rest.residual
            },
            !converged && iterations == max_iterations ==> target == (RankModel {
                scores: as_ints(scores@),
                steps: iterations as int,
                converged: false,
                residual: residual as int,
            }),
            converged ==> target == (RankModel {
                scores: as_ints(scores@),
                steps: iterations as int,
                converged: true,
                residual: residual as int,
            }) && residual <= threshold,
        decreases max_iterations - iterations,
    {
        let ghost pre = as_ints(scores@);
        let ghost budget = max_iterations as int - iterations as int;
        let new_scores = step(g, damping, &teleport, &scores);
        let r = l1_diff(&new_scores, &scores);
        proof {
            assert(as_ints(new_scores@) == spec_step(*g, d, ti, pre));
            assert(r as int == spec_l1(as_ints(new_scores@), pre));
            lemma_run_props(*g, d, ti, thr, pre, budget);
        }
        scores = new_scores;
        residual = r;
        iterations = iterations + 1;
        if r <= threshold {
            converged = true;
        }
        proof {
            let rest_pre = spec_run(*g, d, ti, thr, pre, budget);
            if r as int <= thr {
                assert(rest_pre == RankModel {
                    scores: as_ints(scores@),
                    steps: 1int,
                    converged: true,
                    residual: r as int,
                });
            } else if budget == 1 {
                assert(rest_pre == RankModel {
                    scores: as_ints(scores@),
                    steps: 1int,
                    converged: false,
                    residual: r as int,
                });
            } else {
                let rest_new = spec_run(*g, d, ti, thr, as_ints(scores@), budget - 1);
                assert(rest_pre.scores == rest_new.scores);
                assert(rest_pre.steps == rest_new.steps + 1);
                assert(rest_pre.converged == rest_new.converged);
                assert(rest_pre.residual == rest_new.residual);
            }
        }
    }
    proof {
        lemma_run_props(*g, d, ti, thr, ti, max_iterations as int);
    }
    RankOutput { scores, converged, iterations, residual }
}

} // verus!
