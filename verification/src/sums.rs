//! Sums of integer sequences and floor-division facts.
//!
//! The ranking engine and the teleport construction normalize fixed-point
//! vectors by integer division; the lemmas here bound the mass that floor
//! rounding can lose, and bound a sum of selected entries of a vector by the
//! sum of the whole vector.

use vstd::prelude::*;
use vstd::arithmetic::div_mod::{
    lemma_div_by_multiple, lemma_div_is_ordered, lemma_fundamental_div_mod,
    lemma_mod_bound,
};
use vstd::arithmetic::mul::{lemma_mul_inequality, lemma_mul_inequality_converse};

verus! {

/// Sum of a sequence of mathematical integers.
pub open spec fn sum_int(s: Seq<int>) -> int
    decreases s.len(),
{
    if s.len() == 0 {
        0
    } else {
        sum_int(s.drop_last()) + s.last()
    }
}

/// A sequence of `u64` values as mathematical integers.
pub open spec fn as_ints(s: Seq<u64>) -> Seq<int> {
    s.map_values(|x: u64| x as int)
}

/// Every entry of `s` is non-negative.
pub open spec fn all_nonneg(s: Seq<int>) -> bool {
    forall|i: int| 0 <= i < s.len() ==> s[i] >= 0
}

pub proof fn lemma_sum_nonneg(s: Seq<int>)
    requires
        all_nonneg(s),
    ensures
        sum_int(s) >= 0,
    decreases s.len(),
{
    if s.len() > 0 {
        assert(all_nonneg(s.drop_last()));
        lemma_sum_nonneg(s.drop_last());
    }
}

pub proof fn lemma_sum_take_step(s: Seq<int>, k: int)
    requires
        0 <= k < s.len(),
    ensures
        sum_int(s.take(k + 1)) == sum_int(s.take(k)) + s[k],
{
    assert(s.take(k + 1).drop_last() =~= s.take(k));
    assert(s.take(k + 1).last() == s[k]);
}

pub proof fn lemma_sum_take_le(s: Seq<int>, k: int)
    requires
        all_nonneg(s),
        0 <= k <= s.len(),
    ensures
        sum_int(s.take(k)) <= sum_int(s),
    decreases s.len() - k,
{
    if k == s.len() {
        assert(s.take(k) =~= s);
    } else {
        lemma_sum_take_step(s, k);
        lemma_sum_take_le(s, k + 1);
    }
}

pub proof fn lemma_sum_elem_le(s: Seq<int>, i: int)
    requires
        all_nonneg(s),
        0 <= i < s.len(),
    ensures
        s[i] <= sum_int(s),
{
    lemma_sum_take_step(s, i);
    assert(all_nonneg(s.take(i)));
    lemma_sum_nonneg(s.take(i));
    lemma_sum_take_le(s, i + 1);
}

pub proof fn lemma_sum_update(s: Seq<int>, i: int, v: int)
    requires
        0 <= i < s.len(),
    ensures
        sum_int(s.update(i, v)) == sum_int(s) - s[i] + v,
    decreases s.len(),
{
    if i == s.len() - 1 {
        assert(s.update(i, v).drop_last() =~= s.drop_last());
        assert(s.update(i, v).last() == v);
    } else {
        assert(s.update(i, v).drop_last() =~= s.drop_last().update(i, v));
        assert(s.update(i, v).last() == s.last());
        lemma_sum_update(s.drop_last(), i, v);
    }
}

/// A sum of values, each drawn from a distinct slot of `s` and bounded by
/// that slot, is bounded by the sum of `s`.
pub proof fn lemma_sum_distinct_bound(s: Seq<int>, idx: Seq<int>, vals: Seq<int>)
    requires
        all_nonneg(s),
        vals.len() == idx.len(),
        forall|j: int| 0 <= j < idx.len() ==> 0 <= #[trigger] idx[j] < s.len(),
        forall|j1: int, j2: int|
            0 <= j1 < j2 < idx.len() ==> #[trigger] idx[j1] != #[trigger] idx[j2],
        forall|j: int| 0 <= j < vals.len() ==> 0 <= #[trigger] vals[j] <= s[idx[j]],
    ensures
        sum_int(vals) <= sum_int(s),
    decreases idx.len(),
{
    if idx.len() == 0 {
        lemma_sum_nonneg(s);
    } else {
        let last_i = idx.last();
        let s2 = s.update(last_i, 0);
        let idx2 = idx.drop_last();
        let vals2 = vals.drop_last();
        assert(all_nonneg(s2));
        assert forall|j: int| 0 <= j < vals2.len() implies 0 <= #[trigger] vals2[j]
            <= s2[idx2[j]] by {
            assert(idx[j] != last_i);
            assert(vals[j] <= s[idx[j]]);
        }
        lemma_sum_distinct_bound(s2, idx2, vals2);
        lemma_sum_update(s, last_i, 0);
        assert(sum_int(vals) == sum_int(vals2) + vals.last());
        assert(vals.last() <= s[last_i]);
    }
}

/// Floor division distributes over addition with loss at most one unit.
pub proof fn lemma_div_sum_le(a: int, b: int, d: int)
    requires
        a >= 0,
        b >= 0,
        d > 0,
    ensures
        a / d + b / d <= (a + b) / d,
{
    lemma_fundamental_div_mod(a, d);
    lemma_fundamental_div_mod(b, d);
    lemma_mod_bound(a, d);
    lemma_mod_bound(b, d);
    let qa = a / d;
    let qb = b / d;
    let q = qa + qb;
    assert(d * q == d * qa + d * qb) by (nonlinear_arith)
        requires
            q == qa + qb,
    ;
    lemma_div_is_ordered(d * q, a + b, d);
    lemma_div_by_multiple(q, d);
    assert((q * d) / d == q);
    assert(d * q == q * d) by (nonlinear_arith);
}

/// The entry-wise floor quotients of a sequence sum to at most the floor
/// quotient of the sum.
pub proof fn lemma_sum_div_le(s: Seq<int>, d: int)
    requires
        all_nonneg(s),
        d > 0,
    ensures
        sum_int(s.map_values(|x: int| x / d)) <= sum_int(s) / d,
    decreases s.len(),
{
    let mapped = s.map_values(|x: int| x / d);
    if s.len() == 0 {
        assert(mapped.len() == 0);
    } else {
        let s0 = s.drop_last();
        assert(all_nonneg(s0));
        lemma_sum_div_le(s0, d);
        assert(mapped.drop_last() =~= s0.map_values(|x: int| x / d));
        assert(mapped.last() == s.last() / d);
        lemma_sum_nonneg(s0);
        lemma_div_sum_le(sum_int(s0), s.last(), d);
    }
}

/// Each floor quotient `x / d` recovers at least `x - (d - 1)` after
/// re-multiplication: summed over a sequence, at most `len * (d - 1)` mass
/// is lost to rounding.
pub proof fn lemma_sum_div_lower(s: Seq<int>, d: int)
    requires
        all_nonneg(s),
        d > 0,
    ensures
        d * sum_int(s.map_values(|x: int| x / d)) >= sum_int(s) - s.len() * (d - 1),
    decreases s.len(),
{
    let mapped = s.map_values(|x: int| x / d);
    if s.len() == 0 {
    } else {
        let s0 = s.drop_last();
        assert(all_nonneg(s0));
        lemma_sum_div_lower(s0, d);
        assert(mapped.drop_last() =~= s0.map_values(|x: int| x / d));
        assert(mapped.last() == s.last() / d);
        lemma_fundamental_div_mod(s.last(), d);
        lemma_mod_bound(s.last(), d);
        assert(d * (s.last() / d) >= s.last() - (d - 1));
        let ma = sum_int(mapped.drop_last());
        let mb = mapped.last();
        assert(d * (ma + mb) == d * ma + d * mb) by (nonlinear_arith);
        assert(sum_int(mapped) == ma + mb);
        let m0 = s0.len() as int;
        assert((m0 + 1) * (d - 1) == m0 * (d - 1) + (d - 1)) by (nonlinear_arith);
    }
}

/// Cancel a positive factor on both sides of an inequality.
pub proof fn lemma_cancel_factor_le(f: int, a: int, b: int)
    requires
        f > 0,
        f * a >= f * b,
    ensures
        a >= b,
{
    if a < b {
        lemma_mul_inequality(a + 1, b, f);
        assert(f * (a + 1) == f * a + f) by (nonlinear_arith);
        assert(false);
    }
}

/// A constant sequence sums to length times the constant.
pub proof fn lemma_sum_const(n: nat, c: int)
    ensures
        sum_int(Seq::new(n, |i: int| c)) == n * c,
    decreases n,
{
    let s = Seq::new(n, |i: int| c);
    let m = n as int;
    if n == 0 {
        assert(m * c == 0) by (nonlinear_arith)
            requires
                m == 0,
        ;
    } else {
        lemma_sum_const((n - 1) as nat, c);
        assert(s.drop_last() =~= Seq::new((n - 1) as nat, |i: int| c));
        assert(m * c == (m - 1) * c + c) by (nonlinear_arith);
    }
}

/// Scaling every entry scales the sum.
pub proof fn lemma_sum_scale(s: Seq<int>, f: int)
    ensures
        sum_int(s.map_values(|x: int| x * f)) == sum_int(s) * f,
    decreases s.len(),
{
    let mapped = s.map_values(|x: int| x * f);
    if s.len() == 0 {
        assert(0 * f == 0) by (nonlinear_arith);
    } else {
        lemma_sum_scale(s.drop_last(), f);
        assert(mapped.drop_last() =~= s.drop_last().map_values(|x: int| x * f));
        assert(mapped.last() == s.last() * f);
        assert((sum_int(s.drop_last()) + s.last()) * f == sum_int(s.drop_last()) * f + s.last()
            * f) by (nonlinear_arith);
    }
}

} // verus!
