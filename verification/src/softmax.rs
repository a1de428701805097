//! Specification of the softmax map over fixed-point vectors, and the proof
//! that its entries are non-negative and sum to `ONE` up to one truncation
//! unit per entry.

use vstd::prelude::*;
use vstd::arithmetic::div_mod::lemma_div_is_ordered;
use vstd::arithmetic::div_mod::lemma_div_multiples_vanish;
use vstd::arithmetic::div_mod::lemma_div_pos_is_pos;
use vstd::arithmetic::div_mod::lemma_fundamental_div_mod;
use vstd::arithmetic::div_mod::lemma_fundamental_div_mod_converse;
use vstd::arithmetic::mul::lemma_mul_inequality;
use vstd::arithmetic::mul::lemma_mul_is_commutative;
use crate::fixed::ONE;
use crate::fixed::in_range;
use crate::linalg::argmax_s;
use crate::linalg::lemma_argmax_first_max;
use crate::linalg::vec_in_range;
use crate::transcend::exp_s;
use crate::transcend::lemma_exp_bounds;

verus! {

/// The value of the first maximum entry.
pub open spec fn seq_max_s(v: Seq<i64>) -> i64 {
    v[argmax_s(v)]
}

/// Elementwise `exp_s(v[i] - m)`.
pub open spec fn exps_s(v: Seq<i64>, m: i64) -> Seq<i64> {
    Seq::new(v.len(), |i: int| exp_s((v[i] - m) as i64))
}

/// Sum of a sequence, as an unbounded integer.
pub open spec fn sum_s(v: Seq<i64>) -> int
    decreases v.len(),
{
    if v.len() == 0 {
        0
    } else {
        sum_s(v.drop_last()) + v.last()
    }
}

/// Elementwise `(e[i] * ONE) / s`, truncated.
pub open spec fn div_seq(e: Seq<i64>, s: int) -> Seq<i64> {
    Seq::new(e.len(), |i: int| ((e[i] * (ONE as int)) / s) as i64)
}

/// Softmax: exponentials of the entries shifted by the maximum, each divided
/// by their sum.
pub open spec fn softmax_s(v: Seq<i64>) -> Seq<i64> {
    div_seq(exps_s(v, seq_max_s(v)), sum_s(exps_s(v, seq_max_s(v))))
}

pub proof fn lemma_sum_take_step(v: Seq<i64>, k: int)
    requires
        0 < k <= v.len(),
    ensures
        sum_s(v.take(k)) == sum_s(v.take(k - 1)) + v[k - 1],
{
    assert(v.take(k).drop_last() =~= v.take(k - 1));
    assert(v.take(k).last() == v[k - 1]);
}

/// A sequence of entries in `[0, hi]` sums to a value in `[0, len * hi]`.
pub proof fn lemma_sum_bounds(v: Seq<i64>, hi: int)
    requires
        forall|i: int| 0 <= i < v.len() ==> 0 <= #[trigger] v[i] <= hi,
    ensures
        0 <= sum_s(v) <= v.len() * hi,
    decreases v.len(),
{
    if v.len() == 0 {
    } else {
        lemma_sum_bounds(v.drop_last(), hi);
        assert((v.len() - 1) * hi + hi == v.len() * hi) by (nonlinear_arith);
    }
}

/// The sum of non-negative entries is at least any single entry.
pub proof fn lemma_sum_lower(v: Seq<i64>, i: int)
    requires
        forall|j: int| 0 <= j < v.len() ==> 0 <= #[trigger] v[j],
        0 <= i < v.len(),
    ensures
        sum_s(v) >= v[i],
    decreases v.len(),
{
    if i == v.len() - 1 {
        lemma_sum_bounds(v.drop_last(), i64::MAX as int);
    } else {
        lemma_sum_lower(v.drop_last(), i);
    }
}

/// Floor division distributes over a sum up to one unit.
proof fn lemma_div_add(x: int, y: int, s: int)
    requires
        s > 0,
        x >= 0,
        y >= 0,
    ensures
        x / s + y / s <= (x + y) / s <= x / s + y / s + 1,
{
    lemma_fundamental_div_mod(x, s);
    lemma_fundamental_div_mod(y, s);
    let q1 = x / s;
    let r1 = x % s;
    let q2 = y / s;
    let r2 = y % s;
    assert(s * q1 + s * q2 == s * (q1 + q2)) by (nonlinear_arith);
    assert(s * (q1 + q2) + s == s * (q1 + q2 + 1)) by (nonlinear_arith);
    if r1 + r2 < s {
        lemma_fundamental_div_mod_converse(x + y, s, q1 + q2, r1 + r2);
    } else {
        lemma_fundamental_div_mod_converse(x + y, s, q1 + q2 + 1, r1 + r2 - s);
    }
}

/// One truncated share is between 0 and `ONE` when the entry is at most the
/// denominator's scale.
pub proof fn lemma_div_entry_bounds(a: i64, s: int)
    requires
        0 <= a <= ONE,
        ONE <= s,
    ensures
        0 <= ((a as int) * (ONE as int)) / s <= ONE as int,
{
    lemma_div_pos_is_pos((a as int) * (ONE as int), s);
    lemma_mul_inequality(a as int, s, ONE as int);
    lemma_div_is_ordered((a as int) * (ONE as int), s * (ONE as int), s);
    lemma_div_multiples_vanish(ONE as int, s);
}

/// The truncated shares of a sum `S` over denominator `s` add up to a value
/// between `(S * ONE) / s - len` and `(S * ONE) / s`.
proof fn lemma_div_seq_sum(e: Seq<i64>, s: int)
    requires
        ONE <= s,
        forall|i: int| 0 <= i < e.len() ==> 0 <= #[trigger] e[i] <= ONE,
    ensures
        (sum_s(e) * (ONE as int)) / s - e.len() <= sum_s(div_seq(e, s)) <= (sum_s(e) * (
        ONE as int)) / s,
    decreases e.len(),
{
    if e.len() == 0 {
    } else {
        let e0 = e.drop_last();
        let a = e.last();
        lemma_div_seq_sum(e0, s);
        assert(div_seq(e, s).drop_last() =~= div_seq(e0, s));
        lemma_div_entry_bounds(a, s);
        assert(div_seq(e, s).last() == (((a as int) * (ONE as int)) / s) as i64);
        lemma_sum_bounds(e0, ONE as int);
        assert(sum_s(e) * (ONE as int) == sum_s(e0) * (ONE as int) + (a as int) * (ONE as int))
            by (nonlinear_arith)
            requires
                sum_s(e) == sum_s(e0) + a,
        ;
        lemma_div_add(sum_s(e0) * (ONE as int), (a as int) * (ONE as int), s);
    }
}

/// Softmax entries are non-negative, at most `ONE`, and sum to `ONE` up to
/// one truncation unit for each entry: the deficit is below `len`, which for
/// up to 100 classes is within a relative tolerance of 1e-4.
pub proof fn lemma_softmax_sum_to_one(v: Seq<i64>)
    requires
        1 <= v.len(),
        vec_in_range(v),
    ensures
        (ONE as int) - v.len() <= sum_s(softmax_s(v)) <= ONE as int,
        forall|i: int| 0 <= i < v.len() ==> 0 <= #[trigger] softmax_s(v)[i] <= ONE,
        softmax_s(v).len() == v.len(),
{
    let m = seq_max_s(v);
    let e = exps_s(v, m);
    let s = sum_s(e);
    lemma_argmax_first_max(v);
    assert forall|i: int| 0 <= i < e.len() implies 0 <= #[trigger] e[i] <= ONE by {
        lemma_exp_bounds((v[i] - m) as i64);
    }
    let mi = argmax_s(v);
    assert(e[mi] == ONE) by {
        lemma_exp_bounds((v[mi] - m) as i64);
    }
    lemma_sum_lower(e, mi);
    assert(s >= ONE);
    lemma_div_seq_sum(e, s);
    lemma_mul_is_commutative(s, ONE as int);
    lemma_div_multiples_vanish(ONE as int, s);
    assert((s * (ONE as int)) / s == ONE as int);
    assert forall|i: int| 0 <= i < v.len() implies 0 <= #[trigger] softmax_s(v)[i] <= ONE by {
        lemma_div_entry_bounds(e[i], s);
    }
}

} // verus!
