//! Fixed-point exponential and negative logarithm.
//!
//! `exp_fixed` computes `exp(d / ONE) * ONE` for `d <= 0` by range reduction
//! over powers of two and an alternating series on the remainder;
//! `neg_ln_fixed` computes `-ln(p / ONE) * ONE` for `p` in `(0, ONE]` by
//! normalizing to `[1, 2)` and extracting binary digits of the logarithm by
//! repeated squaring. Both are exact integer algorithms, and their results
//! are pinned entry for entry by the spec functions below.

use vstd::prelude::*;
use vstd::arithmetic::power2::pow2;
use vstd::arithmetic::power2::lemma_pow2_pos;
use vstd::arithmetic::power2::lemma_pow2_unfold;
use vstd::arithmetic::power2::lemma_pow2_strictly_increases;
use vstd::arithmetic::power2::lemma2_to64;
use vstd::arithmetic::div_mod::lemma_div_is_ordered;
use vstd::arithmetic::div_mod::lemma_div_multiples_vanish;
use vstd::arithmetic::div_mod::lemma_div_nonincreasing;
use vstd::arithmetic::div_mod::lemma_div_pos_is_pos;
use vstd::arithmetic::mul::lemma_mul_inequality;
use vstd::arithmetic::mul::lemma_mul_upper_bound;
use crate::fixed::ONE;

verus! {

/// `ln(2) * ONE`, rounded to the nearest integer.
pub const LN2F: i64 = 726817;

/// Arguments at or below `-EXP_CUT` have an exponential smaller than the
/// fixed-point resolution, so `exp_fixed` returns 0 for them.
pub const EXP_CUT: i64 = 15728640;

/// Number of series terms taken by the exponential.
pub const EXP_ROUNDS: u64 = 16;

/// Number of binary digits extracted by the logarithm.
pub const LN_ROUNDS: u64 = 20;

/// Accumulator and current term of the alternating series for `exp(-r/ONE)`
/// after `j` terms, starting from `(ONE, ONE)`.
pub open spec fn tay(r: int, j: nat) -> (int, int)
    decreases j,
{
    if j == 0 {
        (ONE as int, ONE as int)
    } else {
        let prev = tay(r, (j - 1) as nat);
        let t = (prev.1 * r) / ((ONE as int) * (j as int));
        if j % 2 == 1 {
            (prev.0 - t, t)
        } else {
            (prev.0 + t, t)
        }
    }
}

/// The series value after `EXP_ROUNDS` terms, clamped into `[0, ONE]`.
pub open spec fn exp_series(r: int) -> int {
    let a = tay(r, EXP_ROUNDS as nat).0;
    if a < 0 {
        0
    } else if a > ONE {
        ONE as int
    } else {
        a
    }
}

/// Fixed-point exponential of a non-positive argument; 1 for non-negative
/// ones.
pub open spec fn exp_s(d: i64) -> i64 {
    if d >= 0 {
        ONE
    } else {
        let y = -(d as int);
        if y >= EXP_CUT {
            0
        } else {
            let k = y / (LN2F as int);
            let r = y % (LN2F as int);
            (exp_series(r) / (pow2(k as nat) as int)) as i64
        }
    }
}

pub proof fn lemma_exp_bounds(d: i64)
    ensures
        0 <= exp_s(d) <= ONE,
        d == 0 ==> exp_s(d) == ONE,
{
    if d < 0 {
        let y = -(d as int);
        if y < EXP_CUT {
            let k = (y / (LN2F as int)) as nat;
            let r = y % (LN2F as int);
            lemma_pow2_pos(k);
            lemma_div_pos_is_pos(exp_series(r), pow2(k) as int);
            lemma_div_nonincreasing(exp_series(r), pow2(k) as int);
        }
    }
}

/// Fixed-point exponential: `r == exp_s(d)`, which is `exp(d/ONE) * ONE` up
/// to the truncation of the series and of each division.
#[verifier::loop_isolation(false)]
pub fn exp_fixed(d: i64) -> (r: i64)
    requires
        -0x4000000000000000 <= d <= 0,
    ensures
        r == exp_s(d),
        0 <= r <= ONE,
{
    if d == 0 {
        return ONE;
    }
    let y: i64 = -d;
    if y >= EXP_CUT {
        return 0;
    }
    let yu: u64 = y as u64;
    let ku: u64 = yu / (LN2F as u64);
    let ru: u64 = yu % (LN2F as u64);
    proof {
        assert(ku as int == (y as int) / (LN2F as int));
        assert(ru as int == (y as int) % (LN2F as int));
        assert(0 <= ru < LN2F as int);
        lemma_div_is_ordered(y as int, (EXP_CUT - 1) as int, LN2F as int);
        assert(((EXP_CUT - 1) as int) / (LN2F as int) == 21);
        assert(ku <= 21);
    }
    let ghost rr: int = ru as int;
    let mut acc: i64 = ONE;
    let mut term: i64 = ONE;
    let mut j: u64 = 1;
    while j <= EXP_ROUNDS
        invariant
            1 <= j <= EXP_ROUNDS + 1,
            acc as int == tay(rr, (j - 1) as nat).0,
            term as int == tay(rr, (j - 1) as nat).1,
            0 <= term <= ONE,
            -((j as int) * (ONE as int)) <= acc as int <= (j as int) * (ONE as int),
        decreases EXP_ROUNDS + 1 - j,
    {
        proof {
            lemma_mul_upper_bound(term as int, ONE as int, rr, (LN2F - 1) as int);
            lemma_mul_inequality(rr, (ONE as int) * (j as int), term as int);
            lemma_div_multiples_vanish(term as int, (ONE as int) * (j as int));
            lemma_div_is_ordered(
                (term as int) * rr,
                ((ONE as int) * (j as int)) * (term as int),
                (ONE as int) * (j as int),
            );
            lemma_div_pos_is_pos((term as int) * rr, (ONE as int) * (j as int));
        }
        let tw: u64 = ((term as u64) * ru) / ((ONE as u64) * j);
        let t: i64 = tw as i64;
        assert(t as int == ((term as int) * rr) / ((ONE as int) * (j as int)));
        if j % 2 == 1 {
            acc = acc - t;
        } else {
            acc = acc + t;
        }
        term = t;
        proof {
            assert(tay(rr, j as nat).1 == (tay(rr, (j - 1) as nat).1 * rr) / (
            (ONE as int) * (j as nat as int)));
            assert(acc as int == tay(rr, j as nat).0);
        }
        j = j + 1;
    }
    let a: i64 = if acc < 0 {
        0
    } else if acc > ONE {
        ONE
    } else {
        acc
    };
    assert(a as int == exp_series(rr));
    let mut p: u64 = 1;
    let mut i: u64 = 0;
    proof {
        lemma2_to64();
    }
    while i < ku
        invariant
            i <= ku <= 21,
            p as nat == pow2(i as nat),
            p <= 0x200000,
        decreases ku - i,
    {
        proof {
            lemma_pow2_unfold((i + 1) as nat);
            if ((i + 1) as nat) < 21 {
                lemma_pow2_strictly_increases((i + 1) as nat, 21);
            }
            lemma2_to64();
        }
        p = p * 2;
        i = i + 1;
    }
    proof {
        lemma_pow2_pos(ku as nat);
        lemma_div_pos_is_pos(a as int, pow2(ku as nat) as int);
        lemma_div_nonincreasing(a as int, pow2(ku as nat) as int);
    }
    let r: i64 = ((a as u64) / p) as i64;
    assert(r as int == exp_series(rr) / (pow2(ku as nat) as int));
    r
}

/// Normalization for the logarithm: `lnorm(p) == (k, m)` with
/// `m == p * pow2(k)` and `ONE <= m < 2 * ONE`, for `1 <= p <= ONE`.
pub open spec fn lnorm(p: int) -> (int, int)
    decreases (if p < ONE { (ONE as int) - p } else { 0 }),
{
    if p < 1 {
        (0, ONE as int)
    } else if p >= ONE {
        (0, p)
    } else {
        let q = lnorm(2 * p);
        (q.0 + 1, q.1)
    }
}

/// Mantissa and accumulated fractional bits of `log2(m0 / ONE)` after `j`
/// squaring rounds, for `m0` in `[ONE, 2 * ONE)`.
pub open spec fn sq(m0: int, j: nat) -> (int, int)
    decreases j,
{
    if j == 0 {
        (m0, 0)
    } else {
        let prev = sq(m0, (j - 1) as nat);
        let m2 = (prev.0 * prev.0) / (ONE as int);
        if m2 >= 2 * (ONE as int) {
            (m2 / 2, prev.1 + pow2((LN_ROUNDS - j) as nat))
        } else {
            (m2, prev.1)
        }
    }
}

/// Loss sentinel: reported when the true-class probability is exactly zero,
/// where the cross-entropy is undefined. It is strictly larger than any
/// defined loss value, which is at most `20 * LN2F`.
pub const DEGEN_LOSS: i64 = 15728640;

/// Fixed-point negative logarithm of `p / ONE`, for `p` in `[1, ONE]`;
/// `DEGEN_LOSS` below that range, 0 above it.
pub open spec fn neg_ln_s(p: i64) -> i64 {
    if p < 1 {
        DEGEN_LOSS
    } else if p >= ONE {
        0
    } else {
        let q = lnorm(p as int);
        let f = sq(q.1, LN_ROUNDS as nat).1;
        (((q.0 * (ONE as int) - f) * (LN2F as int)) / (ONE as int)) as i64
    }
}

/// Fixed-point negative logarithm: `r == neg_ln_s(p)`, which is
/// `-ln(p/ONE) * ONE` up to the truncation of each of the 20 extracted
/// binary digits.
#[verifier::loop_isolation(false)]
pub fn neg_ln_fixed(p: i64) -> (r: i64)
    requires
        1 <= p <= ONE,
    ensures
        r == neg_ln_s(p),
        0 <= r < DEGEN_LOSS,
{
    if p >= ONE {
        return 0;
    }
    let mut m: i64 = p;
    let mut k: u64 = 0;
    proof {
        lemma2_to64();
    }
    while m < ONE
        invariant
            1 <= m < 2 * ONE,
            k <= 20,
            m as int == (p as int) * (pow2(k as nat) as int),
            lnorm(p as int).0 == k + lnorm(m as int).0,
            lnorm(p as int).1 == lnorm(m as int).1,
            k == 0 ==> m == p,
        decreases (if m < ONE { (ONE as int) - m } else { 0int }),
    {
        proof {
            lemma2_to64();
            lemma_pow2_unfold((k + 1) as nat);
            assert((p as int) * (pow2((k + 1) as nat) as int) == 2 * (
            (p as int) * (pow2(k as nat) as int))) by (nonlinear_arith)
                requires
                    pow2((k + 1) as nat) == 2 * pow2(k as nat),
            ;
            lemma_mul_inequality(1int, p as int, pow2(k as nat) as int);
            if k as nat >= 20 {
                if k as nat > 20 {
                    lemma_pow2_strictly_increases(20, k as nat);
                }
                assert(false);
            }
        }
        m = m * 2;
        k = k + 1;
    }
    proof {
        assert(lnorm(m as int) == (0int, m as int));
        assert(lnorm(p as int).0 == k as int);
        assert(lnorm(p as int).1 == m as int);
        assert(k >= 1);
        lemma2_to64();
        lemma_mul_inequality(1int, p as int, pow2(k as nat) as int);
        if k > 20 {
            lemma_pow2_strictly_increases(20, k as nat);
            assert(false);
        }
    }
    let ghost m1: int = m as int;
    let mut f: i64 = 0;
    let mut hbit: u64 = 524288;
    let mut j: u64 = 1;
    proof {
        lemma2_to64();
    }
    while j <= LN_ROUNDS
        invariant
            1 <= j <= LN_ROUNDS + 1,
            ONE <= m < 2 * ONE,
            m as int == sq(m1, (j - 1) as nat).0,
            f as int == sq(m1, (j - 1) as nat).1,
            j <= LN_ROUNDS ==> hbit as nat == pow2((LN_ROUNDS - j) as nat),
            0 <= f,
            (f as int) + (pow2((LN_ROUNDS + 1 - j) as nat) as int) <= ONE as int,
        decreases LN_ROUNDS + 1 - j,
    {
        proof {
            assert((m as int) * (m as int) >= (ONE as int) * (ONE as int)) by (nonlinear_arith)
                requires
                    m as int >= ONE as int,
            ;
            assert((m as int) * (m as int) < (2 * (ONE as int)) * (2 * (ONE as int)))
                by (nonlinear_arith)
                requires
                    0 <= (m as int) < 2 * (ONE as int),
            ;
            lemma_div_is_ordered((ONE as int) * (ONE as int), (m as int) * (m as int), ONE as int);
            lemma_div_multiples_vanish(ONE as int, ONE as int);
            lemma_div_is_ordered(
                (m as int) * (m as int),
                (2 * (ONE as int)) * (2 * (ONE as int)),
                ONE as int,
            );
            lemma_div_multiples_vanish(4 * (ONE as int), ONE as int);
        }
        let mm: u64 = ((m as u64) * (m as u64)) / (ONE as u64);
        proof {
            lemma_pow2_unfold((LN_ROUNDS + 1 - j) as nat);
        }
        if mm >= 2 * (ONE as u64) {
            m = (mm / 2) as i64;
            f = f + (hbit as i64);
        } else {
            m = mm as i64;
        }
        proof {
            assert(m as int == sq(m1, j as nat).0);
            assert(f as int == sq(m1, j as nat).1);
            if j + 1 <= LN_ROUNDS {
                lemma_pow2_unfold((LN_ROUNDS - j) as nat);
            }
        }
        hbit = hbit / 2;
        j = j + 1;
    }
    proof {
        lemma_div_pos_is_pos(((k as int) * (ONE as int) - f) * (LN2F as int), ONE as int);
        lemma_mul_inequality((k as int) * (ONE as int) - f, 20 * (ONE as int), LN2F as int);
        lemma_div_is_ordered(
            ((k as int) * (ONE as int) - f) * (LN2F as int),
            (20 * (ONE as int)) * (LN2F as int),
            ONE as int,
        );
        assert((20 * (ONE as int)) * (LN2F as int) == (ONE as int) * (20 * (LN2F as int)))
            by (nonlinear_arith);
        lemma_div_multiples_vanish(20 * (LN2F as int), ONE as int);
    }
    let num: u64 = (k * (ONE as u64) - (f as u64)) * (LN2F as u64);
    let r: i64 = (num / (ONE as u64)) as i64;
    r
}

} // verus!
