//! Saturating fixed-point arithmetic on `i64`.
//!
//! A value `v` stands for the real number `v / ONE`. Sums and products are
//! truncated toward zero and clamped to `[-VMAX, VMAX]`, so every operation
//! is total and exactly described by its spec function.

use vstd::prelude::*;

verus! {

/// The fixed-point scale: the representation of the real number 1.
pub const ONE: i64 = 1048576;

/// Saturation bound on the magnitude of every stored value.
pub const VMAX: i64 = 2199023255552;

/// A value the arithmetic can produce: magnitude at most `VMAX`.
pub open spec fn in_range(x: i64) -> bool {
    -VMAX <= x <= VMAX
}

/// Clamp an unbounded integer into `[-VMAX, VMAX]`.
pub open spec fn clampv(x: int) -> int {
    if x > VMAX as int {
        VMAX as int
    } else if x < -(VMAX as int) {
        -(VMAX as int)
    } else {
        x
    }
}

/// Division of a product by `ONE`, truncated toward zero.
pub open spec fn div_one(p: int) -> int {
    if p >= 0 {
        p / (ONE as int)
    } else {
        -((-p) / (ONE as int))
    }
}

/// Saturating fixed-point addition.
pub open spec fn fadd_s(a: i64, b: i64) -> i64 {
    clampv(a + b) as i64
}

/// Saturating fixed-point subtraction.
pub open spec fn fsub_s(a: i64, b: i64) -> i64 {
    clampv(a - b) as i64
}

/// Saturating fixed-point multiplication: `a * b / ONE`, truncated toward
/// zero, then clamped.
pub open spec fn fmul_s(a: i64, b: i64) -> i64 {
    clampv(div_one((a as int) * (b as int))) as i64
}

/// Clamp a machine integer into `[-VMAX, VMAX]`.
pub fn clamp(x: i64) -> (r: i64)
    ensures
        r as int == clampv(x as int),
        in_range(r),
{
    if x > VMAX {
        VMAX
    } else if x < -VMAX {
        -VMAX
    } else {
        x
    }
}

/// Saturating fixed-point addition.
pub fn fadd(a: i64, b: i64) -> (r: i64)
    requires
        in_range(a),
        in_range(b),
    ensures
        r == fadd_s(a, b),
        in_range(r),
{
    clamp(a + b)
}

/// Saturating fixed-point subtraction.
pub fn fsub(a: i64, b: i64) -> (r: i64)
    requires
        in_range(a),
        in_range(b),
    ensures
        r == fsub_s(a, b),
        in_range(r),
{
    clamp(a - b)
}

/// Saturating fixed-point multiplication.
pub fn fmul(a: i64, b: i64) -> (r: i64)
    requires
        in_range(a),
        in_range(b),
    ensures
        r == fmul_s(a, b),
        in_range(r),
{
    let ma: u64 = if a < 0 {
        (-a) as u64
    } else {
        a as u64
    };
    let mb: u64 = if b < 0 {
        (-b) as u64
    } else {
        b as u64
    };
    proof {
        assert((ma as int) * (mb as int) <= (VMAX as int) * (VMAX as int)) by (nonlinear_arith)
            requires
                0 <= ma as int <= VMAX as int,
                0 <= mb as int <= VMAX as int,
        ;
    }
    let p: u128 = (ma as u128) * (mb as u128);
    let q: u128 = p / (ONE as u128);
    proof {
        assert(q <= p);
        assert(p <= (VMAX as int) * (VMAX as int));
    }
    let qa: u64 = q as u64;
    let mag: i64 = if qa > (VMAX as u64) {
        VMAX
    } else {
        qa as i64
    };
    let neg: bool = (a < 0) != (b < 0);
    proof {
        assert((ma as int) * (mb as int) == if (a as int) * (b as int) >= 0 {
            (a as int) * (b as int)
        } else {
            -((a as int) * (b as int))
        }) by (nonlinear_arith)
            requires
                ma as int == if a < 0 { -(a as int) } else { a as int },
                mb as int == if b < 0 { -(b as int) } else { b as int },
        ;
        assert(neg ==> (a as int) * (b as int) <= 0) by (nonlinear_arith)
            requires
                neg == ((a < 0) != (b < 0)),
        ;
        assert(!neg ==> (a as int) * (b as int) >= 0) by (nonlinear_arith)
            requires
                neg == ((a < 0) != (b < 0)),
        ;
    }
    if neg {
        -mag
    } else {
        mag
    }
}

} // verus!
