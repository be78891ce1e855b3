//! Fixed-point arithmetic on `i64` values scaled by `SCALE` ticks per unit.
//!
//! A stored value `v` denotes the real number `v / SCALE`.  Products and
//! quotients are computed exactly in `i128` and rounded toward negative
//! infinity (floor), which for a positive divisor is the Euclidean division
//! that `/` denotes in specifications.  Operations that must narrow back to
//! `i64` return `None` exactly when the mathematical result is out of range.

use vstd::arithmetic::div_mod::{
    lemma_div_is_ordered, lemma_div_multiples_vanish, lemma_div_nonincreasing,
    lemma_div_pos_is_pos, lemma_fundamental_div_mod, lemma_mod_bound,
};
use vstd::prelude::*;

verus! {

/// Ticks per unit: 2^32.
pub const SCALE: i64 = 4294967296;

/// The mathematical value fits in an `i64`.
pub open spec fn in_i64(v: int) -> bool {
    i64::MIN <= v <= i64::MAX
}

/// Floor division (round toward negative infinity) for a nonzero divisor.
/// For `b > 0` this is the Euclidean quotient `a / b`.
pub open spec fn floor_div_s(a: int, b: int) -> int
    recommends
        b != 0,
{
    if b > 0 {
        a / b
    } else {
        (-a) / (-b)
    }
}

/// Fixed-point product: floor(a * b / SCALE).
pub open spec fn fx_mul_s(a: int, b: int) -> int {
    (a * b) / (SCALE as int)
}

/// Fixed-point quotient: floor(a * SCALE / b).
pub open spec fn fx_div_s(a: int, b: int) -> int
    recommends
        b != 0,
{
    floor_div_s(a * SCALE, b)
}

/// For a positive divisor the quotient lies between the dividend and zero,
/// so dividing never leaves the `i128` range.
pub(crate) proof fn lemma_quotient_in_i128_range(a: int, b: int)
    requires
        i128::MIN <= a <= i128::MAX,
        b > 0,
    ensures
        i128::MIN <= a / b <= i128::MAX,
        a >= 0 ==> 0 <= a / b <= a,
        a < 0 ==> a <= a / b <= 0,
{
    if a >= 0 {
        lemma_div_pos_is_pos(a, b);
        lemma_div_nonincreasing(a, b);
    } else {
        let q = a / b;
        let r = a % b;
        lemma_fundamental_div_mod(a, b);
        lemma_mod_bound(a, b);
        lemma_div_is_ordered(a, 0, b);
        lemma_div_pos_is_pos(0, b);
        lemma_div_nonincreasing(0, b);
        assert(q >= a) by (nonlinear_arith)
            requires
                a < 0,
                b > 0,
                a == b * q + r,
                0 <= r < b,
        ;
    }
}

/// Bounds on a fixed-point product from bounds on its factors; the extra one
/// accounts for the floor of a negative quotient.
pub proof fn lemma_fx_mul_bound(a: int, b: int, ma: int, mb: int)
    requires
        -ma <= a <= ma,
        -mb <= b <= mb,
        0 <= ma,
        0 <= mb,
    ensures
        -((ma * mb) / (SCALE as int)) - 1 <= fx_mul_s(a, b) <= (ma * mb) / (SCALE as int),
{
    let s = SCALE as int;
    let m = ma * mb;
    assert(s == 4294967296);
    assert(-m <= a * b <= m) by (nonlinear_arith)
        requires
            -ma <= a <= ma,
            -mb <= b <= mb,
            0 <= ma,
            0 <= mb,
            m == ma * mb,
    ;
    lemma_div_is_ordered(a * b, m, s);
    lemma_fundamental_div_mod(m, s);
    lemma_mod_bound(m, s);
    let k = -(m / s) - 1;
    assert(s * k <= -m);
    lemma_div_multiples_vanish(k, s);
    lemma_div_is_ordered(s * k, a * b, s);
    assert((s * k) / s == k);
}

/// The product of two `i64`-range values stays well inside the `i128` range.
pub(crate) proof fn lemma_i64_product_in_i128(a: int, b: int)
    requires
        i64::MIN <= a <= i64::MAX,
        i64::MIN <= b <= i64::MAX,
    ensures
        -0x40000000000000000000000000000000 <= a * b <= 0x40000000000000000000000000000000,
{
    assert(-0x40000000000000000000000000000000 <= a * b <= 0x40000000000000000000000000000000)
        by (nonlinear_arith)
        requires
            -0x8000000000000000 <= a <= 0x7fffffffffffffff,
            -0x8000000000000000 <= b <= 0x7fffffffffffffff,
    ;
}

/// Floor division of an `i128` by a positive divisor.
pub(crate) fn div_floor_i128(a: i128, b: i128) -> (r: i128)
    requires
        b > 0,
    ensures
        r as int == a as int / b as int,
{
    proof {
        lemma_quotient_in_i128_range(a as int, b as int);
    }
    a.checked_div_euclid(b).unwrap()
}

/// Narrow an exact `i128` result to `i64`, reporting a value out of range.
pub(crate) fn narrow_i64(v: i128) -> (r: Option<i64>)
    ensures
        match r {
            Some(w) => in_i64(v as int) && w as int == v as int,
            None => !in_i64(v as int),
        },
{
    if i64::MIN as i128 <= v && v <= i64::MAX as i128 {
        Some(v as i64)
    } else {
        None
    }
}

/// Fixed-point product of two `i64` values; `None` exactly when the result
/// leaves the `i64` range.
pub fn fx_mul(a: i64, b: i64) -> (r: Option<i64>)
    ensures
        match r {
            Some(w) => in_i64(fx_mul_s(a as int, b as int)) && w as int == fx_mul_s(
                a as int,
                b as int,
            ),
            None => !in_i64(fx_mul_s(a as int, b as int)),
        },
{
    proof {
        lemma_i64_product_in_i128(a as int, b as int);
    }
    let p: i128 = (a as i128) * (b as i128);
    let q: i128 = div_floor_i128(p, SCALE as i128);
    narrow_i64(q)
}

/// Fixed-point quotient of two `i64` values; `None` when the divisor is zero
/// or the result leaves the `i64` range.
pub fn fx_div(a: i64, b: i64) -> (r: Option<i64>)
    ensures
        match r {
            Some(w) => b != 0 && in_i64(fx_div_s(a as int, b as int)) && w as int == fx_div_s(
                a as int,
                b as int,
            ),
            None => b == 0 || !in_i64(fx_div_s(a as int, b as int)),
        },
{
    if b == 0 {
        return None;
    }
    proof {
        lemma_i64_product_in_i128(a as int, SCALE as int);
    }
    let num: i128 = (a as i128) * (SCALE as i128);
    let q: i128 = if b > 0 {
        div_floor_i128(num, b as i128)
    } else {
        let flipped: i128 = -num;
        let divisor: i128 = -(b as i128);
        div_floor_i128(flipped, divisor)
    };
    narrow_i64(q)
}

} // verus!
