//! Angles in ticks: wraparound onto one angular branch, and a sine
//! approximation for the vector field.
//!
//! `PI_FX` is the closest tick to pi.  `wrap_angle` maps an unbounded angle
//! onto the branch `[-PI_FX, PI_FX)` with the floor-style modulo formula
//! `((x + pi) mod 2*pi) - pi`; it is exact integer arithmetic, so wrapping is
//! idempotent and invariant under shifts by whole turns (the two lemmas
//! below).  `sin_fx` reduces its argument to `[-pi/2, pi/2]` by wraparound
//! and reflection and evaluates an odd Taylor polynomial of degree eleven
//! there; the contract states the exact polynomial value.

use crate::fixed::{fx_mul, fx_mul_s, lemma_fx_mul_bound, SCALE};
use vstd::arithmetic::div_mod::{
    lemma_div_is_ordered, lemma_div_pos_is_pos, lemma_fundamental_div_mod, lemma_mod_bound,
    lemma_mod_multiples_vanish,
};
use vstd::prelude::*;

verus! {

/// pi in ticks (rounded to nearest).
pub const PI_FX: i64 = 13493037705;

/// 2*pi in ticks: exactly twice `PI_FX`, so one wrapped turn is exact.
pub const TWO_PI_FX: i64 = 26986075410;

/// An upper bound for half of `PI_FX`: the reduced argument of the sine
/// polynomial has magnitude at most this.
pub const HALF_PI_FX: i64 = 6746518853;

/// Taylor coefficients of sine in ticks: 1/6, 1/120, 1/5040, 1/362880,
/// 1/39916800.
pub const SIN_C3: i64 = 715827883;

pub const SIN_C5: i64 = 35791394;

pub const SIN_C7: i64 = 852176;

pub const SIN_C9: i64 = 11836;

pub const SIN_C11: i64 = 108;

/// The wrap formula `((x + pi) mod 2*pi) - pi` with a floor-style modulo,
/// mapping any angle onto `[-PI_FX, PI_FX)`.
pub open spec fn wrap_s(x: int) -> int {
    (x + PI_FX) % (TWO_PI_FX as int) - PI_FX
}

/// A wrapped angle lies on the branch `[-PI_FX, PI_FX)`.
pub proof fn lemma_wrap_range(x: int)
    ensures
        -PI_FX <= wrap_s(x) < PI_FX,
{
    lemma_mod_bound(x + PI_FX, TWO_PI_FX as int);
}

/// Wrapping an already-wrapped angle is a no-op.
pub proof fn lemma_wrap_idempotent(x: int)
    ensures
        wrap_s(wrap_s(x)) == wrap_s(x),
{
    lemma_wrap_range(x);
    let w = wrap_s(x);
    assert(0 <= w + PI_FX < TWO_PI_FX);
    vstd::arithmetic::div_mod::lemma_small_mod((w + PI_FX) as nat, TWO_PI_FX as nat);
}

/// Wrapping is invariant under shifting by any whole number of turns.
pub proof fn lemma_wrap_periodic(x: int, k: int)
    ensures
        wrap_s(x + k * TWO_PI_FX) == wrap_s(x),
{
    lemma_mod_multiples_vanish(k, x + PI_FX, TWO_PI_FX as int);
    assert(x + k * TWO_PI_FX + PI_FX == (TWO_PI_FX as int) * k + (x + PI_FX));
}

/// A wrapped angle differs from the unwrapped one by a whole number of turns:
/// the quotient of the wrap formula counts them.
pub proof fn lemma_wrap_decomposition(x: int)
    ensures
        wrap_s(x) == x - TWO_PI_FX * ((x + PI_FX) / (TWO_PI_FX as int)),
{
    lemma_fundamental_div_mod(x + PI_FX, TWO_PI_FX as int);
}

/// Wrap an exact intermediate value; the result is the same branch
/// representative as for the formula on unbounded integers.
pub(crate) fn wrap_i128(x: i128) -> (r: i64)
    requires
        -0x40000000000000000000000000000000 <= x <= 0x40000000000000000000000000000000,
    ensures
        r as int == wrap_s(x as int),
        -PI_FX <= r < PI_FX,
{
    proof {
        lemma_mod_bound(x as int + PI_FX as int, TWO_PI_FX as int);
    }
    let shifted: i128 = x + PI_FX as i128;
    let m: i128 = shifted.checked_rem_euclid(TWO_PI_FX as i128).unwrap();
    (m - PI_FX as i128) as i64
}

/// Map an angle onto the branch `[-PI_FX, PI_FX)`.
pub fn wrap_angle(theta: i64) -> (r: i64)
    ensures
        r as int == wrap_s(theta as int),
        -PI_FX <= r < PI_FX,
{
    wrap_i128(theta as i128)
}

/// Reduction of an angle to `[-HALF_PI_FX, HALF_PI_FX]`: wrap onto one
/// branch, then reflect the outer quarters through pi/2, where sine repeats
/// its values in reverse.
pub open spec fn sin_reduce_s(x: int) -> int {
    let w = wrap_s(x);
    if w > HALF_PI_FX {
        PI_FX - w
    } else if w < -HALF_PI_FX {
        -PI_FX - w
    } else {
        w
    }
}

/// The odd Taylor polynomial of sine of degree eleven, evaluated in ticks
/// by Horner's scheme on t = x^2.
pub open spec fn sin_poly_s(y: int) -> int {
    let t = fx_mul_s(y, y);
    let p4 = SIN_C9 - fx_mul_s(t, SIN_C11 as int);
    let p3 = SIN_C7 - fx_mul_s(t, p4);
    let p2 = SIN_C5 - fx_mul_s(t, p3);
    let p1 = SIN_C3 - fx_mul_s(t, p2);
    y - fx_mul_s(y, fx_mul_s(t, p1))
}

/// Sine of an angle in ticks: reduce, then evaluate the polynomial.
pub open spec fn sin_fx_s(x: int) -> int {
    sin_poly_s(sin_reduce_s(x))
}

/// Sine in ticks.  Total: the reduction bounds every intermediate of the
/// polynomial, so no step can leave the `i64` range.
pub fn sin_fx(x: i64) -> (r: i64)
    ensures
        r as int == sin_fx_s(x as int),
        -11000000000 <= r <= 11000000000,
{
    let w = wrap_angle(x);
    let y: i64 = if w > HALF_PI_FX {
        PI_FX - w
    } else if w < -HALF_PI_FX {
        -PI_FX - w
    } else {
        w
    };
    assert(y as int == sin_reduce_s(x as int));
    assert(-HALF_PI_FX <= y <= HALF_PI_FX);
    proof {
        assert((y as int) * (y as int) >= 0) by (nonlinear_arith);
        lemma_div_pos_is_pos((y as int) * (y as int), SCALE as int);
        lemma_fx_mul_bound(y as int, y as int, HALF_PI_FX as int, HALF_PI_FX as int);
    }
    let t = fx_mul(y, y).unwrap();
    assert(0 <= t <= 10600000000);
    proof {
        lemma_fx_mul_bound(t as int, SIN_C11 as int, 10600000000, 108);
    }
    let u4 = fx_mul(t, SIN_C11).unwrap();
    let p4 = SIN_C9 - u4;
    assert(-12103 <= p4 <= 12103);
    proof {
        lemma_fx_mul_bound(t as int, p4 as int, 10600000000, 12103);
    }
    let u3 = fx_mul(t, p4).unwrap();
    let p3 = SIN_C7 - u3;
    assert(-882046 <= p3 <= 882046);
    proof {
        lemma_fx_mul_bound(t as int, p3 as int, 10600000000, 882046);
    }
    let u2 = fx_mul(t, p3).unwrap();
    let p2 = SIN_C5 - u2;
    assert(-37968170 <= p2 <= 37968170);
    proof {
        lemma_fx_mul_bound(t as int, p2 as int, 10600000000, 37968170);
    }
    let u1 = fx_mul(t, p2).unwrap();
    let p1 = SIN_C3 - u1;
    assert(-809524360 <= p1 <= 809524360);
    proof {
        lemma_fx_mul_bound(t as int, p1 as int, 10600000000, 809524360);
    }
    let v = fx_mul(t, p1).unwrap();
    proof {
        lemma_fx_mul_bound(y as int, v as int, HALF_PI_FX as int, 1997910026);
    }
    let w2 = fx_mul(y, v).unwrap();
    let r = y - w2;
    assert(r as int == sin_fx_s(x as int));
    r
}

} // verus!
