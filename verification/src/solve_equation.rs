//! The core of the simulation: the vector field of the driven, damped
//! pendulum, the classical fourth-order Runge-Kutta step, the trajectory
//! generator, and the Poincare sampler.
//!
//! Every quantity is a fixed-point tick count (`fixed::SCALE` per unit).
//! The specification functions below give each step its exact integer
//! meaning; executable code computes intermediates in `i128`, narrows back
//! to `i64`, and reports `Overflow` exactly when a narrowed value would not
//! fit.  Configuration values under which the computation has no meaning (a
//! non-positive time step, a non-positive drive frequency, a negative total
//! time) are rejected up front with a descriptive error.

use crate::fixed::{
    div_floor_i128, fx_div, fx_div_s, fx_mul_s, in_i64, lemma_fx_mul_bound,
    lemma_i64_product_in_i128, lemma_quotient_in_i128_range, narrow_i64, SCALE,
};
use crate::model::PendulumParams;
use crate::trig::{
    lemma_wrap_decomposition, lemma_wrap_idempotent, lemma_wrap_periodic, sin_fx, sin_fx_s,
    wrap_angle, wrap_i128, wrap_s, PI_FX, TWO_PI_FX,
};
use vstd::arithmetic::div_mod::{
    lemma_div_is_ordered, lemma_div_multiples_vanish, lemma_div_non_zero,
    lemma_div_nonincreasing, lemma_div_pos_is_pos,
};
use vstd::arithmetic::mul::{
    lemma_mul_inequality, lemma_mul_is_distributive_add_other_way, lemma_mul_strict_inequality,
};
use vstd::prelude::*;

verus! {

/// Phase-space state: angle (radians, unbounded during integration) and
/// angular velocity, both in ticks.
#[derive(Clone, Copy, Debug, PartialEq, Eq, Structural)]
pub struct State {
    pub theta: i64,
    pub omega: i64,
}

/// Everything that can go wrong in a run.
#[derive(Clone, Copy, Debug, PartialEq, Eq, Structural)]
pub enum PendulumError {
    /// The time step was not strictly positive.
    InvalidTimeStep,
    /// The total time was negative.
    InvalidTotalTime,
    /// The drive angular frequency was not strictly positive.
    InvalidDriveFrequency,
    /// An intermediate value left the representable range.
    Overflow,
}

/// The ratio g / l in ticks.
pub open spec fn gl_s(p: PendulumParams) -> int
    recommends
        p.l != 0,
{
    fx_div_s(p.g as int, p.l as int)
}

/// Angular acceleration of the pendulum:
/// `-(g/l)*sin(theta) - q*omega + f_d*sin(omega_d * t)`, each operation the
/// exact fixed-point one.
pub open spec fn rhs_omega_s(p: PendulumParams, theta: int, omega: int, t: int) -> int
    recommends
        p.l != 0,
{
    -fx_mul_s(gl_s(p), sin_fx_s(theta)) - fx_mul_s(p.q as int, omega) + fx_mul_s(
        p.f_d as int,
        sin_fx_s(fx_mul_s(p.omega_d as int, t)),
    )
}

/// The vector field value stays representable: the length is nonzero, g / l
/// fits, and the angular acceleration fits.
pub open spec fn rhs_fits(p: PendulumParams, theta: int, omega: int, t: int) -> bool {
    &&& p.l != 0
    &&& in_i64(gl_s(p))
    &&& in_i64(rhs_omega_s(p, theta, omega, t))
}

/// The vector field: time derivative `(dtheta/dt, domega/dt)` of the state,
/// `None` exactly when a value leaves the representable range.
pub fn rhs(theta: i64, omega: i64, t: i64, params: &PendulumParams) -> (r: Option<(i64, i64)>)
    ensures
        match r {
            Some(d) => {
                &&& rhs_fits(*params, theta as int, omega as int, t as int)
                &&& d.0 == omega
                &&& d.1 as int == rhs_omega_s(*params, theta as int, omega as int, t as int)
            },
            None => !rhs_fits(*params, theta as int, omega as int, t as int),
        },
{
    let gl = match fx_div(params.g, params.l) {
        Some(v) => v,
        None => {
            return None;
        },
    };
    let s_theta = sin_fx(theta);
    proof {
        lemma_i64_product_in_i128(gl as int, s_theta as int);
        lemma_i64_product_in_i128(params.q as int, omega as int);
        lemma_i64_product_in_i128(params.omega_d as int, t as int);
    }
    let term_g: i128 = div_floor_i128((gl as i128) * (s_theta as i128), SCALE as i128);
    let term_q: i128 = div_floor_i128((params.q as i128) * (omega as i128), SCALE as i128);
    let phase: i128 = div_floor_i128((params.omega_d as i128) * (t as i128), SCALE as i128);
    proof {
        lemma_quotient_in_i128_range(
            (params.omega_d as int) * (t as int),
            SCALE as int,
        );
    }
    let phase_wrapped: i64 = wrap_i128(phase);
    let s_drive = sin_fx(phase_wrapped);
    proof {
        lemma_wrap_idempotent(fx_mul_s(params.omega_d as int, t as int));
        lemma_i64_product_in_i128(params.f_d as int, s_drive as int);
        lemma_fx_mul_bound(gl as int, s_theta as int, 0x8000000000000000, 0x8000000000000000);
        lemma_fx_mul_bound(
            params.q as int,
            omega as int,
            0x8000000000000000,
            0x8000000000000000,
        );
        lemma_fx_mul_bound(
            params.f_d as int,
            s_drive as int,
            0x8000000000000000,
            0x8000000000000000,
        );
    }
    let term_d: i128 = div_floor_i128((params.f_d as i128) * (s_drive as i128), SCALE as i128);
    let d_omega: i128 = -term_g - term_q + term_d;
    match narrow_i64(d_omega) {
        Some(v) => Some((omega, v)),
        None => None,
    }
}

/// With zero damping and zero drive the vector field is autonomous and
/// conservative in form: the angular acceleration is -(g/l)*sin(theta)
/// alone, the same at every time and every angular velocity.
pub proof fn lemma_undriven_field_autonomous(
    p: PendulumParams,
    theta: int,
    om1: int,
    om2: int,
    t1: int,
    t2: int,
)
    requires
        p.q == 0,
        p.f_d == 0,
    ensures
        rhs_omega_s(p, theta, om1, t1) == -fx_mul_s(gl_s(p), sin_fx_s(theta)),
        rhs_omega_s(p, theta, om1, t1) == rhs_omega_s(p, theta, om2, t2),
{
    lemma_div_pos_is_pos(0, SCALE as int);
    lemma_div_nonincreasing(0, SCALE as int);
    assert(fx_mul_s(0, om1) == 0);
    assert(fx_mul_s(0, om2) == 0);
    assert(fx_mul_s(0, sin_fx_s(fx_mul_s(p.omega_d as int, t1))) == 0);
    assert(fx_mul_s(0, sin_fx_s(fx_mul_s(p.omega_d as int, t2))) == 0);
}

/// Half of the time step, rounded toward negative infinity.
pub open spec fn half_dt_s(p: PendulumParams) -> int {
    (p.dt as int) / 2
}

/// First derivative evaluation: at the state itself.
pub open spec fn k1_s(p: PendulumParams, th: int, om: int, t: int) -> (int, int) {
    (om, rhs_omega_s(p, th, om, t))
}

/// Half-step extrapolation along the first derivative.
pub open spec fn mid1_s(p: PendulumParams, th: int, om: int, t: int) -> (int, int) {
    let k = k1_s(p, th, om, t);
    (th + fx_mul_s(half_dt_s(p), k.0), om + fx_mul_s(half_dt_s(p), k.1))
}

/// Second derivative evaluation: at the first midpoint.
pub open spec fn k2_s(p: PendulumParams, th: int, om: int, t: int) -> (int, int) {
    let m = mid1_s(p, th, om, t);
    (m.1, rhs_omega_s(p, m.0, m.1, t + half_dt_s(p)))
}

/// Half-step extrapolation along the second derivative.
pub open spec fn mid2_s(p: PendulumParams, th: int, om: int, t: int) -> (int, int) {
    let k = k2_s(p, th, om, t);
    (th + fx_mul_s(half_dt_s(p), k.0), om + fx_mul_s(half_dt_s(p), k.1))
}

/// Third derivative evaluation: at the second midpoint.
pub open spec fn k3_s(p: PendulumParams, th: int, om: int, t: int) -> (int, int) {
    let m = mid2_s(p, th, om, t);
    (m.1, rhs_omega_s(p, m.0, m.1, t + half_dt_s(p)))
}

/// Full-step extrapolation along the third derivative.
pub open spec fn end_s(p: PendulumParams, th: int, om: int, t: int) -> (int, int) {
    let k = k3_s(p, th, om, t);
    (th + fx_mul_s(p.dt as int, k.0), om + fx_mul_s(p.dt as int, k.1))
}

/// Fourth derivative evaluation: at the full-step point.
pub open spec fn k4_s(p: PendulumParams, th: int, om: int, t: int) -> (int, int) {
    let e = end_s(p, th, om, t);
    (e.1, rhs_omega_s(p, e.0, e.1, t + p.dt))
}

/// Weighted sum of the four angle derivatives: k1 + 2*k2 + 2*k3 + k4.
pub open spec fn ksum_theta_s(p: PendulumParams, th: int, om: int, t: int) -> int {
    k1_s(p, th, om, t).0 + 2 * k2_s(p, th, om, t).0 + 2 * k3_s(p, th, om, t).0 + k4_s(
        p,
        th,
        om,
        t,
    ).0
}

/// Weighted sum of the four velocity derivatives.
pub open spec fn ksum_omega_s(p: PendulumParams, th: int, om: int, t: int) -> int {
    k1_s(p, th, om, t).1 + 2 * k2_s(p, th, om, t).1 + 2 * k3_s(p, th, om, t).1 + k4_s(
        p,
        th,
        om,
        t,
    ).1
}

/// The next angle: theta + dt/6 * (weighted sum), evaluated as one exact
/// floor division by 6 * SCALE.
#[verifier::opaque]
pub open spec fn rk4_theta_s(p: PendulumParams, th: int, om: int, t: int) -> int {
    th + (p.dt as int * ksum_theta_s(p, th, om, t)) / (6 * (SCALE as int))
}

/// The next angular velocity.
#[verifier::opaque]
pub open spec fn rk4_omega_s(p: PendulumParams, th: int, om: int, t: int) -> int {
    om + (p.dt as int * ksum_omega_s(p, th, om, t)) / (6 * (SCALE as int))
}

/// Every narrowed intermediate of one Runge-Kutta step fits in `i64`.
#[verifier::opaque]
pub open spec fn rk4_fits(p: PendulumParams, th: int, om: int, t: int) -> bool {
    let hd = half_dt_s(p);
    let m1 = mid1_s(p, th, om, t);
    let m2 = mid2_s(p, th, om, t);
    let e = end_s(p, th, om, t);
    &&& in_i64(t + p.dt)
    &&& rhs_fits(p, th, om, t)
    &&& in_i64(m1.0)
    &&& in_i64(m1.1)
    &&& rhs_fits(p, m1.0, m1.1, t + hd)
    &&& in_i64(m2.0)
    &&& in_i64(m2.1)
    &&& rhs_fits(p, m2.0, m2.1, t + hd)
    &&& in_i64(e.0)
    &&& in_i64(e.1)
    &&& rhs_fits(p, e.0, e.1, t + p.dt)
    &&& in_i64(ksum_theta_s(p, th, om, t))
    &&& in_i64(ksum_omega_s(p, th, om, t))
    &&& in_i64(rk4_theta_s(p, th, om, t))
    &&& in_i64(rk4_omega_s(p, th, om, t))
}

/// One classical fourth-order Runge-Kutta step: the next state and the next
/// time `t + dt`; `None` exactly when an intermediate leaves the
/// representable range.
pub fn rk4_step(state: &State, t: i64, params: &PendulumParams) -> (r: Option<(State, i64)>)
    ensures
        match r {
            Some(next) => {
                &&& rk4_fits(*params, state.theta as int, state.omega as int, t as int)
                &&& next.0.theta as int == rk4_theta_s(
                    *params,
                    state.theta as int,
                    state.omega as int,
                    t as int,
                )
                &&& next.0.omega as int == rk4_omega_s(
                    *params,
                    state.theta as int,
                    state.omega as int,
                    t as int,
                )
                &&& next.1 as int == t + params.dt
            },
            None => !rk4_fits(*params, state.theta as int, state.omega as int, t as int),
        },
{
    let ghost th = state.theta as int;
    let ghost om = state.omega as int;
    let ghost tt = t as int;
    proof {
        reveal(rk4_fits);
        reveal(rk4_theta_s);
        reveal(rk4_omega_s);
        lemma_quotient_in_i128_range(params.dt as int, 2);
    }
    let hd = narrow_i64(div_floor_i128(params.dt as i128, 2)).unwrap();
    assert(hd as int == half_dt_s(*params));
    let t_next = match narrow_i64(t as i128 + params.dt as i128) {
        Some(v) => v,
        None => {
            return None;
        },
    };
    let tm = narrow_i64(t as i128 + hd as i128).unwrap();
    let k1 = match rhs(state.theta, state.omega, t, params) {
        Some(k) => k,
        None => {
            return None;
        },
    };
    proof {
        lemma_i64_product_in_i128(hd as int, k1.0 as int);
        lemma_i64_product_in_i128(hd as int, k1.1 as int);
        lemma_quotient_in_i128_range((hd as int) * (k1.0 as int), SCALE as int);
        lemma_quotient_in_i128_range((hd as int) * (k1.1 as int), SCALE as int);
    }
    let m1th = match narrow_i64(
        state.theta as i128 + div_floor_i128((hd as i128) * (k1.0 as i128), SCALE as i128),
    ) {
        Some(v) => v,
        None => {
            return None;
        },
    };
    let m1om = match narrow_i64(
        state.omega as i128 + div_floor_i128((hd as i128) * (k1.1 as i128), SCALE as i128),
    ) {
        Some(v) => v,
        None => {
            return None;
        },
    };
    assert(m1th as int == mid1_s(*params, th, om, tt).0);
    assert(m1om as int == mid1_s(*params, th, om, tt).1);
    let k2 = match rhs(m1th, m1om, tm, params) {
        Some(k) => k,
        None => {
            return None;
        },
    };
    assert(k2.0 as int == k2_s(*params, th, om, tt).0);
    assert(k2.1 as int == k2_s(*params, th, om, tt).1);
    proof {
        lemma_i64_product_in_i128(hd as int, k2.0 as int);
        lemma_i64_product_in_i128(hd as int, k2.1 as int);
        lemma_quotient_in_i128_range((hd as int) * (k2.0 as int), SCALE as int);
        lemma_quotient_in_i128_range((hd as int) * (k2.1 as int), SCALE as int);
    }
    let m2th = match narrow_i64(
        state.theta as i128 + div_floor_i128((hd as i128) * (k2.0 as i128), SCALE as i128),
    ) {
        Some(v) => v,
        None => {
            return None;
        },
    };
    let m2om = match narrow_i64(
        state.omega as i128 + div_floor_i128((hd as i128) * (k2.1 as i128), SCALE as i128),
    ) {
        Some(v) => v,
        None => {
            return None;
        },
    };
    assert(m2th as int == mid2_s(*params, th, om, tt).0);
    assert(m2om as int == mid2_s(*params, th, om, tt).1);
    let k3 = match rhs(m2th, m2om, tm, params) {
        Some(k) => k,
        None => {
            return None;
        },
    };
    assert(k3.0 as int == k3_s(*params, th, om, tt).0);
    assert(k3.1 as int == k3_s(*params, th, om, tt).1);
    proof {
        lemma_i64_product_in_i128(params.dt as int, k3.0 as int);
        lemma_i64_product_in_i128(params.dt as int, k3.1 as int);
        lemma_quotient_in_i128_range((params.dt as int) * (k3.0 as int), SCALE as int);
        lemma_quotient_in_i128_range((params.dt as int) * (k3.1 as int), SCALE as int);
    }
    let eth = match narrow_i64(
        state.theta as i128 + div_floor_i128((params.dt as i128) * (k3.0 as i128), SCALE as i128),
    ) {
        Some(v) => v,
        None => {
            return None;
        },
    };
    let eom = match narrow_i64(
        state.omega as i128 + div_floor_i128((params.dt as i128) * (k3.1 as i128), SCALE as i128),
    ) {
        Some(v) => v,
        None => {
            return None;
        },
    };
    assert(eth as int == end_s(*params, th, om, tt).0);
    assert(eom as int == end_s(*params, th, om, tt).1);
    let k4 = match rhs(eth, eom, t_next, params) {
        Some(k) => k,
        None => {
            return None;
        },
    };
    assert(k4.0 as int == k4_s(*params, th, om, tt).0);
    assert(k4.1 as int == k4_s(*params, th, om, tt).1);
    let kst = match narrow_i64(
        k1.0 as i128 + 2 * (k2.0 as i128) + 2 * (k3.0 as i128) + k4.0 as i128,
    ) {
        Some(v) => v,
        None => {
            return None;
        },
    };
    let kso = match narrow_i64(
        k1.1 as i128 + 2 * (k2.1 as i128) + 2 * (k3.1 as i128) + k4.1 as i128,
    ) {
        Some(v) => v,
        None => {
            return None;
        },
    };
    proof {
        lemma_i64_product_in_i128(params.dt as int, kst as int);
        lemma_i64_product_in_i128(params.dt as int, kso as int);
        lemma_quotient_in_i128_range((params.dt as int) * (kst as int), 6 * (SCALE as int));
        lemma_quotient_in_i128_range((params.dt as int) * (kso as int), 6 * (SCALE as int));
    }
    let n_th = match narrow_i64(
        state.theta as i128 + div_floor_i128(
            (params.dt as i128) * (kst as i128),
            6 * (SCALE as i128),
        ),
    ) {
        Some(v) => v,
        None => {
            return None;
        },
    };
    let n_om = match narrow_i64(
        state.omega as i128 + div_floor_i128(
            (params.dt as i128) * (kso as i128),
            6 * (SCALE as i128),
        ),
    ) {
        Some(v) => v,
        None => {
            return None;
        },
    };
    Some((State { theta: n_th, omega: n_om }, t_next))
}

/// Number of integration steps: floor(t_end / dt), fixed before the loop so
/// that the trajectory length never depends on accumulation error.
pub open spec fn num_steps_s(p: PendulumParams) -> int
    recommends
        p.dt > 0,
{
    (p.t_end as int) / (p.dt as int)
}

/// The state after `k` steps, or `None` if some step up to `k` leaves the
/// representable range.
pub open spec fn state_at_s(p: PendulumParams, th0: int, om0: int, k: nat) -> Option<(int, int)>
    decreases k,
{
    if k == 0 {
        Some((th0, om0))
    } else {
        match state_at_s(p, th0, om0, (k - 1) as nat) {
            None => None,
            Some(s) => {
                let t = (k - 1) * p.dt;
                if rk4_fits(p, s.0, s.1, t) {
                    Some((rk4_theta_s(p, s.0, s.1, t), rk4_omega_s(p, s.0, s.1, t)))
                } else {
                    None
                }
            },
        }
    }
}

/// Once a step has left the representable range, every later state is gone
/// as well.
proof fn lemma_state_none_propagates(p: PendulumParams, th0: int, om0: int, k1: nat, k2: nat)
    requires
        k1 <= k2,
        state_at_s(p, th0, om0, k1) is None,
    ensures
        state_at_s(p, th0, om0, k2) is None,
    decreases k2 - k1,
{
    if k2 > k1 {
        lemma_state_none_propagates(p, th0, om0, k1, (k2 - 1) as nat);
    }
}

/// The run succeeds: the configuration is valid and every step stays
/// representable.
pub open spec fn solve_ok_s(p: PendulumParams, th0: int, om0: int) -> bool {
    &&& p.dt > 0
    &&& p.t_end >= 0
    &&& state_at_s(p, th0, om0, num_steps_s(p) as nat) is Some
}

/// The full trajectory of a successful run: entry `k` holds time `k * dt`
/// (exact in ticks) and the state after `k` steps.
pub open spec fn trajectory_s(p: PendulumParams, th0: int, om0: int) -> Seq<(i64, State)>
    recommends
        solve_ok_s(p, th0, om0),
{
    Seq::new(
        (num_steps_s(p) + 1) as nat,
        |k: int|
            (
                (k * p.dt) as i64,
                State {
                    theta: (state_at_s(p, th0, om0, k as nat)->0).0 as i64,
                    omega: (state_at_s(p, th0, om0, k as nat)->0).1 as i64,
                },
            ),
    )
}

/// Entry `j` of a trajectory is correct: it holds time `j * dt` and the
/// state after `j` steps.
pub open spec fn traj_entry_ok(
    p: PendulumParams,
    th0: int,
    om0: int,
    e: (i64, State),
    j: int,
) -> bool {
    &&& state_at_s(p, th0, om0, j as nat) is Some
    &&& e.0 as int == j * p.dt
    &&& e.1.theta as int == (state_at_s(p, th0, om0, j as nat)->0).0
    &&& e.1.omega as int == (state_at_s(p, th0, om0, j as nat)->0).1
}

/// Integrate from the initial state for floor(t_end / dt) steps, collecting
/// `(time, state)` pairs with times accumulated by repeated addition of
/// `dt` (exact in ticks: entry `k` is at `k * dt`).
#[verifier::rlimit(100)]
pub fn solve(params: &PendulumParams, initial_theta: i64, initial_omega: i64) -> (r: Result<
    Vec<(i64, State)>,
    PendulumError,
>)
    ensures
        r is Ok <==> solve_ok_s(*params, initial_theta as int, initial_omega as int),
        match r {
            Ok(traj) => {
                &&& traj@.len() == num_steps_s(*params) + 1
                &&& traj@ == trajectory_s(*params, initial_theta as int, initial_omega as int)
            },
            Err(e) => {
                &&& (e == PendulumError::InvalidTimeStep <==> params.dt <= 0)
                &&& (e == PendulumError::InvalidTotalTime <==> params.dt > 0 && params.t_end < 0)
                &&& (e == PendulumError::Overflow <==> params.dt > 0 && params.t_end >= 0
                    && state_at_s(
                    *params,
                    initial_theta as int,
                    initial_omega as int,
                    num_steps_s(*params) as nat,
                ) is None)
            },
        },
{
    let ghost th0 = initial_theta as int;
    let ghost om0 = initial_omega as int;
    if params.dt <= 0 {
        return Err(PendulumError::InvalidTimeStep);
    }
    if params.t_end < 0 {
        return Err(PendulumError::InvalidTotalTime);
    }
    proof {
        lemma_div_pos_is_pos(params.t_end as int, params.dt as int);
        lemma_div_nonincreasing(params.t_end as int, params.dt as int);
    }
    let steps: i64 = params.t_end.checked_div_euclid(params.dt).unwrap();
    let mut traj: Vec<(i64, State)> = Vec::new();
    let mut state = State { theta: initial_theta, omega: initial_omega };
    let mut t: i64 = 0;
    traj.push((t, state));
    let mut k: i64 = 0;
    while k < steps
        invariant
            th0 == initial_theta as int,
            om0 == initial_omega as int,
            params.dt > 0,
            params.t_end >= 0,
            steps == num_steps_s(*params),
            0 <= k <= steps,
            t as int == k * params.dt,
            state_at_s(*params, th0, om0, k as nat) == Some(
                (state.theta as int, state.omega as int),
            ),
            traj@.len() == k + 1,
            forall|j: int|
                0 <= j <= k ==> traj_entry_ok(*params, th0, om0, #[trigger] traj@[j], j),
        decreases steps - k,
    {
        match rk4_step(&state, t, params) {
            None => {
                proof {
                    assert(state_at_s(*params, th0, om0, (k + 1) as nat) is None);
                    lemma_state_none_propagates(*params, th0, om0, (k + 1) as nat, steps as nat);
                    assert(state_at_s(*params, th0, om0, steps as nat) is None);
                }
                return Err(PendulumError::Overflow);
            },
            Some(next) => {
                let ghost old_traj = traj@;
                let ghost old_k = k as int;
                proof {
                    lemma_mul_is_distributive_add_other_way(params.dt as int, k as int, 1);
                    assert(state_at_s(*params, th0, om0, (k + 1) as nat) == Some(
                        (
                            rk4_theta_s(*params, state.theta as int, state.omega as int, t as int),
                            rk4_omega_s(*params, state.theta as int, state.omega as int, t as int),
                        ),
                    ));
                }
                state = next.0;
                t = next.1;
                traj.push((t, state));
                k = k + 1;
                proof {
                    assert forall|j: int|
                        0 <= j <= k implies traj_entry_ok(
                        *params,
                        th0,
                        om0,
                        #[trigger] traj@[j],
                        j,
                    ) by {
                        if j <= old_k {
                            assert(traj@[j] == old_traj[j]);
                            assert(traj_entry_ok(*params, th0, om0, old_traj[j], j));
                        } else {
                            assert(traj@[j] == (t, state));
                        }
                    }
                }
            },
        }
    }
    proof {
        let tr = trajectory_s(*params, th0, om0);
        assert forall|j: int| 0 <= j < traj@.len() implies traj@[j] == tr[j] by {
            assert(traj_entry_ok(*params, th0, om0, traj@[j], j));
        }
        assert(traj@ =~= tr);
    }
    Ok(traj)
}

/// Drive period in ticks: floor(2*pi / omega_d), computed from the exact
/// tick value of 2*pi.
pub open spec fn period_s(omega_d: int) -> int
    recommends
        omega_d != 0,
{
    fx_div_s(TWO_PI_FX as int, omega_d)
}

/// The first index at or after `i` whose time is at least `target`, or the
/// length when no entry reaches it.
pub open spec fn find_idx_s(traj: Seq<(i64, State)>, target: int, i: int) -> int
    recommends
        0 <= i <= traj.len(),
    decreases traj.len() - i,
{
    if i < 0 || i >= traj.len() {
        traj.len() as int
    } else if traj[i].0 as int >= target {
        i
    } else {
        find_idx_s(traj, target, i + 1)
    }
}

/// What the search returns: the first matching index, with everything
/// before it strictly earlier than `target`.
pub proof fn lemma_find_idx_props(traj: Seq<(i64, State)>, target: int, i: int)
    requires
        0 <= i <= traj.len(),
    ensures
        i <= find_idx_s(traj, target, i) <= traj.len(),
        find_idx_s(traj, target, i) < traj.len() ==> traj[find_idx_s(traj, target, i)].0 as int
            >= target,
        forall|j: int|
            i <= j < find_idx_s(traj, target, i) ==> ((#[trigger] traj[j]).0 as int) < target,
    decreases traj.len() - i,
{
    if i < traj.len() && (traj[i].0 as int) < target {
        lemma_find_idx_props(traj, target, i + 1);
    }
}

/// One stroboscopic sample at time `target`, if the trajectory reaches it.
/// The first entry at or after `target` is located; at index zero the state
/// is emitted directly; with a degenerate time gap the later state is
/// emitted; otherwise both components are interpolated linearly, the angle
/// through the wrapped difference, and the angle is wrapped once more
/// before it is emitted.
pub open spec fn sample_at_s(traj: Seq<(i64, State)>, target: int) -> Option<(int, int)> {
    let i = find_idx_s(traj, target, 0);
    if i >= traj.len() {
        None
    } else if i == 0 {
        Some((wrap_s(traj[0].1.theta as int), traj[0].1.omega as int))
    } else {
        let t1 = traj[i - 1].0 as int;
        let t2 = traj[i].0 as int;
        let s1 = traj[i - 1].1;
        let s2 = traj[i].1;
        if t2 - t1 <= 0 {
            Some((wrap_s(s2.theta as int), s2.omega as int))
        } else {
            let alpha = ((target - t1) * (SCALE as int)) / (t2 - t1);
            let dth = wrap_s(s2.theta - s1.theta);
            Some(
                (
                    wrap_s(s1.theta + fx_mul_s(alpha, dth)),
                    s1.omega + fx_mul_s(alpha, s2.omega - s1.omega),
                ),
            )
        }
    }
}

/// Entry `j` of a sample list is correct: the sample at target time
/// `(transient + 1 + j) * period` exists and equals it.
pub open spec fn sample_entry_ok(
    traj: Seq<(i64, State)>,
    per: int,
    transient: int,
    e: (i64, i64),
    j: int,
) -> bool {
    let s = sample_at_s(traj, (transient + 1 + j) * per);
    &&& s is Some
    &&& e.0 as int == (s->0).0
    &&& e.1 as int == (s->0).1
}

/// Sample the Poincare section from an existing trajectory: up to
/// `sample_periods` samples, one per drive period, at target times
/// `n * period` for `n = transient_periods + 1, ...`.  A trajectory too
/// short for the next target is not an error: sampling stops and the
/// samples collected so far are returned.
#[verifier::rlimit(100)]
pub fn sample_poincare_from_trajectory(
    traj: &Vec<(i64, State)>,
    params: &PendulumParams,
    transient_periods: usize,
    sample_periods: usize,
) -> (r: Result<Vec<(i64, i64)>, PendulumError>)
    ensures
        r is Err <==> params.omega_d <= 0,
        match r {
            Ok(samples) => {
                &&& samples@.len() <= sample_periods
                &&& forall|j: int|
                    0 <= j < samples@.len() ==> sample_entry_ok(
                        traj@,
                        period_s(params.omega_d as int),
                        transient_periods as int,
                        #[trigger] samples@[j],
                        j,
                    )
                &&& samples@.len() < sample_periods ==> sample_at_s(
                    traj@,
                    (transient_periods + 1 + samples@.len()) * period_s(params.omega_d as int),
                ) is None
            },
            Err(e) => e == PendulumError::InvalidDriveFrequency,
        },
{
    if params.omega_d <= 0 {
        return Err(PendulumError::InvalidDriveFrequency);
    }
    let ghost per = period_s(params.omega_d as int);
    proof {
        vstd::arithmetic::div_mod::lemma_div_non_zero(
            (TWO_PI_FX as int) * (SCALE as int),
            params.omega_d as int,
        );
    }
    let period: i64 = match fx_div(TWO_PI_FX, params.omega_d) {
        Some(v) => v,
        None => {
            // The period does not fit: every target time is beyond the last
            // trajectory entry, so there is nothing to sample.
            proof {
                if sample_periods > 0 {
                    let target0 = (transient_periods + 1) * per;
                    lemma_mul_inequality(1, transient_periods as int + 1, per);
                    lemma_find_idx_props(traj@, target0, 0);
                }
            }
            return Ok(Vec::new());
        },
    };
    let mut out: Vec<(i64, i64)> = Vec::new();
    let mut j: usize = 0;
    let mut stopped: bool = false;
    while j < sample_periods && !stopped
        invariant
            params.omega_d > 0,
            per == period_s(params.omega_d as int),
            period as int == per,
            period >= 1,
            j == out@.len(),
            out@.len() <= sample_periods,
            forall|jj: int|
                0 <= jj < out@.len() ==> sample_entry_ok(
                    traj@,
                    per,
                    transient_periods as int,
                    #[trigger] out@[jj],
                    jj,
                ),
            stopped ==> sample_at_s(
                traj@,
                (transient_periods + 1 + out@.len()) * per,
            ) is None,
        decreases sample_periods - j, if stopped { 0int } else { 1int },
    {
        let ghost target = (transient_periods as int + 1 + j as int) * per;
        let n_u: u128 = transient_periods as u128 + 1 + j as u128;
        if n_u > i64::MAX as u128 {
            proof {
                lemma_mul_inequality(1, per, n_u as int);
                assert(target >= n_u as int);
                lemma_find_idx_props(traj@, target, 0);
                assert(find_idx_s(traj@, target, 0) == traj@.len());
            }
            stopped = true;
            continue;
        }
        proof {
            assert((n_u as int) * (per as int) <= 0x40000000000000000000000000000000)
                by (nonlinear_arith)
                requires
                    0 <= n_u as int <= 0x7fffffffffffffff,
                    0 <= per <= 0x7fffffffffffffff,
            ;
        }
        let prod: u128 = n_u * (period as u128);
        if prod > i64::MAX as u128 {
            proof {
                assert(target > i64::MAX);
                lemma_find_idx_props(traj@, target, 0);
                assert(find_idx_s(traj@, target, 0) == traj@.len());
            }
            stopped = true;
            continue;
        }
        let target_t: i64 = prod as i64;
        assert(target_t as int == target);
        let mut i: usize = 0;
        while i < traj.len() && traj[i].0 < target_t
            invariant
                0 <= i <= traj@.len(),
                target_t as int == target,
                forall|m: int| 0 <= m < i ==> ((#[trigger] traj@[m]).0 as int) < target,
            decreases traj@.len() - i,
        {
            i = i + 1;
        }
        proof {
            lemma_find_idx_props(traj@, target, 0);
            let f = find_idx_s(traj@, target, 0);
            if i < f {
                assert((traj@[i as int].0 as int) < target);
                assert(false);
            }
            if f < i {
                assert((traj@[f].0 as int) < target);
                assert(false);
            }
        }
        if i >= traj.len() {
            stopped = true;
            continue;
        }
        let ghost old_out = out@;
        if i == 0 {
            let s0 = traj[0].1;
            let thw = wrap_angle(s0.theta);
            out.push((thw, s0.omega));
        } else {
            let pair1 = traj[i - 1];
            let pair2 = traj[i];
            let s1 = pair1.1;
            let s2 = pair2.1;
            let gap: i128 = pair2.0 as i128 - pair1.0 as i128;
            if gap <= 0 {
                let thw = wrap_angle(s2.theta);
                out.push((thw, s2.omega));
            } else {
                proof {
                    lemma_mul_inequality(target - pair1.0 as int, gap as int, SCALE as int);
                    lemma_div_is_ordered(
                        (target - pair1.0 as int) * (SCALE as int),
                        (gap as int) * (SCALE as int),
                        gap as int,
                    );
                    lemma_div_multiples_vanish(SCALE as int, gap as int);
                    lemma_div_pos_is_pos((target - pair1.0 as int) * (SCALE as int), gap as int);
                }
                let alpha = narrow_i64(
                    div_floor_i128((target_t as i128 - pair1.0 as i128) * (SCALE as i128), gap),
                ).unwrap();
                assert(0 <= alpha <= SCALE);
                let dthw = wrap_i128(s2.theta as i128 - s1.theta as i128);
                proof {
                    lemma_fx_mul_bound(alpha as int, dthw as int, SCALE as int, PI_FX as int);
                    lemma_i64_product_in_i128(alpha as int, dthw as int);
                }
                let mth = div_floor_i128((alpha as i128) * (dthw as i128), SCALE as i128);
                let thw = wrap_i128(s1.theta as i128 + mth);
                let dom: i128 = s2.omega as i128 - s1.omega as i128;
                proof {
                    let a = alpha as int;
                    let d = dom as int;
                    if d >= 0 {
                        assert(0 <= a * d <= (SCALE as int) * d) by (nonlinear_arith)
                            requires
                                0 <= a <= SCALE as int,
                                d >= 0,
                        ;
                        lemma_div_pos_is_pos(a * d, SCALE as int);
                        lemma_div_is_ordered(a * d, (SCALE as int) * d, SCALE as int);
                        lemma_div_multiples_vanish(d, SCALE as int);
                    } else {
                        assert((SCALE as int) * d <= a * d <= 0) by (nonlinear_arith)
                            requires
                                0 <= a <= SCALE as int,
                                d < 0,
                        ;
                        lemma_div_is_ordered((SCALE as int) * d, a * d, SCALE as int);
                        lemma_div_multiples_vanish(d, SCALE as int);
                        lemma_div_is_ordered(a * d, 0, SCALE as int);
                    }
                }
                let mo = div_floor_i128((alpha as i128) * dom, SCALE as i128);
                let omv = narrow_i64(s1.omega as i128 + mo).unwrap();
                out.push((thw, omv));
            }
        }
        j = j + 1;
        proof {
            assert forall|jj: int|
                0 <= jj < out@.len() implies sample_entry_ok(
                traj@,
                per,
                transient_periods as int,
                #[trigger] out@[jj],
                jj,
            ) by {
                if jj < old_out.len() {
                    assert(out@[jj] == old_out[jj]);
                    assert(sample_entry_ok(traj@, per, transient_periods as int, old_out[jj], jj));
                }
            }
        }
    }
    Ok(out)
}

/// Shape of a successful trajectory: it starts at time zero with the
/// initial state, and its times are strictly increasing.
pub proof fn lemma_trajectory_monotonic(p: PendulumParams, th0: int, om0: int)
    requires
        solve_ok_s(p, th0, om0),
        in_i64(th0),
        in_i64(om0),
    ensures
        trajectory_s(p, th0, om0)[0].0 as int == 0,
        trajectory_s(p, th0, om0)[0].1.theta as int == th0,
        trajectory_s(p, th0, om0)[0].1.omega as int == om0,
        forall|a: int, b: int|
            0 <= a < b <= num_steps_s(p) ==> ((#[trigger] trajectory_s(p, th0, om0)[a]).0
                as int) < ((#[trigger] trajectory_s(p, th0, om0)[b]).0 as int),
{
    let steps = num_steps_s(p);
    vstd::arithmetic::div_mod::lemma_fundamental_div_mod(p.t_end as int, p.dt as int);
    vstd::arithmetic::div_mod::lemma_mod_bound(p.t_end as int, p.dt as int);
    assert forall|a: int, b: int| 0 <= a < b <= steps implies ((
    #[trigger] trajectory_s(p, th0, om0)[a]).0 as int) < ((#[trigger] trajectory_s(
        p,
        th0,
        om0,
    )[b]).0 as int) by {
        lemma_mul_strict_inequality(a, b, p.dt as int);
        lemma_mul_inequality(0, a, p.dt as int);
        lemma_mul_inequality(b, steps, p.dt as int);
        assert(0 <= a * p.dt < b * p.dt <= steps * p.dt <= p.t_end);
    }
}

/// Sample target times are strictly increasing: for a positive drive
/// frequency the period is at least one tick, so consecutive sample indices
/// give strictly later stroboscopic instants `n * period`.
pub proof fn lemma_sample_times_strictly_increasing(omega_d: int, n1: int, n2: int)
    requires
        0 < omega_d <= i64::MAX,
        0 <= n1 < n2,
    ensures
        period_s(omega_d) >= 1,
        n1 * period_s(omega_d) < n2 * period_s(omega_d),
{
    lemma_div_non_zero((TWO_PI_FX as int) * (SCALE as int), omega_d);
    lemma_mul_strict_inequality(n1, n2, period_s(omega_d));
}

/// Interpolation at a boundary: when the target time exactly equals a
/// trajectory timestamp (and timestamps are strictly increasing), the
/// sample is exactly that trajectory point, its angle wrapped onto one
/// branch; the interpolation formula introduces no error.
pub proof fn lemma_interpolation_boundary(traj: Seq<(i64, State)>, target: int, idx: int)
    requires
        0 <= idx < traj.len(),
        traj[idx].0 as int == target,
        forall|a: int, b: int|
            0 <= a < b < traj.len() ==> ((#[trigger] traj[a]).0 as int) < ((
            #[trigger] traj[b]).0 as int),
    ensures
        sample_at_s(traj, target) == Some(
            (wrap_s(traj[idx].1.theta as int), traj[idx].1.omega as int),
        ),
{
    lemma_find_idx_props(traj, target, 0);
    let f = find_idx_s(traj, target, 0);
    assert(f <= idx);
    if f < idx {
        assert((traj[f].0 as int) < (traj[idx].0 as int));
        assert(false);
    }
    if idx > 0 {
        let t1 = traj[idx - 1].0 as int;
        let s1 = traj[idx - 1].1;
        let s2 = traj[idx].1;
        assert(t1 < target);
        let gap = target - t1;
        lemma_div_multiples_vanish(SCALE as int, gap);
        assert((gap * (SCALE as int)) / gap == SCALE as int);
        let dth = wrap_s(s2.theta - s1.theta);
        lemma_div_multiples_vanish(dth, SCALE as int);
        assert(fx_mul_s(SCALE as int, dth) == dth);
        lemma_wrap_decomposition(s2.theta - s1.theta);
        let turns = (s2.theta - s1.theta + PI_FX) / (TWO_PI_FX as int);
        assert(s1.theta + dth == s2.theta + (-turns) * TWO_PI_FX);
        lemma_wrap_periodic(s2.theta as int, -turns);
        let dom = s2.omega - s1.omega;
        lemma_div_multiples_vanish(dom, SCALE as int);
        assert(fx_mul_s(SCALE as int, dom) == dom);
    }
}

/// Compute the Poincare section of a fresh run: integrate the trajectory,
/// then extract one interpolated sample per drive period.
pub fn poincare(
    params: &PendulumParams,
    initial_theta: i64,
    initial_omega: i64,
    transient_periods: usize,
    sample_periods: usize,
) -> (r: Result<Vec<(i64, i64)>, PendulumError>)
    ensures
        r is Ok <==> solve_ok_s(*params, initial_theta as int, initial_omega as int)
            && params.omega_d > 0,
        match r {
            Ok(samples) => {
                let traj = trajectory_s(*params, initial_theta as int, initial_omega as int);
                &&& samples@.len() <= sample_periods
                &&& forall|j: int|
                    0 <= j < samples@.len() ==> sample_entry_ok(
                        traj,
                        period_s(params.omega_d as int),
                        transient_periods as int,
                        #[trigger] samples@[j],
                        j,
                    )
                &&& samples@.len() < sample_periods ==> sample_at_s(
                    traj,
                    (transient_periods + 1 + samples@.len()) * period_s(params.omega_d as int),
                ) is None
            },
            Err(e) => {
                &&& (e == PendulumError::InvalidTimeStep <==> params.dt <= 0)
                &&& (e == PendulumError::InvalidTotalTime <==> params.dt > 0 && params.t_end < 0)
                &&& (e == PendulumError::Overflow <==> params.dt > 0 && params.t_end >= 0
                    && state_at_s(
                    *params,
                    initial_theta as int,
                    initial_omega as int,
                    num_steps_s(*params) as nat,
                ) is None)
                &&& (e == PendulumError::InvalidDriveFrequency <==> solve_ok_s(
                    *params,
                    initial_theta as int,
                    initial_omega as int,
                ) && params.omega_d <= 0)
            },
        },
{
    let traj = match solve(params, initial_theta, initial_omega) {
        Ok(t) => t,
        Err(e) => {
            return Err(e);
        },
    };
    sample_poincare_from_trajectory(&traj, params, transient_periods, sample_periods)
}

/// Compute the full trajectory with `solve`, then sample it by drive
/// period; the same section as `poincare`, named for callers that want the
/// two stages spelled out.
pub fn poincare_via_solve(
    params: &PendulumParams,
    initial_theta: i64,
    initial_omega: i64,
    transient_periods: usize,
    sample_periods: usize,
) -> (r: Result<Vec<(i64, i64)>, PendulumError>)
    ensures
        r is Ok <==> solve_ok_s(*params, initial_theta as int, initial_omega as int)
            && params.omega_d > 0,
        match r {
            Ok(samples) => {
                let traj = trajectory_s(*params, initial_theta as int, initial_omega as int);
                &&& samples@.len() <= sample_periods
                &&& forall|j: int|
                    0 <= j < samples@.len() ==> sample_entry_ok(
                        traj,
                        period_s(params.omega_d as int),
                        transient_periods as int,
                        #[trigger] samples@[j],
                        j,
                    )
                &&& samples@.len() < sample_periods ==> sample_at_s(
                    traj,
                    (transient_periods + 1 + samples@.len()) * period_s(params.omega_d as int),
                ) is None
            },
            Err(e) => {
                &&& (e == PendulumError::InvalidTimeStep <==> params.dt <= 0)
                &&& (e == PendulumError::InvalidTotalTime <==> params.dt > 0 && params.t_end < 0)
                &&& (e == PendulumError::Overflow <==> params.dt > 0 && params.t_end >= 0
                    && state_at_s(
                    *params,
                    initial_theta as int,
                    initial_omega as int,
                    num_steps_s(*params) as nat,
                ) is None)
                &&& (e == PendulumError::InvalidDriveFrequency <==> solve_ok_s(
                    *params,
                    initial_theta as int,
                    initial_omega as int,
                ) && params.omega_d <= 0)
            },
        },
{
    let traj = match solve(params, initial_theta, initial_omega) {
        Ok(t) => t,
        Err(e) => {
            return Err(e);
        },
    };
    sample_poincare_from_trajectory(&traj, params, transient_periods, sample_periods)
}

} // verus!
