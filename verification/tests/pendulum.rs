//! Tests of the fixed-point pendulum core: the integrator against the
//! analytic small-angle solution, trajectory length, angle wraparound,
//! Poincare sampling, interpolation, and the error variants.

use pendulum_poincare::fixed::{fx_div, fx_mul, SCALE};
use pendulum_poincare::model::PendulumParams;
use pendulum_poincare::solve_equation::{
    poincare, poincare_via_solve, rhs, rk4_step, sample_poincare_from_trajectory, solve,
    PendulumError, State,
};
use pendulum_poincare::trig::{sin_fx, wrap_angle, PI_FX, TWO_PI_FX};

const SCALE_F: f64 = 4294967296.0;

fn to_fx(x: f64) -> i64 {
    (x * SCALE_F).round() as i64
}

fn to_f64(v: i64) -> f64 {
    v as f64 / SCALE_F
}

#[test]
fn test_small_angle_pendulum_analytical_consistency() {
    // Undamped, undriven small-angle pendulum.
    let mut params = PendulumParams::new();
    params.q = 0;
    params.f_d = 0;
    params.dt = to_fx(0.001);

    let initial_theta: i64 = to_fx(0.1);
    let initial_omega: i64 = 0;

    let trajectory = solve(&params, initial_theta, initial_omega).unwrap();

    // Natural frequency omega_n = sqrt(g / l).
    let omega_n = (to_f64(params.g) / to_f64(params.l)).sqrt();

    // Trajectory length: t_end / dt steps plus the initial point.
    assert_eq!(
        trajectory.len(),
        (to_f64(params.t_end) / to_f64(params.dt)) as usize + 1
    );

    // Analytic solution: theta(t) = theta0 cos(omega_n t),
    // omega(t) = -theta0 omega_n sin(omega_n t).
    let theta0 = to_f64(initial_theta);
    for (t, state) in &trajectory {
        let tf = to_f64(*t);
        let theta_analytic = theta0 * (omega_n * tf).cos();
        let omega_analytic = -theta0 * omega_n * (omega_n * tf).sin();
        assert!((to_f64(state.theta) - theta_analytic).abs() <= 1e-2);
        assert!((to_f64(state.omega) - omega_analytic).abs() <= 1e-2);
    }

    // Small-angle energy invariant: theta^2 + (omega / omega_n)^2 stays at
    // its initial value.
    let initial_energy = theta0 * theta0;
    for (_, state) in &trajectory[1..] {
        let th = to_f64(state.theta);
        let om = to_f64(state.omega);
        let conserved = th * th + (om / omega_n) * (om / omega_n);
        assert!((conserved - initial_energy).abs() <= 1e-3);
    }
}

#[test]
fn trajectory_length_is_steps_plus_one() {
    let mut params = PendulumParams::new();
    params.q = 0;
    params.f_d = 0;
    let cases: [(f64, f64); 4] = [(0.001, 10.0), (0.1, 1.0), (0.25, 0.2), (0.5, 0.0)];
    for (dt, t_end) in cases {
        params.dt = to_fx(dt);
        params.t_end = to_fx(t_end);
        let traj = solve(&params, to_fx(0.2), 0).unwrap();
        let steps = params.t_end.div_euclid(params.dt);
        assert_eq!(traj.len(), steps as usize + 1);
        // Times are exact multiples of dt.
        for (k, (t, _)) in traj.iter().enumerate() {
            assert_eq!(*t, k as i64 * params.dt);
        }
    }
}

#[test]
fn wrap_angle_idempotent_and_periodic() {
    let samples: [i64; 7] = [
        0,
        1,
        -1,
        to_fx(3.0),
        to_fx(-3.0),
        to_fx(100.0),
        -987654321987,
    ];
    for x in samples {
        let w = wrap_angle(x);
        // Already-wrapped angles are left alone.
        assert_eq!(wrap_angle(w), w);
        // The result lies on one angular branch.
        assert!(-PI_FX <= w && w < PI_FX);
        // Shifting by whole turns does not change the wrapped value.
        for k in [-3i64, -1, 1, 7] {
            assert_eq!(wrap_angle(x + k * TWO_PI_FX), w);
        }
    }
    assert_eq!(wrap_angle(0), 0);
    assert_eq!(wrap_angle(PI_FX), -PI_FX);
    assert_eq!(wrap_angle(TWO_PI_FX + 5), 5);
}

#[test]
fn sin_fx_matches_sine() {
    let xs: [f64; 8] = [0.0, 0.1, -0.4, 1.5, 2.0, -2.5, 3.1, 10.0];
    for x in xs {
        let s = to_f64(sin_fx(to_fx(x)));
        assert!((s - x.sin()).abs() < 1e-6);
    }
    assert_eq!(sin_fx(0), 0);
}

#[test]
fn rhs_exact_value() {
    // g/l = 2, sin(0) = 0, q = 1/2, omega = 1, f_d = 0:
    // domega/dt = -q * omega = -1/2.
    let mut params = PendulumParams::new();
    params.g = 2 * SCALE;
    params.l = SCALE;
    params.q = SCALE / 2;
    params.f_d = 0;
    let r = rhs(0, SCALE, 0, &params).unwrap();
    assert_eq!(r.0, SCALE);
    assert_eq!(r.1, -SCALE / 2);
}

#[test]
fn rk4_step_constant_velocity() {
    // With g/l = 0, q = 0, f_d = 0 the velocity is constant and the angle
    // advances by omega * dt exactly: every derivative evaluation is the
    // same.
    let mut params = PendulumParams::new();
    params.g = 0;
    params.q = 0;
    params.f_d = 0;
    params.dt = to_fx(0.5);
    let state = State {
        theta: to_fx(0.25),
        omega: SCALE,
    };
    let (next, t_next) = rk4_step(&state, 0, &params).unwrap();
    assert_eq!(t_next, params.dt);
    assert_eq!(next.omega, SCALE);
    // dtheta = dt * (1 + 2 + 2 + 1) * omega / 6 = dt * omega.
    assert_eq!(next.theta, state.theta + to_fx(0.5));
}

#[test]
fn fixed_point_operations_exact() {
    assert_eq!(fx_mul(3 * SCALE, 5 * SCALE), Some(15 * SCALE));
    assert_eq!(fx_mul(i64::MAX, i64::MAX), None);
    assert_eq!(fx_div(SCALE, 3 * SCALE), Some(1431655765));
    assert_eq!(fx_div(SCALE, 0), None);
    assert_eq!(fx_mul(-SCALE, SCALE / 2), Some(-SCALE / 2));
}

fn strobe_params(omega_d: i64) -> PendulumParams {
    let mut params = PendulumParams::new();
    params.omega_d = omega_d;
    params
}

#[test]
fn poincare_sampling_counts() {
    // omega_d = 2*pi ticks per second gives a drive period of exactly one
    // second (SCALE ticks).
    let params = strobe_params(TWO_PI_FX);
    let mut traj: Vec<(i64, State)> = Vec::new();
    for k in 0..21i64 {
        traj.push((
            k * (SCALE / 2),
            State {
                theta: k,
                omega: -k,
            },
        ));
    }
    // Ten whole seconds of trajectory: five requested samples all exist.
    let s = sample_poincare_from_trajectory(&traj, &params, 0, 5).unwrap();
    assert_eq!(s.len(), 5);
    // Asking for fifty gives only the ten the trajectory covers.
    let s = sample_poincare_from_trajectory(&traj, &params, 0, 50).unwrap();
    assert_eq!(s.len(), 10);
    // A transient prefix shifts the window.
    let s = sample_poincare_from_trajectory(&traj, &params, 8, 50).unwrap();
    assert_eq!(s.len(), 2);
}

#[test]
fn poincare_boundary_sample_is_exact() {
    // Sample times hit trajectory timestamps exactly: the sample is the
    // trajectory point itself, with the angle wrapped.
    let params = strobe_params(TWO_PI_FX);
    let traj = vec![
        (
            0,
            State {
                theta: 11,
                omega: 13,
            },
        ),
        (
            SCALE,
            State {
                theta: SCALE,
                omega: 2 * SCALE,
            },
        ),
        (
            2 * SCALE,
            State {
                theta: TWO_PI_FX + 17,
                omega: -23,
            },
        ),
    ];
    let s = sample_poincare_from_trajectory(&traj, &params, 0, 2).unwrap();
    assert_eq!(s.len(), 2);
    // theta = 1 radian is already on the branch; omega is copied.
    assert_eq!(s[0], (SCALE, 2 * SCALE));
    // theta = 2*pi + 17 ticks wraps to 17 ticks.
    assert_eq!(s[1], (17, -23));
}

#[test]
fn poincare_interpolates_between_points() {
    // omega_d = 4*pi gives a period of exactly half a second, so the first
    // target falls midway between the two trajectory points.
    let params = strobe_params(2 * TWO_PI_FX);
    let traj = vec![
        (0, State { theta: 0, omega: 0 }),
        (
            SCALE,
            State {
                theta: SCALE,
                omega: 2 * SCALE,
            },
        ),
    ];
    let s = sample_poincare_from_trajectory(&traj, &params, 0, 1).unwrap();
    assert_eq!(s.len(), 1);
    // alpha = 1/2: theta = 0.5 radians, omega = 1.
    assert_eq!(s[0], (SCALE / 2, SCALE));
}

#[test]
fn poincare_sample_at_index_zero() {
    // The whole trajectory lies at or after the first target: the first
    // entry is emitted directly.
    let params = strobe_params(TWO_PI_FX);
    let traj = vec![(
        2 * SCALE,
        State {
            theta: -7,
            omega: 29,
        },
    )];
    // Targets at one and two seconds precede or meet the single entry; the
    // three-second target is past it, so sampling stops at two samples.
    let s = sample_poincare_from_trajectory(&traj, &params, 0, 3).unwrap();
    assert_eq!(s.len(), 2);
    for e in &s {
        assert_eq!(*e, (-7, 29));
    }
}

#[test]
fn error_invalid_time_step() {
    let mut params = PendulumParams::new();
    params.dt = 0;
    assert_eq!(
        solve(&params, 0, 0).unwrap_err(),
        PendulumError::InvalidTimeStep
    );
    params.dt = -5;
    assert_eq!(
        poincare_via_solve(&params, 0, 0, 0, 1).unwrap_err(),
        PendulumError::InvalidTimeStep
    );
}

#[test]
fn error_invalid_total_time() {
    let mut params = PendulumParams::new();
    params.t_end = -1;
    assert_eq!(
        solve(&params, 0, 0).unwrap_err(),
        PendulumError::InvalidTotalTime
    );
}

#[test]
fn error_invalid_drive_frequency() {
    let params = strobe_params(0);
    let traj = vec![(0, State { theta: 0, omega: 0 })];
    assert_eq!(
        sample_poincare_from_trajectory(&traj, &params, 0, 1).unwrap_err(),
        PendulumError::InvalidDriveFrequency
    );
    let mut params = PendulumParams::new();
    params.omega_d = -SCALE;
    assert_eq!(
        poincare_via_solve(&params, 0, 0, 0, 1).unwrap_err(),
        PendulumError::InvalidDriveFrequency
    );
}

#[test]
fn error_overflow() {
    // A one-tick pendulum length makes g / l leave the representable
    // range at the very first derivative evaluation.
    let mut params = PendulumParams::new();
    params.l = 1;
    params.g = i64::MAX;
    assert_eq!(solve(&params, 0, 0).unwrap_err(), PendulumError::Overflow);
}

#[test]
fn end_to_end_harmonic_section() {
    // g = l = 9.8 and omega_d = 1: the drive period equals the natural
    // period, so every sample catches the oscillator near its starting
    // phase: theta stays at its initial amplitude and omega stays near
    // zero, as simple harmonic motion requires.
    let mut params = PendulumParams::new();
    params.g = to_fx(9.8);
    params.l = to_fx(9.8);
    params.q = 0;
    params.f_d = 0;
    params.omega_d = to_fx(1.0);
    params.dt = TWO_PI_FX / 400;
    params.t_end = 5 * TWO_PI_FX + params.dt;
    let theta0: i64 = to_fx(0.01);

    let samples = poincare_via_solve(&params, theta0, 0, 0, 5).unwrap();
    assert_eq!(samples.len(), 5);
    for (th, om) in &samples {
        assert!((to_f64(*th) - 0.01).abs() < 1e-3);
        assert!(to_f64(*om).abs() < 1e-3);
    }

    // Both entry points compute the same section.
    let again = poincare(&params, theta0, 0, 0, 5).unwrap();
    assert_eq!(samples, again);
}

#[test]
fn default_parameters() {
    let p = PendulumParams::new();
    assert_eq!(p.g, to_fx(9.8));
    assert_eq!(p.l, SCALE);
    assert_eq!(p.q, to_fx(0.1));
    assert_eq!(p.f_d, SCALE);
    assert_eq!(p.omega_d, SCALE);
    assert_eq!(p.dt, 4294967);
    assert_eq!(p.t_end, 10 * SCALE);
    assert_eq!(p.theta_start, -4 * SCALE);
    assert_eq!(p.theta_end, 4 * SCALE);
}
