use xy_model::fxp::{
    add_ticks, atan2_ticks, cos_q30, exp_nq30, isqrt_u128, reflect_axis, reflect_cluster, sin_q30,
    sub_ticks, HALF, Q30, QUARTER,
};

const ONE: i64 = Q30 as i64;

#[test]
fn tick_arithmetic_wraps_exactly() {
    assert_eq!(add_ticks(0xFFFF_FFFF, 1), 0);
    assert_eq!(add_ticks(HALF, HALF), 0);
    assert_eq!(sub_ticks(0, 1), 0xFFFF_FFFF);
    assert_eq!(sub_ticks(7, 7), 0);
    assert_eq!(add_ticks(QUARTER, QUARTER), HALF);
}

#[test]
fn cardinal_angles_are_exact() {
    assert_eq!(cos_q30(0), ONE);
    assert_eq!(cos_q30(QUARTER), 0);
    assert_eq!(cos_q30(HALF), -ONE);
    assert_eq!(sin_q30(0), 0);
    assert_eq!(sin_q30(QUARTER), ONE);
    assert_eq!(sin_q30(HALF), 0);
    assert_eq!(sin_q30(HALF + QUARTER), -ONE);
}

#[test]
fn trig_matches_float_reference_closely() {
    // The cubic kernel should track the real functions to a few parts in 1e4.
    let two_pi = std::f64::consts::PI * 2.0;
    for k in 0..1000u64 {
        let t = (k * 4294967) as u32;
        let x = t as f64 / 4294967296.0 * two_pi;
        let c = cos_q30(t) as f64 / Q30 as f64;
        let s = sin_q30(t) as f64 / Q30 as f64;
        assert!((c - x.cos()).abs() < 3.0e-4, "cos off at {x}: {c}");
        assert!((s - x.sin()).abs() < 3.0e-4, "sin off at {x}: {s}");
    }
}

#[test]
fn exp_is_one_at_zero_and_decreasing() {
    assert_eq!(exp_nq30(0), Q30);
    let e1 = exp_nq30(Q30 as u128);
    let expected = (-1.0f64).exp();
    let got = e1 as f64 / Q30 as f64;
    assert!((got - expected).abs() < 5.0e-4, "exp(-1) = {got}");
    assert_eq!(exp_nq30(64 * Q30 as u128), 0);
    assert!(exp_nq30(2 * Q30 as u128) < e1);
}

#[test]
fn integer_square_root_is_exact() {
    assert_eq!(isqrt_u128(0), 0);
    assert_eq!(isqrt_u128(1), 1);
    assert_eq!(isqrt_u128(15), 3);
    assert_eq!(isqrt_u128(16), 4);
    assert_eq!(isqrt_u128(u64::MAX as u128), 0xFFFF_FFFF);
    let x: u128 = 123456789012345678901234567890;
    let r = isqrt_u128(x);
    assert!(r * r <= x && (r + 1) * (r + 1) > x);
}

#[test]
fn atan2_hits_the_cardinal_directions() {
    assert_eq!(atan2_ticks(0, 0), 0);
    assert_eq!(atan2_ticks(0, 123456), 0);
    assert_eq!(atan2_ticks(98765, 0), QUARTER);
    assert_eq!(atan2_ticks(0, -55), HALF);
    assert_eq!(atan2_ticks(-55, 0), HALF + QUARTER);
    // 45 degrees exactly: one eighth of a turn.
    assert_eq!(atan2_ticks(1000, 1000), QUARTER / 2);
}

#[test]
fn atan2_matches_float_reference_closely() {
    for k in 0..360 {
        let a = (k as f64) * std::f64::consts::PI / 180.0;
        let y = (a.sin() * 1_000_000.0) as i128;
        let x = (a.cos() * 1_000_000.0) as i128;
        let t = atan2_ticks(y, x) as f64 / 4294967296.0 * std::f64::consts::PI * 2.0;
        let want = (y as f64).atan2(x as f64).rem_euclid(std::f64::consts::PI * 2.0);
        let diff = (t - want).abs();
        let diff = diff.min(std::f64::consts::PI * 2.0 - diff);
        assert!(diff < 2.0e-3, "atan2 off at {k} deg: {t} vs {want}");
    }
}

#[test]
fn reflections_are_involutions() {
    let theta: u32 = 0x1234_5678;
    let phi: u32 = 0x9ABC_DEF0;
    assert_eq!(reflect_axis(reflect_axis(theta, phi), phi), theta);
    assert_eq!(reflect_cluster(reflect_cluster(theta, phi), phi), theta);
}
