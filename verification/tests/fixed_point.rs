use raytracer::fx::{fx_mul, fx_div, fx_sqrt, isqrt, mod_floor, div_floor, SCALE, PI_FX};

#[test]
fn isqrt_exact_squares() {
    assert_eq!(isqrt(0), 0);
    assert_eq!(isqrt(1), 1);
    assert_eq!(isqrt(144), 12);
    assert_eq!(isqrt(145), 12);
    assert_eq!(isqrt((1u128 << 60) - 1), (1 << 30) - 1);
    assert_eq!(isqrt(1u128 << 60), 1 << 30);
}

#[test]
fn fx_mul_matches_rationals() {
    // 1.5 * 2.5 == 3.75
    assert_eq!(fx_mul(3 * SCALE / 2, 5 * SCALE / 2), 15 * SCALE / 4);
    // one unit is the multiplicative identity
    assert_eq!(fx_mul(12345, SCALE), 12345);
    assert_eq!(fx_mul(-12345, SCALE), -12345);
    // rounding is toward minus infinity
    assert_eq!(fx_mul(1, 1), 0);
    assert_eq!(fx_mul(-1, 1), -1);
}

#[test]
fn fx_div_matches_rationals() {
    assert_eq!(fx_div(3 * SCALE, 2 * SCALE), 3 * SCALE / 2);
    assert_eq!(fx_div(SCALE, SCALE), SCALE);
    assert_eq!(fx_div(0, 7), 0);
}

#[test]
fn fx_sqrt_matches_reals() {
    assert_eq!(fx_sqrt(4 * SCALE), 2 * SCALE);
    assert_eq!(fx_sqrt(SCALE), SCALE);
    assert_eq!(fx_sqrt(0), 0);
    // sqrt(2) to fixed-point precision
    let r = fx_sqrt(2 * SCALE);
    let expected = (2.0f64.sqrt() * SCALE as f64) as i64;
    assert!((r - expected).abs() <= 1, "sqrt(2) was {r}, expected about {expected}");
}

#[test]
fn div_floor_rounds_toward_minus_infinity() {
    assert_eq!(div_floor(7, 2), 3);
    assert_eq!(div_floor(-7, 2), -4);
    assert_eq!(div_floor(-6, 2), -3);
    assert_eq!(div_floor(6, 3), 2);
}

#[test]
fn mod_floor_is_euclidean() {
    assert_eq!(mod_floor(7, 3), 1);
    assert_eq!(mod_floor(-7, 3), 2);
    assert_eq!(mod_floor(-6, 3), 0);
    assert_eq!(mod_floor(0, 5), 0);
}

#[test]
fn pi_constant_matches_reals() {
    let pi = std::f64::consts::PI;
    assert!(((PI_FX as f64) / (SCALE as f64) - pi).abs() < 1e-4);
}
