use naive_force_graph::fixed::{
    clamp, div_toward_zero, fx_add, fx_div, fx_mul, fx_pow, fx_sqrt, isqrt, saturate, LIMIT, ONE,
};

#[test]
fn one_has_sixteen_fractional_bits() {
    assert_eq!(ONE, 1 << 16);
    assert_eq!(LIMIT, 1 << 40);
}

#[test]
fn clamp_brings_values_into_range() {
    assert_eq!(clamp(5, 0, 10), 5);
    assert_eq!(clamp(-5, 0, 10), 0);
    assert_eq!(clamp(15, 0, 10), 10);
    assert_eq!(clamp(7, 7, 7), 7);
}

#[test]
fn saturate_stops_at_the_limit() {
    assert_eq!(saturate(12), 12);
    assert_eq!(saturate(LIMIT as i128 + 1), LIMIT);
    assert_eq!(saturate(-(LIMIT as i128) - 1), -LIMIT);
    assert_eq!(saturate(i128::MAX), LIMIT);
    assert_eq!(saturate(i128::MIN), -LIMIT);
}

#[test]
fn division_rounds_toward_zero() {
    assert_eq!(div_toward_zero(7, 2), 3);
    assert_eq!(div_toward_zero(-7, 2), -3);
    assert_eq!(div_toward_zero(0, 5), 0);
    assert_eq!(div_toward_zero(-1, 5), 0);
}

#[test]
fn sums_saturate() {
    assert_eq!(fx_add(3, 4), 7);
    assert_eq!(fx_add(LIMIT, 1), LIMIT);
    assert_eq!(fx_add(-LIMIT, -1), -LIMIT);
    assert_eq!(fx_add(i64::MAX, i64::MAX), LIMIT);
    assert_eq!(fx_add(i64::MIN, i64::MIN), -LIMIT);
}

#[test]
fn products_are_scaled_and_rounded_toward_zero() {
    // 1.5 * 2.5 = 3.75
    assert_eq!(fx_mul(98304, 163840), 245760);
    assert_eq!(fx_mul(-98304, 163840), -245760);
    assert_eq!(fx_mul(1, 1), 0);
    assert_eq!(fx_mul(-1, 1), 0);
    assert_eq!(fx_mul(65535, 1), 0);
    assert_eq!(fx_mul(ONE, ONE), ONE);
}

#[test]
fn products_saturate() {
    assert_eq!(fx_mul(LIMIT, LIMIT), LIMIT);
    assert_eq!(fx_mul(LIMIT, -LIMIT), -LIMIT);
    assert_eq!(fx_mul(i64::MIN, i64::MIN), LIMIT);
    assert_eq!(fx_mul(i64::MIN, i64::MAX), -LIMIT);
}

#[test]
fn quotients_are_scaled_and_rounded_toward_zero() {
    assert_eq!(fx_div(ONE, 3 * ONE), 21845);
    assert_eq!(fx_div(-ONE, 3 * ONE), -21845);
    assert_eq!(fx_div(7 * ONE, 2 * ONE), 229376);
    assert_eq!(fx_div(LIMIT, 1), LIMIT);
}

#[test]
fn integer_square_root_rounds_down() {
    assert_eq!(isqrt(0), 0);
    assert_eq!(isqrt(1), 1);
    assert_eq!(isqrt(3), 1);
    assert_eq!(isqrt(4), 2);
    assert_eq!(isqrt(10), 3);
    assert_eq!(isqrt(99), 9);
    assert_eq!(isqrt(100), 10);
    assert_eq!(isqrt(1 << 80), 1 << 40);
    assert_eq!(isqrt((1u128 << 126) - 1), (1u64 << 63) - 1);
}

#[test]
fn fixed_square_root() {
    assert_eq!(fx_sqrt(0), 0);
    assert_eq!(fx_sqrt(-5), 0);
    assert_eq!(fx_sqrt(4 * ONE), 2 * ONE);
    assert_eq!(fx_sqrt(100 * ONE), 10 * ONE);
    assert_eq!(fx_sqrt(16384), 32768);
    assert_eq!(fx_sqrt(2 * ONE), 92681);
}

#[test]
fn powers_at_the_ends_of_the_exponent_range() {
    assert_eq!(fx_pow(0, 19661), 0);
    assert_eq!(fx_pow(-ONE, 19661), 0);
    assert_eq!(fx_pow(5 * ONE, 0), ONE);
    assert_eq!(fx_pow(5 * ONE, -3), ONE);
    assert_eq!(fx_pow(5 * ONE, ONE), 5 * ONE);
    assert_eq!(fx_pow(5 * ONE, 2 * ONE), 5 * ONE);
    assert_eq!(fx_pow(i64::MAX, ONE), LIMIT);
}

#[test]
fn powers_with_dyadic_exponents_are_roots() {
    assert_eq!(fx_pow(16 * ONE, 32768), 4 * ONE);
    assert_eq!(fx_pow(16 * ONE, 16384), 2 * ONE);
    assert_eq!(fx_pow(16 * ONE, 49152), 8 * ONE);
}

#[test]
fn powers_with_the_default_exponent() {
    // 45 ^ 0.3 = 3.1330, 100 ^ 0.3 = 3.9811, 0.1 ^ 0.3 = 0.5012
    assert_eq!(fx_pow(45 * ONE, 19661), 205297);
    assert_eq!(fx_pow(100 * ONE, 19661), 260870);
    assert_eq!(fx_pow(6554, 19661), 32836);
}

#[test]
fn powers_grow_with_the_base() {
    let mut last = 0;
    let mut base = 1;
    while base < 200 * ONE {
        let value = fx_pow(base, 19661);
        assert!(value >= last);
        last = value;
        base += 7919;
    }
}
