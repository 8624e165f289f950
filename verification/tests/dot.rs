//! Signed int8 dot-product-accumulate vectors.
use ace::dpbssd_scalar;

#[test]
fn known_value() {
    let mut a = [0i8; 32];
    let mut b = [0i8; 32];
    for k in 0..4 {
        a[k] = (k as i8) + 1;
        b[k] = (k as i8) + 1;
    }
    assert_eq!(dpbssd_scalar([0; 8], a, b), [30, 0, 0, 0, 0, 0, 0, 0]);
}

fn sample() -> ([i32; 8], [i8; 32], [i8; 32]) {
    let a: [i8; 32] = core::array::from_fn(|i| i as i8 - 16);
    let b: [i8; 32] = core::array::from_fn(|i| (i as i8).wrapping_mul(3).wrapping_sub(7));
    let src: [i32; 8] = core::array::from_fn(|i| i as i32 * 100);
    (src, a, b)
}

#[test]
fn lane_formula_by_hand() {
    let (src, a, b) = sample();
    let out = dpbssd_scalar(src, a, b);
    for i in 0..8 {
        let mut want = src[i] as i64;
        for k in 0..4 {
            want += a[4 * i + k] as i64 * b[4 * i + k] as i64;
        }
        assert_eq!(out[i] as i64, want);
    }
    assert_eq!(out[0], -16 * -7 + -15 * -4 + -14 * -1 + -13 * 2);
}

#[test]
fn accumulator_wraps_modulo_2_pow_32() {
    let a = [-128i8; 32];
    let b = [-128i8; 32];
    let out = dpbssd_scalar([i32::MAX; 8], a, b);
    assert_eq!(out, [i32::MAX.wrapping_add(4 * 16384); 8]);
    assert_eq!(out[0], i32::MIN + 65535);
    let out = dpbssd_scalar([i32::MIN; 8], [-128i8; 32], [127i8; 32]);
    assert_eq!(out[0], i32::MIN.wrapping_sub(4 * 16256));
}

#[test]
fn src_is_additive() {
    let (src, a, b) = sample();
    let with_src = dpbssd_scalar(src, a, b);
    let no_src = dpbssd_scalar([0; 8], a, b);
    for i in 0..8 {
        assert_eq!(with_src[i], src[i].wrapping_add(no_src[i]));
    }
}

#[test]
fn operands_commute() {
    let (src, a, b) = sample();
    assert_eq!(dpbssd_scalar(src, a, b), dpbssd_scalar(src, b, a));
}

#[test]
fn zero_operand_is_passthrough() {
    let (src, _, b) = sample();
    assert_eq!(dpbssd_scalar(src, [0; 32], b), src);
}

#[test]
fn lanes_are_independent() {
    let (src, a, b) = sample();
    for i in 0..8 {
        let mut a2 = [0i8; 32];
        let mut b2 = [0i8; 32];
        for k in 0..4 {
            a2[4 * i + k] = a[4 * i + k];
            b2[4 * i + k] = b[4 * i + k];
        }
        assert_eq!(dpbssd_scalar(src, a2, b2)[i], dpbssd_scalar(src, a, b)[i]);
    }
}
