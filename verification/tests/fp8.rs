//! FP8 / FP16 / FP32 codec vectors.
use ace::fp32::{fp32_to_fp8_e4m3, fp32_to_fp8_e5m2_biased, Fp8RoundMode};
use ace::fp8::{fp16_to_bf8, fp16_to_bf8_biased, fp16_to_hf8, fp16_to_hf8_biased, hf8_to_fp16};

fn fp32_to_fp16_rne(v: f32) -> u16 {
    ace::fp32::fp32_to_fp16_rne(v.to_bits())
}

fn fp8_e5m2_to_fp32(b: u8) -> f32 {
    f32::from_bits(ace::fp32::fp8_e5m2_to_fp32(b))
}

fn fp8_e4m3_to_fp32(b: u8) -> f32 {
    f32::from_bits(ace::fp32::fp8_e4m3_to_fp32(b))
}

fn fp16_bits(sign: u16, exp: u16, mant: u16) -> u16 {
    (sign << 15) | (exp << 10) | mant
}

fn bf8(sign: u8, exp: u8, mant: u8) -> u8 {
    (sign << 7) | (exp << 2) | mant
}

fn hf8(sign: u8, exp: u8, mant: u8) -> u8 {
    (sign << 7) | (exp << 3) | mant
}

#[test]
fn fp16_to_bf8_zero_and_signed_zero() {
    assert_eq!(fp16_to_bf8(fp16_bits(0, 0, 0), false), 0x00);
    assert_eq!(fp16_to_bf8(fp16_bits(1, 0, 0), false), 0x80);
}

#[test]
fn fp16_to_bf8_one_is_exact() {
    let one = fp16_bits(0, 15, 0);
    assert_eq!(fp16_to_bf8(one, false), bf8(0, 0b01111, 0b00));
}

#[test]
fn fp16_to_bf8_rtne_ties_to_even() {
    let bits = fp16_bits(0, 15, 0b00_1000_0000);
    assert_eq!(fp16_to_bf8(bits, false) & 0b11, 0b00);
    let bits = fp16_bits(0, 15, 0b01_1000_0000);
    assert_eq!(fp16_to_bf8(bits, false) & 0b11, 0b10);
    let bits = fp16_bits(0, 15, 0b00_1000_0001);
    assert_eq!(fp16_to_bf8(bits, false) & 0b11, 0b01);
}

#[test]
fn fp16_to_bf8_min_subnormal_roundtrip() {
    let bits = fp16_bits(0, 0, 256);
    assert_eq!(fp16_to_bf8(bits, false), bf8(0, 0b00000, 0b01));
    let bits = fp16_bits(1, 0, 256);
    assert_eq!(fp16_to_bf8(bits, false), bf8(1, 0b00000, 0b01));
}

#[test]
fn fp16_to_bf8_overflow_nonsaturating_is_inf() {
    let inf = fp16_bits(0, 31, 0);
    assert_eq!(
        fp16_to_bf8(inf, false),
        bf8(0, 0b11111, 0b00),
        "+Inf input -> BF8 +Inf"
    );
    let big = fp16_bits(0, 30, 0x3ff);
    assert_eq!(
        fp16_to_bf8(big, false),
        bf8(0, 0b11111, 0b00),
        "finite overflow -> BF8 +Inf"
    );
    assert_eq!(
        fp16_to_bf8(fp16_bits(1, 31, 0), false),
        bf8(1, 0b11111, 0b00),
        "-Inf"
    );
}

#[test]
fn fp16_to_bf8_overflow_saturating_clamps() {
    let inf = fp16_bits(0, 31, 0);
    assert_eq!(fp16_to_bf8(inf, true), bf8(0, 0b11110, 0b11));
    let fp16_max = fp16_bits(0, 30, 0x3ff);
    assert_eq!(fp16_to_bf8(fp16_max, true), bf8(0, 0b11110, 0b11));
}

#[test]
fn fp16_to_bf8_nan_propagates() {
    let nan = fp16_bits(0, 31, 0x200);
    let got = fp16_to_bf8(nan, false);
    assert_eq!((got >> 2) & 0x1f, 0b11111);
    assert!(got & 0b11 != 0);
    let got_sat = fp16_to_bf8(nan, true);
    assert_eq!((got_sat >> 2) & 0x1f, 0b11111);
    assert!(got_sat & 0b11 != 0);
}

#[test]
fn fp16_to_bf8_max_normal_exact() {
    let bits = fp16_bits(0, 30, 0b11_0000_0000);
    assert_eq!(fp16_to_bf8(bits, false), bf8(0, 0b11110, 0b11));
}

#[test]
fn fp16_to_hf8_zero_and_signed_zero() {
    assert_eq!(fp16_to_hf8(fp16_bits(0, 0, 0), false), 0x00);
    assert_eq!(fp16_to_hf8(fp16_bits(1, 0, 0), false), 0x80);
}

#[test]
fn fp16_to_hf8_one_is_exact() {
    let one = fp16_bits(0, 15, 0);
    assert_eq!(fp16_to_hf8(one, false), hf8(0, 0b0111, 0b000));
}

#[test]
fn fp16_to_hf8_min_subnormal() {
    let bits = fp16_bits(0, 6, 0);
    assert_eq!(fp16_to_hf8(bits, false), hf8(0, 0b0000, 0b001));
    let bits = fp16_bits(1, 6, 0);
    assert_eq!(fp16_to_hf8(bits, false), hf8(1, 0b0000, 0b001));
}

#[test]
fn fp16_to_hf8_max_normal_exact() {
    let bits = fp16_bits(0, 23, 0b11_0000_0000);
    assert_eq!(fp16_to_hf8(bits, false), hf8(0, 0b1111, 0b110));
}

#[test]
fn fp16_to_hf8_overflow_nonsaturating_is_nan() {
    let bits = fp16_bits(0, 24, 0);
    let got = fp16_to_hf8(bits, false);
    assert_eq!(got, hf8(0, 0b1111, 0b111));
    assert_eq!(
        fp16_to_hf8(fp16_bits(0, 31, 0), false),
        hf8(0, 0b1111, 0b111)
    );
}

#[test]
fn fp16_to_hf8_overflow_saturating_clamps() {
    let bits = fp16_bits(0, 24, 0);
    assert_eq!(fp16_to_hf8(bits, true), hf8(0, 0b1111, 0b110));
    assert_eq!(
        fp16_to_hf8(fp16_bits(0, 31, 0), true),
        hf8(0, 0b1111, 0b110)
    );
    assert_eq!(
        fp16_to_hf8(fp16_bits(0, 30, 0x3ff), true),
        hf8(0, 0b1111, 0b110)
    );
}

#[test]
fn fp16_to_hf8_nan_propagates() {
    let nan = fp16_bits(0, 31, 0x200);
    assert_eq!(fp16_to_hf8(nan, false), hf8(0, 0b1111, 0b111));
    assert_eq!(fp16_to_hf8(nan, true), hf8(0, 0b1111, 0b111));
}

#[test]
fn fp16_to_hf8_normal_with_mantissa_exact() {
    let bits = fp16_bits(0, 15, 0b10_0000_0000);
    assert_eq!(fp16_to_hf8(bits, false), hf8(0, 0b0111, 0b100));
}

#[test]
fn fp16_to_hf8_does_not_overflow_in_max_exponent_normals() {
    let bits = fp16_bits(0, 23, 0b10_0000_0000);
    assert_eq!(fp16_to_hf8(bits, false), hf8(0, 0b1111, 0b100));
}

#[test]
fn bias_rounding_is_add_bias_then_truncate() {
    let above_half = fp16_bits(0, 15, 0x081);
    assert_eq!(
        fp16_to_bf8(above_half, false) & 0b11,
        0b01,
        "plain family-A RTNE rounds the above-half value UP"
    );
    assert_eq!(
        fp16_to_bf8_biased(above_half, 0, false) & 0b11,
        0b00,
        "bias=0 TRUNCATES the above-half value DOWN (not RTNE)"
    );
    assert_eq!(
        fp16_to_bf8_biased(above_half, 0x80, false) & 0b11,
        0b01,
        "bias=0x80 recovers round-to-nearest (rounds the above-half value UP)"
    );
    let exactly_half = fp16_bits(0, 15, 0x080);
    assert_eq!(
        fp16_to_bf8(exactly_half, false) & 0b11,
        0b00,
        "RTNE ties to even"
    );
    assert_eq!(
        fp16_to_bf8_biased(exactly_half, 0x80, false) & 0b11,
        0b01,
        "bias=0x80 rounds the exact-half value up (ties up)"
    );
}

#[test]
fn bias_pushes_an_exact_down_value_up_one_lsb() {
    let near_one = fp16_bits(0, 15, 0b00_0000_0001);
    assert_eq!(
        fp16_to_bf8(near_one, false) & 0b11,
        0b00,
        "plain RTNE keeps mant 0b00"
    );
    assert_eq!(
        fp16_to_bf8_biased(near_one, 0xff, false) & 0b11,
        0b01,
        "max bias rounds up one lsb"
    );
    assert_eq!(
        fp16_to_bf8_biased(near_one, 1, false) & 0b11,
        0b00,
        "tiny bias does not reach half"
    );
}

#[test]
fn bias_overflow_matches_plain_overflow_handling() {
    let big = fp16_bits(0, 30, 0x3ff);
    assert_eq!(
        (fp16_to_bf8_biased(big, 0x40, false) >> 2) & 0x1f,
        0b11111,
        "bf8 nsat overflow stays NaN"
    );
    assert_eq!(
        fp16_to_bf8_biased(big, 0x40, true),
        bf8(0, 0b11110, 0b11),
        "bf8 sat overflow clamps"
    );
    assert_eq!(
        fp16_to_hf8_biased(big, 0x40, true),
        hf8(0, 0b1111, 0b110),
        "hf8 sat overflow clamps"
    );
}

fn fp16_parts(bits: u16) -> (u16, u16, u16) {
    ((bits >> 15) & 1, (bits >> 10) & 0x1f, bits & 0x3ff)
}

#[test]
fn hf8_to_fp16_zero_and_signed_zero() {
    assert_eq!(hf8_to_fp16(hf8(0, 0b0000, 0b000)), fp16_bits(0, 0, 0));
    assert_eq!(hf8_to_fp16(hf8(1, 0b0000, 0b000)), fp16_bits(1, 0, 0));
}

#[test]
fn hf8_to_fp16_one_is_exact() {
    assert_eq!(hf8_to_fp16(hf8(0, 0b0111, 0b000)), fp16_bits(0, 15, 0));
}

#[test]
fn hf8_to_fp16_normal_with_mantissa() {
    assert_eq!(
        hf8_to_fp16(hf8(0, 0b0111, 0b100)),
        fp16_bits(0, 15, 0b10_0000_0000)
    );
    assert_eq!(
        hf8_to_fp16(hf8(0, 0b1111, 0b110)),
        fp16_bits(0, 23, 0b11_0000_0000)
    );
}

#[test]
fn hf8_to_fp16_subnormals_renormalise_exactly() {
    assert_eq!(hf8_to_fp16(hf8(0, 0b0000, 0b001)), fp16_bits(0, 6, 0));
    assert_eq!(hf8_to_fp16(hf8(0, 0b0000, 0b010)), fp16_bits(0, 7, 0));
    assert_eq!(
        hf8_to_fp16(hf8(0, 0b0000, 0b011)),
        fp16_bits(0, 7, 0b10_0000_0000)
    );
    assert_eq!(hf8_to_fp16(hf8(0, 0b0000, 0b100)), fp16_bits(0, 8, 0));
    assert_eq!(
        hf8_to_fp16(hf8(1, 0b0000, 0b111)),
        fp16_bits(1, 8, 0b11_0000_0000)
    );
}

#[test]
fn hf8_to_fp16_nan_maps_to_fp16_nan() {
    let got = hf8_to_fp16(hf8(0, 0b1111, 0b111));
    let (s, e, m) = fp16_parts(got);
    assert_eq!(s, 0);
    assert_eq!(e, 0x1f);
    assert!(m != 0, "FP16 NaN must have a nonzero mantissa");
    let got_neg = hf8_to_fp16(hf8(1, 0b1111, 0b111));
    assert_eq!(fp16_parts(got_neg).0, 1);
}

#[test]
fn hf8_to_fp16_then_back_is_identity_for_all_bytes() {
    for raw in 0u8..=u8::MAX {
        let back = fp16_to_hf8(hf8_to_fp16(raw), false);
        assert_eq!(back, raw, "HF8->FP16->HF8 not identity for raw={raw:#04x}");
    }
}

#[test]
fn fp32_to_fp16_exact_and_signed_zero() {
    assert_eq!(fp32_to_fp16_rne(0.0f32), fp16_bits(0, 0, 0));
    assert_eq!(fp32_to_fp16_rne(-0.0f32), fp16_bits(1, 0, 0));
    assert_eq!(fp32_to_fp16_rne(1.0f32), fp16_bits(0, 15, 0));
    assert_eq!(fp32_to_fp16_rne(-2.0f32), fp16_bits(1, 16, 0));
    assert_eq!(fp32_to_fp16_rne(1.5f32), fp16_bits(0, 15, 0b10_0000_0000));
}

#[test]
fn fp32_to_fp16_ties_to_even() {
    let half = 1u32 << 12;
    let down = f32::from_bits(0x3f80_0000 | half);
    assert_eq!(
        fp32_to_fp16_rne(down),
        fp16_bits(0, 15, 0),
        "tie with even keeps down"
    );
    let odd_base = 0x3f80_0000 | (1u32 << 13);
    let up = f32::from_bits(odd_base | half);
    assert_eq!(
        fp32_to_fp16_rne(up),
        fp16_bits(0, 15, 0b00_0000_0010),
        "tie with odd rounds up"
    );
    let above = f32::from_bits(0x3f80_0000 | (half + 1));
    assert_eq!(
        fp32_to_fp16_rne(above),
        fp16_bits(0, 15, 0b00_0000_0001),
        "above half rounds up"
    );
}

#[test]
fn fp32_to_fp16_overflow_to_inf() {
    let got = fp32_to_fp16_rne(70000.0f32);
    assert_eq!((got >> 10) & 0x1f, 0x1f, "exp all ones");
    assert_eq!(got & 0x3ff, 0, "Inf mantissa zero");
    assert_eq!(got >> 15, 0, "positive");
    assert_eq!(fp32_to_fp16_rne(-70000.0f32), fp16_bits(1, 0x1f, 0));
    assert_eq!(fp32_to_fp16_rne(f32::INFINITY), fp16_bits(0, 0x1f, 0));
    assert_eq!(fp32_to_fp16_rne(65504.0f32), fp16_bits(0, 30, 0x3ff));
}

#[test]
fn fp32_to_fp16_subnormal_results() {
    assert_eq!(fp32_to_fp16_rne(2.0f32.powi(-14)), fp16_bits(0, 1, 0));
    assert_eq!(fp32_to_fp16_rne(2.0f32.powi(-24)), fp16_bits(0, 0, 1));
    assert_eq!(
        fp32_to_fp16_rne(2.0f32.powi(-15)),
        fp16_bits(0, 0, 0b10_0000_0000)
    );
    assert_eq!(fp32_to_fp16_rne(2.0f32.powi(-25)), fp16_bits(0, 0, 0));
    assert_eq!(fp32_to_fp16_rne(3.0 * 2.0f32.powi(-26)), fp16_bits(0, 0, 1));
    assert_eq!(fp32_to_fp16_rne(2.0f32.powi(-26)), fp16_bits(0, 0, 0));
}

#[test]
fn fp32_to_fp16_nan_propagates() {
    let got = fp32_to_fp16_rne(f32::NAN);
    assert_eq!((got >> 10) & 0x1f, 0x1f, "NaN exp all ones");
    assert!(got & 0x3ff != 0, "NaN mantissa nonzero");
    let neg = fp32_to_fp16_rne(-f32::NAN);
    assert_eq!(neg >> 15, 1, "negative NaN sign preserved");
    assert!(neg & 0x3ff != 0, "NaN mantissa nonzero");
}

#[test]
fn fp32_to_fp16_roundtrips_via_f32_as_f16_when_representable() {
    for &v in &[
        0.0f32, 1.0, -1.0, 0.5, 0.25, 3.0, 100.0, 0.125, 2048.0, -448.0,
    ] {
        let h = fp32_to_fp16_rne(v);
        let s = if h >> 15 == 1 { -1.0f32 } else { 1.0 };
        let e = ((h >> 10) & 0x1f) as i32;
        let m = (h & 0x3ff) as f32;
        let decoded = if e == 0 {
            s * m * 2.0f32.powi(-24)
        } else {
            s * (1.0 + m / 1024.0) * 2.0f32.powi(e - 15)
        };
        assert_eq!(decoded, v, "exact value {v} not preserved (h={h:#06x})");
    }
}

fn fp32_parts(f: f32) -> (u32, u32, u32) {
    let b = f.to_bits();
    ((b >> 31) & 1, (b >> 23) & 0xff, b & 0x007f_ffff)
}

#[test]
fn fp8_e5m2_to_fp32_zero_signed_zero_and_normals() {
    assert_eq!(fp8_e5m2_to_fp32(bf8(0, 0b00000, 0b00)).to_bits(), 0);
    assert_eq!(fp8_e5m2_to_fp32(bf8(1, 0b00000, 0b00)).to_bits(), 1 << 31);
    assert_eq!(fp8_e5m2_to_fp32(bf8(0, 0b01111, 0b00)), 1.0f32);
    assert_eq!(fp8_e5m2_to_fp32(bf8(0, 0b01111, 0b10)), 1.5f32);
    assert_eq!(fp8_e5m2_to_fp32(bf8(1, 0b10000, 0b00)), -2.0f32);
    assert_eq!(fp8_e5m2_to_fp32(bf8(0, 0b11110, 0b11)), 57344.0f32);
}

#[test]
fn fp8_e5m2_to_fp32_subnormals_renormalise_exactly() {
    let v = fp8_e5m2_to_fp32(bf8(0, 0b00000, 0b01));
    assert_eq!(v, 2.0f32.powi(-16));
    assert_eq!(fp32_parts(v), (0, 111, 0));
    assert_eq!(fp8_e5m2_to_fp32(bf8(0, 0b00000, 0b10)), 2.0f32.powi(-15));
    let v3 = fp8_e5m2_to_fp32(bf8(0, 0b00000, 0b11));
    assert_eq!(v3, 3.0 * 2.0f32.powi(-16));
    assert_eq!(fp32_parts(v3), (0, 112, 1 << 22));
    assert_eq!(fp8_e5m2_to_fp32(bf8(1, 0b00000, 0b01)), -(2.0f32.powi(-16)));
}

#[test]
fn fp8_e5m2_to_fp32_inf_and_nan() {
    assert_eq!(fp8_e5m2_to_fp32(bf8(0, 0b11111, 0b00)), f32::INFINITY);
    assert_eq!(fp8_e5m2_to_fp32(bf8(1, 0b11111, 0b00)), f32::NEG_INFINITY);
    for m in [0b01u8, 0b10, 0b11] {
        let v = fp8_e5m2_to_fp32(bf8(0, 0b11111, m));
        assert!(v.is_nan(), "mm={m:#04b} should be NaN");
        let (s, e, frac) = fp32_parts(v);
        assert_eq!((s, e), (0, 0xff));
        assert!(frac != 0, "NaN mantissa nonzero");
    }
    assert!(fp8_e5m2_to_fp32(bf8(1, 0b11111, 0b10)).is_nan());
    assert_eq!(fp32_parts(fp8_e5m2_to_fp32(bf8(1, 0b11111, 0b10))).0, 1);
}

#[test]
fn fp8_e4m3_to_fp32_zero_normals_and_max() {
    assert_eq!(fp8_e4m3_to_fp32(hf8(0, 0b0000, 0b000)).to_bits(), 0);
    assert_eq!(fp8_e4m3_to_fp32(hf8(1, 0b0000, 0b000)).to_bits(), 1 << 31);
    assert_eq!(fp8_e4m3_to_fp32(hf8(0, 0b0111, 0b000)), 1.0f32);
    assert_eq!(fp8_e4m3_to_fp32(hf8(0, 0b0111, 0b100)), 1.5f32);
    assert_eq!(fp8_e4m3_to_fp32(hf8(0, 0b1111, 0b110)), 448.0f32);
    assert_eq!(fp8_e4m3_to_fp32(hf8(0, 0b1111, 0b100)), 384.0f32);
}

#[test]
fn fp8_e4m3_to_fp32_subnormals_and_nan() {
    let v = fp8_e4m3_to_fp32(hf8(0, 0b0000, 0b001));
    assert_eq!(v, 2.0f32.powi(-9));
    assert_eq!(fp32_parts(v), (0, 118, 0));
    let v7 = fp8_e4m3_to_fp32(hf8(1, 0b0000, 0b111));
    assert_eq!(v7, -(7.0 * 2.0f32.powi(-9)));
    assert_eq!(fp32_parts(v7), (1, 120, 0b11 << 21));
    let nan = fp8_e4m3_to_fp32(hf8(0, 0b1111, 0b111));
    assert!(nan.is_nan());
    assert_eq!(fp32_parts(nan).1, 0xff);
    assert!(fp8_e4m3_to_fp32(hf8(1, 0b1111, 0b111)).is_nan());
    assert_eq!(fp32_parts(fp8_e4m3_to_fp32(hf8(1, 0b1111, 0b111))).0, 1);
}

#[test]
fn saturating_converts_of_non_nan_inputs_are_finite() {
    for bits in 0u16..=u16::MAX {
        let nan = (bits >> 10) & 0x1f == 0x1f && bits & 0x3ff != 0;
        let b = fp16_to_bf8(bits, true);
        let h = fp16_to_hf8(bits, true);
        let hb = fp16_to_hf8_biased(bits, 0x80, true);
        if nan {
            assert_eq!((b >> 2) & 0x1f, 0x1f);
            assert_ne!(b & 3, 0);
            assert_eq!(h & 0x7f, 0x7f);
            assert_eq!(hb & 0x7f, 0x7f);
        } else {
            assert_ne!((b >> 2) & 0x1f, 0x1f, "{bits:#06x}");
            assert_ne!(h & 0x7f, 0x7f, "{bits:#06x}");
            assert_ne!(hb & 0x7f, 0x7f, "{bits:#06x}");
        }
    }
}

#[test]
fn round_to_odd_marks_inexact_values() {
    // 1 + 2^-10 is not an HF8 value: nearest-even drops the tail, round-to-odd sets the lsb.
    let bits = 0x3F80_2000u32;
    assert_eq!(fp32_to_fp8_e4m3(bits, Fp8RoundMode::Rtne, false), hf8(0, 7, 0));
    assert_eq!(fp32_to_fp8_e4m3(bits, Fp8RoundMode::Rto, false), hf8(0, 7, 1));
    // 1.25 is exact in HF8 (mantissa 0b010): round-to-odd leaves it alone.
    assert_eq!(fp32_to_fp8_e4m3(1.25f32.to_bits(), Fp8RoundMode::Rto, false), hf8(0, 7, 2));
    // Every inexact normal input rounds to an odd mantissa unless it saturates.
    for m in 1u32..0x10_0000 {
        let bits = 0x3F80_0000u32 | m;
        let r = fp32_to_fp8_e4m3(bits, Fp8RoundMode::Rto, false);
        assert_eq!(r & 1, 1, "{bits:#x}");
    }
}

#[test]
fn bf8_widen_then_narrow_is_identity_except_nans() {
    for b in 0u8..=255 {
        let is_nan = (b >> 2) & 0x1f == 31 && b & 3 != 0;
        if is_nan {
            continue;
        }
        let wide = ace::fp32::fp8_e5m2_to_fp32(b);
        assert_eq!(fp32_to_fp8_e5m2_biased(wide, Fp8RoundMode::Rtne, false, 0), b, "{b:#04x}");
    }
}
