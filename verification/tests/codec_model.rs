//! The narrowing converts checked against a value-level model: decode the source to its exact
//! value (every FP16 and FP32 value is exact in `f64`), round that value on the target's
//! unbounded grid, then apply the overflow rule and encode. FP16 inputs are covered
//! exhaustively, FP32 inputs on a dense sample.
use ace::fp32::{
    fp32_to_bf16_rne, fp32_to_fp16_rne, fp32_to_fp8_e4m3_biased, fp32_to_fp8_e5m2_biased,
    fp8_e4m3_to_fp32, fp8_e5m2_to_fp32, int32_to_fp32_bits, Fp8RoundMode,
};
use ace::fp8::{fp16_to_bf8, fp16_to_bf8_biased, fp16_to_hf8, fp16_to_hf8_biased, hf8_to_fp16};

#[derive(Clone, Copy)]
struct Fmt {
    mbits: i32,
    emin: i32,
    bias: i32,
    ebits: i32,
}

const E5M2: Fmt = Fmt { mbits: 2, emin: -14, bias: 15, ebits: 5 };
const E4M3: Fmt = Fmt { mbits: 3, emin: -6, bias: 7, ebits: 4 };
const F16: Fmt = Fmt { mbits: 10, emin: -14, bias: 15, ebits: 5 };
const B16: Fmt = Fmt { mbits: 7, emin: -126, bias: 127, ebits: 8 };

#[derive(Clone, Copy)]
enum Mode {
    Nearest,
    Odd,
    /// Add `b * step / 256` (step = the kept lsb), then truncate.
    Window(u32),
    /// Add `b` units of the FP32 source's lsb, then truncate.
    SourceLsb(u32),
}

fn decode(bits: u64, f: Fmt) -> f64 {
    let m = bits & ((1 << f.mbits) - 1);
    let e = (bits >> f.mbits) & ((1 << f.ebits) - 1);
    let mag = if e == 0 {
        m as f64 * 2f64.powi(f.emin - f.mbits)
    } else {
        (1.0 + m as f64 / 2f64.powi(f.mbits)) * 2f64.powi(e as i32 - f.bias)
    };
    if (bits >> (f.mbits + f.ebits)) & 1 == 1 {
        -mag
    } else {
        mag
    }
}

fn floor_log2(v: f64) -> i32 {
    let mut e = 0;
    while 2f64.powi(e) > v {
        e -= 1;
    }
    while 2f64.powi(e + 1) <= v {
        e += 1;
    }
    e
}

/// Round the positive value `v` on the unbounded grid of `f`; returns the kept significand and
/// the lsb exponent. `src_lsb` is the exponent of the source's least significant bit.
fn round_grid(v: f64, f: Fmt, mode: Mode, src_lsb: i32) -> (u64, i32) {
    let t = floor_log2(v).max(f.emin) - f.mbits;
    let step = 2f64.powi(t);
    let q = (v / step).floor();
    let r = v - q * step;
    let q = match mode {
        Mode::Nearest => {
            if r > step / 2.0 || (r == step / 2.0 && q % 2.0 == 1.0) {
                q + 1.0
            } else {
                q
            }
        },
        Mode::Odd => {
            if r != 0.0 && q % 2.0 == 0.0 {
                q + 1.0
            } else {
                q
            }
        },
        Mode::Window(b) => ((v + b as f64 * step / 256.0) / step).floor(),
        Mode::SourceLsb(b) => ((v + b as f64 * 2f64.powi(src_lsb)) / step).floor(),
    };
    (q as u64, t)
}

/// Encode the magnitude `k * 2^t` (which fits the format) with sign `s`.
fn encode(s: u64, k: u64, t: i32, f: Fmt) -> u64 {
    let sub_t = f.emin - f.mbits;
    let mut k = k;
    let mut t = t;
    while t > sub_t && k < (1 << f.mbits) {
        k *= 2;
        t -= 1;
    }
    while k >= (2 << f.mbits) {
        assert_eq!(k % 2, 0);
        k /= 2;
        t += 1;
    }
    let (e, m) = if k < (1 << f.mbits) {
        assert_eq!(t, sub_t);
        (0, k)
    } else {
        ((t - sub_t + 1) as u64, k - (1 << f.mbits))
    };
    (s << (f.mbits + f.ebits)) | (e << f.mbits) | m
}

/// Largest finite magnitude of the FP8 formats.
fn max_finite(f: Fmt) -> f64 {
    if f.ebits == 5 { 57344.0 } else { 448.0 }
}

/// FP8 result for a finite nonzero value `v` (sign `s`).
fn to_fp8(s: u64, v: f64, f: Fmt, mode: Mode, src_lsb: i32, sat: bool) -> u8 {
    let (k, t) = round_grid(v, f, mode, src_lsb);
    let r = k as f64 * 2f64.powi(t);
    let code = if r > max_finite(f) {
        let max = if f.ebits == 5 { 0x7b } else { 0x7e };
        let over = if f.ebits == 5 { 0x7c } else { 0x7f };
        (s << 7) | if sat { max } else { over }
    } else {
        encode(s, k, t, f)
    };
    code as u8
}

fn fp16_model(bits: u16, f: Fmt, sat: bool, mode: Mode) -> u8 {
    let s = (bits >> 15) as u64;
    let e = (bits >> 10) & 0x1f;
    let m = bits & 0x3ff;
    let max = if f.ebits == 5 { 0x7b } else { 0x7e };
    let over = if f.ebits == 5 { 0x7c } else { 0x7f };
    if e == 31 {
        if m != 0 {
            return if f.ebits == 5 {
                ((s << 7) | 0x7c | 2 | ((m >> 8) & 1) as u64) as u8
            } else {
                ((s << 7) | 0x7f) as u8
            };
        }
        return ((s << 7) | if sat { max } else { over }) as u8;
    }
    if e == 0 && m == 0 {
        return (s << 7) as u8;
    }
    let v = decode(bits as u64, F16).abs();
    to_fp8(s, v, f, mode, 0, sat)
}

fn fp32_model(bits: u32, f: Fmt, sat: bool, mode: Mode) -> u8 {
    let s = (bits >> 31) as u64;
    let e = (bits >> 23) & 0xff;
    let m = bits & 0x7f_ffff;
    let max = if f.ebits == 5 { 0x7b } else { 0x7e };
    let over = if f.ebits == 5 { 0x7c } else { 0x7f };
    if e == 255 {
        if m != 0 {
            return if f.ebits == 5 {
                ((s << 7) | 0x7e | ((m >> 21) & 1) as u64) as u8
            } else {
                ((s << 7) | 0x7f) as u8
            };
        }
        return ((s << 7) | if sat { max } else { over }) as u8;
    }
    if e == 0 {
        return (s << 7) as u8;
    }
    let v = f32::from_bits(bits & 0x7fff_ffff) as f64;
    to_fp8(s, v, f, mode, e as i32 - 150, sat)
}

/// FP32 -> FP16 / BF16, round to nearest even, with IEEE infinities.
fn fp32_narrow_model(bits: u32, f: Fmt) -> u16 {
    let s = (bits >> 31) as u64;
    let e = (bits >> 23) & 0xff;
    let m = bits & 0x7f_ffff;
    let inf = ((1u64 << f.ebits) - 1) << f.mbits;
    if e == 255 {
        if m == 0 {
            return ((s << 15) | inf) as u16;
        }
        return if f.ebits == 5 {
            ((s << 15) | inf | 0x200) as u16
        } else {
            ((bits >> 16) as u16) | 0x40
        };
    }
    if e == 0 && m == 0 {
        return (s << 15) as u16;
    }
    let v = f32::from_bits(bits & 0x7fff_ffff) as f64;
    let (k, t) = round_grid(v, f, Mode::Nearest, 0);
    let r = k as f64 * 2f64.powi(t);
    let max = (2.0 - 2f64.powi(-f.mbits)) * 2f64.powi((1 << f.ebits) - 2 - f.bias);
    if r > max {
        return ((s << 15) | inf) as u16;
    }
    encode(s, k, t, f) as u16
}

/// A deterministic spread of FP32 patterns: every exponent with edge and pseudo-random
/// mantissas, both signs.
fn fp32_samples() -> Vec<u32> {
    let mut out = Vec::new();
    let mut x: u32 = 0x1234_5678;
    for e in 0u32..256 {
        for &m in &[0u32, 1, 0x7f_ffff, 0x40_0000, 0x10_0000, 0x8_0000, 0x18_0000, 0xc_0000, 0x30_0000] {
            for s in 0u32..2 {
                out.push((s << 31) | (e << 23) | m);
            }
        }
        for _ in 0..24 {
            x ^= x << 13;
            x ^= x >> 17;
            x ^= x << 5;
            out.push((x & 0x807f_ffff) | (e << 23));
        }
    }
    out
}

#[test]
fn fp16_to_fp8_nearest_matches_model_exhaustively() {
    for bits in 0u16..=u16::MAX {
        for sat in [false, true] {
            assert_eq!(fp16_to_bf8(bits, sat), fp16_model(bits, E5M2, sat, Mode::Nearest), "bf8 {bits:#06x} sat={sat}");
            assert_eq!(fp16_to_hf8(bits, sat), fp16_model(bits, E4M3, sat, Mode::Nearest), "hf8 {bits:#06x} sat={sat}");
        }
    }
}

#[test]
fn fp16_to_fp8_bias_matches_model_exhaustively() {
    for bits in 0u16..=u16::MAX {
        for &bias in &[0u8, 0x7f, 0x80, 0xff] {
            for sat in [false, true] {
                assert_eq!(
                    fp16_to_bf8_biased(bits, bias, sat),
                    fp16_model(bits, E5M2, sat, Mode::Window(bias as u32)),
                    "bf8 {bits:#06x} bias={bias:#04x} sat={sat}"
                );
                assert_eq!(
                    fp16_to_hf8_biased(bits, bias, sat),
                    fp16_model(bits, E4M3, sat, Mode::Window(bias as u32)),
                    "hf8 {bits:#06x} bias={bias:#04x} sat={sat}"
                );
            }
        }
    }
}

#[test]
fn fp32_to_fp8_matches_model() {
    for bits in fp32_samples() {
        for sat in [false, true] {
            for (mode, m5, m4) in [
                (Fp8RoundMode::Rtne, Mode::Nearest, Mode::Nearest),
                (Fp8RoundMode::Rto, Mode::Nearest, Mode::Odd),
            ] {
                assert_eq!(
                    fp32_to_fp8_e5m2_biased(bits, mode, sat, 0),
                    fp32_model(bits, E5M2, sat, m5),
                    "e5m2 {bits:#010x} sat={sat}"
                );
                assert_eq!(
                    fp32_to_fp8_e4m3_biased(bits, mode, sat, 0),
                    fp32_model(bits, E4M3, sat, m4),
                    "e4m3 {bits:#010x} sat={sat}"
                );
            }
            for &bias in &[0u32, 1, 0x7_ffff, 0x8_0000, 0xf_ffff, 0x10_0000, 0x1f_ffff, 0xffff_ffff] {
                assert_eq!(
                    fp32_to_fp8_e5m2_biased(bits, Fp8RoundMode::Bias, sat, bias),
                    fp32_model(bits, E5M2, sat, Mode::SourceLsb(bias & 0x1f_ffff)),
                    "e5m2 {bits:#010x} bias={bias:#x} sat={sat}"
                );
                assert_eq!(
                    fp32_to_fp8_e4m3_biased(bits, Fp8RoundMode::Bias, sat, bias),
                    fp32_model(bits, E4M3, sat, Mode::SourceLsb(bias & 0xf_ffff)),
                    "e4m3 {bits:#010x} bias={bias:#x} sat={sat}"
                );
            }
        }
    }
}

#[test]
fn fp32_to_fp16_and_bf16_match_model() {
    for bits in fp32_samples() {
        assert_eq!(fp32_to_fp16_rne(bits), fp32_narrow_model(bits, F16), "fp16 {bits:#010x}");
        assert_eq!(fp32_to_bf16_rne(bits), fp32_narrow_model(bits, B16), "bf16 {bits:#010x}");
    }
}

#[test]
fn fp8_decodes_match_model_for_all_bytes() {
    for b in 0u8..=255 {
        let e5 = f32::from_bits(fp8_e5m2_to_fp32(b));
        let e4 = f32::from_bits(fp8_e4m3_to_fp32(b));
        let exp5 = (b >> 2) & 0x1f;
        if exp5 == 31 {
            assert_eq!(e5.is_nan(), b & 3 != 0);
        } else {
            assert_eq!(e5 as f64, decode(b as u64, E5M2));
            assert_eq!(e5.is_sign_negative(), b >> 7 == 1);
        }
        if b & 0x7f == 0x7f {
            assert!(e4.is_nan());
        } else {
            assert_eq!(e4 as f64, decode(b as u64, E4M3));
            assert_eq!(e4.is_sign_negative(), b >> 7 == 1);
            let h = hf8_to_fp16(b);
            assert_eq!(decode(h as u64, F16), decode(b as u64, E4M3));
        }
    }
}

#[test]
fn int32_to_fp32_matches_native_cast() {
    let mut x: u32 = 0x9e37_79b9;
    let mut samples = vec![0i32, 1, -1, i32::MAX, i32::MIN, 16_777_216, 16_777_217, -16_777_217, 16_777_219, 33_554_435];
    for _ in 0..100_000 {
        x ^= x << 13;
        x ^= x >> 17;
        x ^= x << 5;
        samples.push(x as i32);
        samples.push((x >> (x % 31)) as i32);
    }
    for v in samples {
        assert_eq!(int32_to_fp32_bits(v), (v as f32).to_bits(), "{v}");
    }
}
