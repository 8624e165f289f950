//! FP32 conversions, on raw IEEE binary32 bit patterns.
//!
//! * FP32 -> FP16 and FP32 -> BF16 round to nearest, ties to even, honour FP32 subnormals
//!   (DAZ = 0, FTZ = 0), overflow to infinity and quiet NaNs.
//! * INT32 -> FP32 rounds to nearest even beyond 2^24.
//! * BF8 / HF8 -> FP32 are exact.
//! * FP32 -> BF8 / HF8 treat FP32 subnormal inputs as zero (DAZ = 1) and round once from the
//!   exact FP32 value under one of three rules ([`Fp8RoundMode`]): nearest-even, round-to-odd
//!   (HF8 only; BF8 folds it into nearest-even), or bias rounding, which adds the low bits of a
//!   bias term at the FP32 significand's least-significant position and truncates.
use crate::fp8::{
    lemma_fp8_byte_fields, lemma_fp8_code_fields, lemma_fp8_rounds_to_unique, fp16_exp_field, fp16_is_finite, fp16_mant_field, fp16_sign, fp16_units, fp8_exp_field,
    fp8_is_finite, fp8_mant_field, fp8_max_normal_code, fp8_overflow_code, fp8_rounds_to,
    fp8_sign, fp8_units, Fp8Format,
};
use crate::rounding::{
    lemma_rounded_units_representable, lemma_round_to_odd_mantissa_odd, rounds_inexactly, lemma_fp_units_injective, encode_fields, fmt_sig, fp_units, lemma_fp_units_exceeds, lemma_fp_units_sig,
    lemma_fp_units_strict, lemma_log2_floor_lt, lemma_log2_floor_unique, lemma_pow2_increases_le,
    lemma_rounded_units_exact, log2_floor, round_significand, rounded_units, Rounding,
};
use vstd::arithmetic::mul::{lemma_mul_inequality, lemma_mul_is_associative, lemma_mul_strict_inequality};
use vstd::arithmetic::power2::{
    lemma2_to64, lemma2_to64_rest, lemma_pow2_adds, lemma_pow2_pos, lemma_pow2_strictly_increases, pow2,
};
use vstd::prelude::*;

verus! {

/// Sign bit of an FP32 pattern.
pub open spec fn fp32_sign(bits: u32) -> u32 {
    bits >> 31
}

/// Exponent field of an FP32 pattern.
pub open spec fn fp32_exp_field(bits: u32) -> nat {
    ((bits >> 23) & 0xff) as nat
}

/// Mantissa field of an FP32 pattern.
pub open spec fn fp32_mant_field(bits: u32) -> nat {
    (bits & 0x7f_ffff) as nat
}

/// Whether an FP32 pattern is finite.
pub open spec fn fp32_is_finite(bits: u32) -> bool {
    fp32_exp_field(bits) != 255
}

/// Magnitude of a finite FP32 pattern in units of its smallest subnormal `2^-149`.
pub open spec fn fp32_units(bits: u32) -> nat {
    fp_units(fp32_exp_field(bits), fp32_mant_field(bits), 23)
}

/// Integer significand of a finite FP32 pattern (implicit bit made explicit).
pub open spec fn fp32_sig(bits: u32) -> nat {
    fmt_sig(fp32_exp_field(bits), fp32_mant_field(bits), 23)
}

/// Scale of the least-significant significand bit of a finite FP32 pattern.
pub open spec fn fp32_exp(bits: u32) -> int {
    if fp32_exp_field(bits) == 0 {
        -149
    } else {
        fp32_exp_field(bits) - 150
    }
}

/// Sign bit of a BF16 pattern.
pub open spec fn bf16_sign(bits: u16) -> u32 {
    (bits >> 15) as u32
}

/// Exponent field of a BF16 pattern.
pub open spec fn bf16_exp_field(bits: u16) -> nat {
    ((bits >> 7) & 0xff) as nat
}

/// Mantissa field of a BF16 pattern.
pub open spec fn bf16_mant_field(bits: u16) -> nat {
    (bits & 0x7f) as nat
}

/// Magnitude of a finite BF16 pattern in units of its smallest subnormal `2^-133`.
pub open spec fn bf16_units(bits: u16) -> nat {
    fp_units(bf16_exp_field(bits), bf16_mant_field(bits), 7)
}

/// FP32 -> FP16, round to nearest even: NaN to a quiet NaN (`0x7e00`, sign kept), infinity and
/// overflow to infinity, zeros keep their sign, subnormal FP32 inputs honoured.
pub open spec fn fp32_to_fp16_post(bits: u32, r: u16) -> bool {
    let s = fp32_sign(bits);
    let ef = fp32_exp_field(bits);
    let m = fp32_mant_field(bits);
    if ef == 255 {
        r == (if m == 0 {
            s * 0x8000 + 0x7c00
        } else {
            s * 0x8000 + 0x7e00
        }) as u16
    } else if ef == 0 && m == 0 {
        r == (s * 0x8000) as u16
    } else {
        let u = rounded_units(fp32_sig(bits), fp32_exp(bits), 10, -14, Rounding::NearestEven);
        if u > fp_units(30, 1023, 10) {
            r == (s * 0x8000 + 0x7c00) as u16
        } else {
            fp16_is_finite(r) && fp16_sign(r) == s && fp16_units(r) == u
        }
    }
}

/// FP32 -> BF16, round to nearest even: NaN keeps its sign and top payload bits and is quieted,
/// infinity and overflow give infinity, zeros keep their sign, subnormal FP32 inputs honoured.
pub open spec fn fp32_to_bf16_post(bits: u32, r: u16) -> bool {
    let s = fp32_sign(bits);
    let ef = fp32_exp_field(bits);
    let m = fp32_mant_field(bits);
    if ef == 255 {
        r == (if m == 0 {
            (s * 0x8000 + 0x7f80) as u16
        } else {
            (#[verifier::truncate] ((bits >> 16) as u16)) | 0x40
        })
    } else if ef == 0 && m == 0 {
        r == (s * 0x8000) as u16
    } else {
        let u = rounded_units(fp32_sig(bits), fp32_exp(bits), 7, -126, Rounding::NearestEven);
        if u > fp_units(254, 127, 7) {
            r == (s * 0x8000 + 0x7f80) as u16
        } else {
            bf16_exp_field(r) <= 254 && bf16_sign(r) == s && bf16_units(r) == u
        }
    }
}

/// Decoded FP32 fields: `(sign, exponent field, mantissa field)`.
fn fp32_fields(bits: u32) -> (res: (u32, u32, u32))
    ensures
        res.0 == fp32_sign(bits),
        res.0 <= 1,
        res.1 == fp32_exp_field(bits),
        res.1 <= 255,
        res.2 == fp32_mant_field(bits),
        res.2 < 0x80_0000,
{
    proof {
        assert(bits >> 31 <= 1 && (bits >> 23) & 0xff <= 255 && bits & 0x7f_ffff < 0x80_0000)
            by (bit_vector);
    }
    (bits >> 31, (bits >> 23) & 0xff, bits & 0x7f_ffff)
}

/// Assemble an FP32 pattern from its sign bit and in-range fields.
fn fp32_assemble(sign: u32, exp_field: u32, mant_field: u64) -> (r: u32)
    requires
        sign <= 1,
        exp_field < 256,
        mant_field < 0x80_0000,
    ensures
        fp32_sign(r) == sign,
        fp32_exp_field(r) == exp_field,
        fp32_mant_field(r) == mant_field,
{
    let m = mant_field as u32;
    proof {
        assert(((sign << 31u32) | (exp_field << 23u32) | m) >> 31u32 == sign && (((sign << 31u32)
            | (exp_field << 23u32) | m) >> 23u32) & 0xff == exp_field && ((sign << 31u32) | (
        exp_field << 23u32) | m) & 0x7f_ffff == m) by (bit_vector)
            requires
                sign <= 1,
                exp_field < 256,
                m < 0x80_0000,
        ;
    }
    (sign << 31) | (exp_field << 23) | m
}

/// Assemble a BF16 pattern from its sign bit and in-range fields.
fn bf16_assemble(sign: u32, exp_field: u32, mant_field: u64) -> (r: u16)
    requires
        sign <= 1,
        exp_field < 256,
        mant_field < 0x80,
    ensures
        bf16_sign(r) == sign,
        bf16_exp_field(r) == exp_field,
        bf16_mant_field(r) == mant_field,
{
    let s = sign as u16;
    let e = exp_field as u16;
    let m = mant_field as u16;
    proof {
        assert(((((s << 15u16) | (e << 7u16) | m) >> 15u16) as u32 == s as u32) && ((((s
            << 15u16) | (e << 7u16) | m) >> 7u16) & 0xff == e) && (((s << 15u16) | (e << 7u16)
            | m) & 0x7f == m)) by (bit_vector)
            requires
                s <= 1,
                e < 256,
                m < 0x80,
        ;
    }
    (s << 15) | (e << 7) | m
}

/// The exact magnitude of a finite nonzero FP32 pattern as `sig * 2^exp`.
fn fp32_magnitude(exp_field: u32, mant_field: u32) -> (res: (u64, i32))
    requires
        exp_field < 255,
        mant_field < 0x80_0000,
        !(exp_field == 0 && mant_field == 0),
    ensures
        res.0 == fmt_sig(exp_field as nat, mant_field as nat, 23),
        res.1 == (if exp_field == 0 {
            -149
        } else {
            exp_field - 150
        }),
        1 <= res.0 < 0x100_0000,
{
    proof {
        assert(pow2(23) == 0x80_0000) by {
            lemma2_to64();
        }
    }
    if exp_field == 0 {
        (mant_field as u64, -149)
    } else {
        (0x80_0000 + mant_field as u64, exp_field as i32 - 150)
    }
}

/// A sign bit placed at the top of a 16-bit pattern, alone or with the all-ones exponents of
/// FP16 and BF16.
proof fn lemma_sign_bit16(s: u16)
    by (bit_vector)
    requires
        s <= 1,
    ensures
        (s << 15u16) == (s * 0x8000) as u16,
        (s << 15u16) | (0x1fu16 << 10u16) == (s * 0x8000 + 0x7c00) as u16,
        (s << 15u16) | (0x1fu16 << 10u16) | 0x200 == (s * 0x8000 + 0x7e00) as u16,
        (s << 15u16) | 0x7f80u16 == (s * 0x8000 + 0x7f80) as u16,
{
}

/// A sign bit placed at the top of a 32-bit pattern, alone or with the FP32 infinity and quiet
/// NaN exponent/mantissa bits.
proof fn lemma_sign_bit32(s: u32)
    by (bit_vector)
    requires
        s <= 1,
    ensures
        (s << 31u32) == (s * 0x8000_0000) as u32,
        (s << 31u32) | (0xffu32 << 23u32) == (s * 0x8000_0000 + 0x7f80_0000) as u32,
        (s << 31u32) | (0xffu32 << 23u32) | (1u32 << 22u32) == (s * 0x8000_0000 + 0x7fc0_0000) as u32,
        ((s << 31u32) >> 23u32) & 0xff == 0,
        (s << 31u32) & 0x7f_ffff == 0,
        (s << 31u32) >> 31u32 == s,
        (((s * 0x8000_0000 + 0x7f80_0000) as u32) >> 23u32) & 0xff == 0xff,
        ((s * 0x8000_0000 + 0x7f80_0000) as u32) & 0x7f_ffff == 0,
        ((s * 0x8000_0000 + 0x7f80_0000) as u32) >> 31u32 == s,
{
}

/// FP32 -> FP16 under round-to-nearest-even (DAZ = 0, FTZ = 0). NaN becomes the quiet NaN
/// `S.11111.1000000000`, infinity and any magnitude rounding past 65504 become infinity.
pub fn fp32_to_fp16_rne(bits: u32) -> (r: u16)
    ensures
        fp32_to_fp16_post(bits, r),
{
    let (sign, exp, mant) = fp32_fields(bits);
    let s16 = sign as u16;
    if exp == 0xff {
        proof {
            lemma_sign_bit16(s16);
        }
        if mant == 0 {
            return (s16 << 15) | (0x1f << 10);
        }
        return (s16 << 15) | (0x1f << 10) | 0x200;
    }
    proof {
        lemma_sign_bit16(s16);
    }
    if exp == 0 && mant == 0 {
        return s16 << 15;
    }
    let (sig, e) = fp32_magnitude(exp, mant);
    let (k, t) = round_significand(sig, e, 10, -14, Rounding::NearestEven);
    let (ef, m) = encode_fields(k, t, 10, -24);
    proof {
        assert(pow2(10) == 1024) by {
            lemma2_to64();
        }
        lemma_fp_units_exceeds(ef as nat, m as nat, 30, 1023, 10);
    }
    if ef >= 31 {
        // Overflow: FP16 has infinities, so the rounded magnitude becomes infinity.
        return (s16 << 15) | (0x1f << 10);
    }
    crate::fp8::fp16_assemble(s16, ef, m)
}

/// FP32 -> BF16 under round-to-nearest-even (DAZ = 0, FTZ = 0). NaN keeps its sign and top
/// seven payload bits with the quiet bit set; infinity and overflow give infinity.
pub fn fp32_to_bf16_rne(bits: u32) -> (r: u16)
    ensures
        fp32_to_bf16_post(bits, r),
{
    let (sign, exp, mant) = fp32_fields(bits);
    let s16 = sign as u16;
    proof {
        lemma_sign_bit16(s16);
    }
    if exp == 0xff {
        if mant == 0 {
            return (s16 << 15) | 0x7f80;
        }
        return (#[verifier::truncate] ((bits >> 16) as u16)) | 0x40;
    }
    if exp == 0 && mant == 0 {
        return s16 << 15;
    }
    let (sig, e) = fp32_magnitude(exp, mant);
    let (k, t) = round_significand(sig, e, 7, -126, Rounding::NearestEven);
    let (ef, m) = encode_fields(k, t, 7, -133);
    proof {
        assert(pow2(7) == 128) by {
            lemma2_to64();
        }
        lemma_fp_units_exceeds(ef as nat, m as nat, 254, 127, 7);
    }
    if ef >= 255 {
        return (s16 << 15) | 0x7f80;
    }
    bf16_assemble(sign, ef, m)
}

/// A magnitude below `2^200` units never reaches the FP32 infinity binade.
proof fn lemma_fp32_fields_finite(ef: nat, m: nat)
    requires
        m < pow2(23),
        fp_units(ef, m, 23) < pow2(200),
    ensures
        ef <= 254,
{
    assert(pow2(23) == 0x80_0000) by {
        lemma2_to64();
    }
    lemma_fp_units_exceeds(ef, m, 254, 0x7f_ffff, 23);
    lemma_pow2_pos(253);
    lemma_mul_inequality(pow2(23) as int, (pow2(23) + 0x7f_ffff) as int, pow2(253) as int);
    lemma_pow2_adds(23, 253);
    lemma_pow2_strictly_increases(200, 276);
}

/// Exact FP8 -> FP32 widening of a finite nonzero FP8 value with fields `(ef, m)`; `tmin_in`
/// is the FP8 format's subnormal step exponent and `shift` the power of two between the two
/// formats' subnormal steps.
fn fp8_widen_to_fp32(sign: u32, ef: u32, m: u32, mbits: u32, tmin_in: i32, Ghost(shift): Ghost<
    nat,
>) -> (r: u32)
    requires
        sign <= 1,
        ef <= 15 || (mbits == 2 && ef <= 30),
        mbits == 2 || mbits == 3,
        m < pow2(mbits as nat),
        !(ef == 0 && m == 0),
        tmin_in == -16 || tmin_in == -9,
        shift == tmin_in + 149,
    ensures
        fp32_is_finite(r),
        fp32_sign(r) == sign,
        fp32_units(r) == fp_units(ef as nat, m as nat, mbits as nat) * pow2(shift),
{
    proof {
        assert(pow2(2) == 4 && pow2(3) == 8) by {
            lemma2_to64();
        }
    }
    let one: u64 = if mbits == 2 {
        4
    } else {
        8
    };
    let sig: u64 = if ef == 0 {
        m as u64
    } else {
        one + m as u64
    };
    let e: i32 = (if ef == 0 {
        1
    } else {
        ef as i32
    }) - 1 + tmin_in;
    let ghost a: nat = (if ef == 0 {
        0
    } else {
        ef - 1
    }) as nat;
    proof {
        assert(pow2(4) == 16) by {
            lemma2_to64();
        }
        lemma_log2_floor_lt(sig as nat, 4);
        lemma_fp_units_sig(ef as nat, m as nat, mbits as nat);
        assert(sig == fmt_sig(ef as nat, m as nat, mbits as nat));
        lemma_rounded_units_exact(sig as nat, e as int, 23, -126, Rounding::NearestEven);
        lemma_pow2_adds(a, shift);
        assert((e + 149) as nat == a + shift);
        lemma_mul_is_associative(sig as int, pow2(a) as int, pow2(shift) as int);
    }
    let (k, t) = round_significand(sig, e, 23, -126, Rounding::NearestEven);
    let (f, mm) = encode_fields(k, t, 23, -149);
    proof {
        // The widened magnitude stays far below the FP32 infinity binade.
        let u8v = fp_units(ef as nat, m as nat, mbits as nat);
        lemma_fp_units_strict(ef as nat, m as nat, 31, 0, mbits as nat);
        assert(fp_units(31, 0, mbits as nat) == pow2(mbits as nat) * pow2(30));
        assert(pow2(3) * pow2(30) < pow2(34)) by {
            lemma2_to64();
            lemma2_to64_rest();
        }
        lemma_pow2_pos(shift);
        lemma_mul_strict_inequality(u8v as int, pow2(34) as int, pow2(shift) as int);
        lemma_pow2_adds(34, shift);
        lemma_pow2_strictly_increases(34 + shift, 200);
        lemma_fp32_fields_finite(f as nat, mm as nat);
        assert(pow2(23) == 0x80_0000) by {
            lemma2_to64();
        }
    }
    fp32_assemble(sign, f, mm)
}

/// `r` is the FP32 pattern of the BF8 byte `byte`: infinities map to infinities, the NaNs to
/// the FP32 quiet NaN (sign kept), and every finite value to the same sign and exactly the same
/// value (an FP32 unit `2^-149` is `2^-133` of a BF8 unit `2^-16`).
pub open spec fn bf8_to_fp32_post(byte: u8, r: u32) -> bool {
    &&& fp8_exp_field(Fp8Format::Bf8, byte) == 31 ==> r == (fp8_sign(byte) * 0x8000_0000 + (
    if fp8_mant_field(Fp8Format::Bf8, byte) == 0 {
        0x7f80_0000int
    } else {
        0x7fc0_0000int
    })) as u32
    &&& fp8_exp_field(Fp8Format::Bf8, byte) != 31 ==> {
        &&& fp32_is_finite(r)
        &&& fp32_sign(r) == fp8_sign(byte)
        &&& fp32_units(r) == fp8_units(Fp8Format::Bf8, byte) * pow2(133)
    }
}

/// Exact decode of one BF8 (E5M2) byte to the FP32 pattern of the same value: infinities map to
/// infinities, the NaNs `S.11111.{01,10,11}` to the FP32 quiet NaN (sign kept), subnormals are
/// renormalised.
pub fn fp8_e5m2_to_fp32(byte: u8) -> (r: u32)
    ensures
        bf8_to_fp32_post(byte, r),
{
    let sign = (byte >> 7) as u32;
    let exp = ((byte >> 2) & 0x1f) as u32;
    let mant = (byte & 0x03) as u32;
    proof {
        assert(((byte >> 7) as u32) <= 1 && ((byte >> 2) & 0x1f) < 32 && (byte & 3) < 4)
            by (bit_vector);
        assert(pow2(2) == 4) by {
            lemma2_to64();
        }
        lemma_sign_bit32(sign);
    }
    let sign_bit = sign << 31;
    if exp == 0x1f {
        if mant == 0 {
            return sign_bit | (0xff << 23);
        }
        return sign_bit | (0xff << 23) | (1 << 22);
    }
    if exp == 0 && mant == 0 {
        proof {
            assert(fp32_units(sign_bit) == 0);
            assert(fp8_exp_field(Fp8Format::Bf8, byte) == 0 ==> fp8_units(Fp8Format::Bf8, byte)
                == fp8_mant_field(Fp8Format::Bf8, byte));
        }
        return sign_bit;
    }
    fp8_widen_to_fp32(sign, exp, mant, 2, -16, Ghost(133))
}

/// Exact decode of one HF8 (E4M3) byte to the FP32 pattern of the same value: the sole NaN
/// `S.1111.111` maps to the FP32 quiet NaN (sign kept), subnormals are renormalised.
pub fn fp8_e4m3_to_fp32(byte: u8) -> (r: u32)
    ensures
        !fp8_is_finite(Fp8Format::Hf8, byte) ==> r == (fp8_sign(byte) * 0x8000_0000
            + 0x7fc0_0000) as u32,
        fp8_is_finite(Fp8Format::Hf8, byte) ==> {
            &&& fp32_is_finite(r)
            &&& fp32_sign(r) == fp8_sign(byte)
            &&& fp32_units(r) == fp8_units(Fp8Format::Hf8, byte) * pow2(140)
        },
{
    let sign = (byte >> 7) as u32;
    let exp = ((byte >> 3) & 0x0f) as u32;
    let mant = (byte & 0x07) as u32;
    proof {
        assert(((byte >> 7) as u32) <= 1 && ((byte >> 3) & 0xf) < 16 && (byte & 7) < 8)
            by (bit_vector);
        assert(pow2(3) == 8) by {
            lemma2_to64();
        }
        lemma_sign_bit32(sign);
    }
    let sign_bit = sign << 31;
    if exp == 0x0f && mant == 0x07 {
        return sign_bit | (0xff << 23) | (1 << 22);
    }
    if exp == 0 && mant == 0 {
        proof {
            assert(fp32_units(sign_bit) == 0);
            assert(fp8_exp_field(Fp8Format::Hf8, byte) == 0 ==> fp8_units(Fp8Format::Hf8, byte)
                == fp8_mant_field(Fp8Format::Hf8, byte));
        }
        return sign_bit;
    }
    fp8_widen_to_fp32(sign, exp, mant, 3, -9, Ghost(140))
}

/// The FP32 bit pattern `r` is `x` converted by `i32 as f32`: zero for zero, otherwise the sign of
/// `x` and its magnitude rounded to nearest even at 24 significant bits.
pub open spec fn int32_to_fp32_post(x: i32, r: u32) -> bool {
    &&& x == 0 ==> r == 0
    &&& x != 0 ==> {
        &&& fp32_is_finite(r)
        &&& fp32_sign(r) == (if x < 0 {
            1u32
        } else {
            0u32
        })
        &&& fp32_units(r) == rounded_units(
            (if x < 0 {
                -x
            } else {
                x as int
            }) as nat,
            0,
            23,
            -126,
            Rounding::NearestEven,
        )
    }
}

/// INT32 -> FP32 (the `i32 as f32` conversion): exact up to 2^24, round to nearest even beyond.
/// Returns the FP32 bit pattern.
pub fn int32_to_fp32_bits(x: i32) -> (r: u32)
    ensures
        int32_to_fp32_post(x, r),
{
    if x == 0 {
        return 0;
    }
    let sign: u32 = if x < 0 {
        1
    } else {
        0
    };
    let mag: u64 = if x < 0 {
        (0 - (x as i64)) as u64
    } else {
        x as u64
    };
    proof {
        assert(pow2(32) == 0x1_0000_0000) by {
            lemma2_to64();
        }
        lemma_log2_floor_lt(mag as nat, 32);
        assert(pow2(23) == 0x80_0000) by {
            lemma2_to64();
        }
    }
    let (k, t) = round_significand(mag, 0, 23, -126, Rounding::NearestEven);
    let (f, m) = encode_fields(k, t, 23, -149);
    proof {
        // k <= 2^24 and t <= 31 - 23, so the magnitude is below 2^(24 + 157).
        assert(t <= 8);
        lemma_pow2_increases_le((t + 149) as nat, 157);
        lemma_pow2_pos(157);
        lemma_mul_inequality(k as int, pow2(24) as int, pow2((t + 149) as nat) as int);
        lemma_mul_inequality(pow2(24) as int, pow2(24) as int, pow2((t + 149) as nat) as int);
        assert(pow2(24) * pow2((t + 149) as nat) <= pow2(24) * pow2(157)) by {
            vstd::arithmetic::mul::lemma_mul_left_inequality(
                pow2(24) as int,
                pow2((t + 149) as nat) as int,
                pow2(157) as int,
            );
        }
        lemma_pow2_adds(24, 157);
        lemma_pow2_strictly_increases(181, 200);
        lemma_fp32_fields_finite(f as nat, m as nat);
    }
    fp32_assemble(sign, f, m)
}

/// Rounding rules of the FP32 -> FP8 converts.
#[derive(Clone, Copy, Debug)]
pub enum Fp8RoundMode {
    /// Round to nearest, ties to even.
    Rtne,
    /// Round to odd (an E4M3-only form; the E5M2 converts treat it as nearest-even).
    Rto,
    /// Bias rounding: add the bias at the FP32 significand's lsb, then truncate.
    Bias,
}

/// The rounding rule an FP32 -> FP8 convert applies: the bias term is masked to 21 bits for
/// E5M2 and 20 bits for E4M3 (the width of the discarded FP32 fraction).
pub open spec fn fp32_fp8_rounding(fmt: Fp8Format, mode: Fp8RoundMode, bias: u32) -> Rounding {
    match mode {
        Fp8RoundMode::Rtne => Rounding::NearestEven,
        Fp8RoundMode::Rto => match fmt {
            Fp8Format::Bf8 => Rounding::NearestEven,
            Fp8Format::Hf8 => Rounding::ToOdd,
        },
        Fp8RoundMode::Bias => Rounding::BiasLsb(
            match fmt {
                Fp8Format::Bf8 => bias & 0x1f_ffff,
                Fp8Format::Hf8 => bias & 0xf_ffff,
            },
        ),
    }
}

/// The FP8 NaN an FP32 NaN converts to: E5M2 `S.11111.1x` with `x` the FP32 mantissa bit 21,
/// E4M3 the sole NaN `S.1111.111`.
pub open spec fn fp32_fp8_nan_code(fmt: Fp8Format, sign: u32, fp32_mant: nat) -> u8 {
    match fmt {
        Fp8Format::Bf8 => (sign * 128 + 0x7e + (fp32_mant / 0x20_0000) % 2) as u8,
        Fp8Format::Hf8 => (sign * 128 + 0x7f) as u8,
    }
}

/// What an FP32 -> FP8 convert returns: NaN in, NaN out (even when saturating); an infinity
/// behaves as an overflow; zeros and subnormals become a same-signed zero (DAZ = 1); every other
/// value is rounded once under `mode`.
pub open spec fn fp32_to_fp8_post(
    fmt: Fp8Format,
    bits: u32,
    mode: Rounding,
    saturating: bool,
    r: u8,
) -> bool {
    let s = fp32_sign(bits);
    let ef = fp32_exp_field(bits);
    let m = fp32_mant_field(bits);
    if ef == 255 {
        if m != 0 {
            r == fp32_fp8_nan_code(fmt, s, m)
        } else {
            r == (if saturating {
                fp8_max_normal_code(fmt, s)
            } else {
                fp8_overflow_code(fmt, s)
            })
        }
    } else if ef == 0 {
        r == (s * 128) as u8
    } else {
        fp8_rounds_to(fmt, s, fp32_sig(bits), fp32_exp(bits), saturating, mode, r)
    }
}

/// The shared FP32 -> FP8 convert behind the four public forms.
fn fp32_to_fp8(fmt: Fp8Format, bits: u32, mode: Fp8RoundMode, saturating: bool, bias: u32) -> (r:
    u8)
    ensures
        fp32_to_fp8_post(fmt, bits, fp32_fp8_rounding(fmt, mode, bias), saturating, r),
{
    let (sign, exp, mant) = fp32_fields(bits);
    proof {
        assert(bias & 0x1f_ffff < 0x20_0000 && bias & 0xf_ffff < 0x10_0000 && ((sign << 7u32) | (0x1fu32
            << 2u32) | (0x2u32 | ((mant >> 21u32) & 1))) as u8 == (sign * 128 + 0x7e + (mant
            / 0x20_0000) % 2) as u8 && ((sign << 7u32) | 0x7fu32) as u8 == (sign * 128 + 0x7f) as u8
            && (sign << 7u32) as u8 == (sign * 128) as u8) by (bit_vector)
            requires
                sign <= 1,
                mant < 0x80_0000,
        ;
        assert(pow2(21) == 0x20_0000 && pow2(20) == 0x10_0000 && pow2(23) == 0x80_0000) by {
            lemma2_to64();
        }
    }
    let rounding = match mode {
        Fp8RoundMode::Rtne => Rounding::NearestEven,
        Fp8RoundMode::Rto => match fmt {
            Fp8Format::Bf8 => Rounding::NearestEven,
            Fp8Format::Hf8 => Rounding::ToOdd,
        },
        Fp8RoundMode::Bias => Rounding::BiasLsb(
            match fmt {
                Fp8Format::Bf8 => bias & 0x1f_ffff,
                Fp8Format::Hf8 => bias & 0xf_ffff,
            },
        ),
    };
    if exp == 0xff {
        if mant != 0 {
            return match fmt {
                Fp8Format::Bf8 => ((sign << 7) | (0x1f << 2) | (0x2 | ((mant >> 21) & 1))) as u8,
                Fp8Format::Hf8 => ((sign << 7) | 0x7f) as u8,
            };
        }
        return if saturating {
            crate::fp8::fp8_max_normal(fmt, sign)
        } else {
            crate::fp8::fp8_overflow(fmt, sign)
        };
    }
    if exp == 0 {
        // Zero or subnormal (DAZ = 1): a same-signed zero.
        return (sign << 7) as u8;
    }
    let (sig, e) = fp32_magnitude(exp, mant);
    proof {
        assert(pow2(24) == 0x100_0000) by {
            lemma2_to64();
        }
        lemma_log2_floor_unique(sig as nat, 23);
    }
    let (exp_field, mant_field, overflowed) = crate::fp8::round_finite_to_fp8(
        fmt,
        sig,
        e,
        rounding,
    );
    if overflowed {
        if saturating {
            crate::fp8::fp8_max_normal(fmt, sign)
        } else {
            crate::fp8::fp8_overflow(fmt, sign)
        }
    } else {
        crate::fp8::fp8_assemble(fmt, sign, exp_field, mant_field)
    }
}

/// FP32 -> BF8 (E5M2) under `mode` (round-to-odd is not an E5M2 form and rounds to nearest
/// even). On overflow: +/-57344 when `saturating`, else infinity.
pub fn fp32_to_fp8_e5m2(bits: u32, mode: Fp8RoundMode, saturating: bool) -> (r: u8)
    ensures
        fp32_to_fp8_post(
            Fp8Format::Bf8,
            bits,
            fp32_fp8_rounding(Fp8Format::Bf8, mode, 0),
            saturating,
            r,
        ),
{
    fp32_to_fp8_e5m2_biased(bits, mode, saturating, 0)
}

/// FP32 -> BF8 (E5M2) with an explicit bias term for [`Fp8RoundMode::Bias`] (its low 21 bits
/// are used; the other rules ignore it).
pub fn fp32_to_fp8_e5m2_biased(bits: u32, mode: Fp8RoundMode, saturating: bool, bias: u32) -> (r:
    u8)
    ensures
        fp32_to_fp8_post(
            Fp8Format::Bf8,
            bits,
            fp32_fp8_rounding(Fp8Format::Bf8, mode, bias),
            saturating,
            r,
        ),
{
    fp32_to_fp8(Fp8Format::Bf8, bits, mode, saturating, bias)
}

/// FP32 -> HF8 (E4M3) under `mode`. On overflow: +/-448 when `saturating`, else the NaN
/// `S.1111.111`.
pub fn fp32_to_fp8_e4m3(bits: u32, mode: Fp8RoundMode, saturating: bool) -> (r: u8)
    ensures
        fp32_to_fp8_post(
            Fp8Format::Hf8,
            bits,
            fp32_fp8_rounding(Fp8Format::Hf8, mode, 0),
            saturating,
            r,
        ),
{
    fp32_to_fp8_e4m3_biased(bits, mode, saturating, 0)
}

/// FP32 -> HF8 (E4M3) with an explicit bias term for [`Fp8RoundMode::Bias`] (its low 20 bits
/// are used; the other rules ignore it).
pub fn fp32_to_fp8_e4m3_biased(bits: u32, mode: Fp8RoundMode, saturating: bool, bias: u32) -> (r:
    u8)
    ensures
        fp32_to_fp8_post(
            Fp8Format::Hf8,
            bits,
            fp32_fp8_rounding(Fp8Format::Hf8, mode, bias),
            saturating,
            r,
        ),
{
    fp32_to_fp8(Fp8Format::Hf8, bits, mode, saturating, bias)
}

/// A 16-bit pattern is its sign, exponent field and mantissa field put side by side, both in
/// the FP16 (E5M10) and in the BF16 (E8M7) layout.
proof fn lemma_half_pattern_fields(x: u16)
    by (bit_vector)
    ensures
        x == (((x >> 15) as u16) * 0x8000 + ((x >> 10) & 0x1f) * 0x400 + (x & 0x3ff)) as u16,
        (x & 0x3ff) < 0x400,
        x == (((x >> 15) as u16) * 0x8000 + ((x >> 7) & 0xff) * 0x80 + (x & 0x7f)) as u16,
        (x & 0x7f) < 0x80,
{
}

/// An FP32 pattern is its sign, exponent field and mantissa field put side by side.
proof fn lemma_fp32_pattern_fields(x: u32)
    by (bit_vector)
    ensures
        x == ((x >> 31) * 0x8000_0000 + ((x >> 23) & 0xff) * 0x80_0000 + (x & 0x7f_ffff)) as u32,
        (x & 0x7f_ffff) < 0x80_0000,
{
}

/// FP32 -> FP16 has exactly one possible result for each input.
pub proof fn lemma_fp32_to_fp16_unique(bits: u32, r1: u16, r2: u16)
    requires
        fp32_to_fp16_post(bits, r1),
        fp32_to_fp16_post(bits, r2),
    ensures
        r1 == r2,
{
    lemma2_to64();
    lemma_half_pattern_fields(r1);
    lemma_half_pattern_fields(r2);
    lemma_fp_units_injective(
        fp16_exp_field(r1),
        fp16_mant_field(r1),
        fp16_exp_field(r2),
        fp16_mant_field(r2),
        10,
    );
}

/// FP32 -> BF16 has exactly one possible result for each input.
pub proof fn lemma_fp32_to_bf16_unique(bits: u32, r1: u16, r2: u16)
    requires
        fp32_to_bf16_post(bits, r1),
        fp32_to_bf16_post(bits, r2),
    ensures
        r1 == r2,
{
    lemma2_to64();
    lemma_half_pattern_fields(r1);
    lemma_half_pattern_fields(r2);
    lemma_fp_units_injective(
        bf16_exp_field(r1),
        bf16_mant_field(r1),
        bf16_exp_field(r2),
        bf16_mant_field(r2),
        7,
    );
}

/// INT32 -> FP32 has exactly one possible result for each input.
pub proof fn lemma_int32_to_fp32_unique(x: i32, r1: u32, r2: u32)
    requires
        int32_to_fp32_post(x, r1),
        int32_to_fp32_post(x, r2),
    ensures
        r1 == r2,
{
    lemma2_to64();
    lemma_fp32_pattern_fields(r1);
    lemma_fp32_pattern_fields(r2);
    lemma_fp_units_injective(
        fp32_exp_field(r1),
        fp32_mant_field(r1),
        fp32_exp_field(r2),
        fp32_mant_field(r2),
        23,
    );
}

/// FP32 -> FP8 has exactly one possible result for each input, format, rule and overflow
/// behaviour.
pub proof fn lemma_fp32_to_fp8_unique(
    fmt: Fp8Format,
    bits: u32,
    mode: Rounding,
    saturating: bool,
    r1: u8,
    r2: u8,
)
    requires
        fp32_to_fp8_post(fmt, bits, mode, saturating, r1),
        fp32_to_fp8_post(fmt, bits, mode, saturating, r2),
    ensures
        r1 == r2,
{
    if fp32_exp_field(bits) != 255 && fp32_exp_field(bits) != 0 {
        lemma_fp8_rounds_to_unique(
            fmt,
            fp32_sign(bits),
            fp32_sig(bits),
            fp32_exp(bits),
            saturating,
            mode,
            r1,
            r2,
        );
    }
}

/// Round to odd (the `VCVTROPS2HF8` rule) marks every FP32 value it cannot represent exactly in
/// HF8: the result's mantissa is odd. The one exception is a saturating convert that overflows,
/// which clamps to the max normal `S.1111.110`.
pub proof fn lemma_round_to_odd_marks_inexact(bits: u32, saturating: bool, r: u8)
    requires
        fp32_to_fp8_post(Fp8Format::Hf8, bits, Rounding::ToOdd, saturating, r),
        fp32_exp_field(bits) != 0,
        fp32_exp_field(bits) != 255,
        rounds_inexactly(fp32_sig(bits), fp32_exp(bits), 3, -6),
        !(saturating && rounded_units(fp32_sig(bits), fp32_exp(bits), 3, -6, Rounding::ToOdd)
            > Fp8Format::Hf8.max_units()),
    ensures
        fp8_mant_field(Fp8Format::Hf8, r) % 2 == 1,
{
    lemma2_to64();
    let sig = fp32_sig(bits);
    let exp = fp32_exp(bits);
    let u = rounded_units(sig, exp, 3, -6, Rounding::ToOdd);
    lemma_fp8_byte_fields(r);
    if u > Fp8Format::Hf8.max_units() {
        let s = fp32_sign(bits);
        assert(s <= 1) by {
            vstd::bits::lemma_u32_shr_is_div(bits, 31);
        }
        lemma_fp8_code_fields(s);
    } else {
        lemma_round_to_odd_mantissa_odd(
            sig,
            exp,
            3,
            -6,
            fp8_exp_field(Fp8Format::Hf8, r),
            fp8_mant_field(Fp8Format::Hf8, r),
        );
    }
}

/// Widening a BF8 byte to FP32 and converting it back (round to nearest even, non-saturating)
/// gives back the byte, for every BF8 code but the NaNs: zeros, subnormals, normals and the
/// infinities all survive.
pub proof fn lemma_bf8_fp32_round_trip(b: u8, f: u32, r: u8)
    requires
        bf8_to_fp32_post(b, f),
        fp32_to_fp8_post(Fp8Format::Bf8, f, Rounding::NearestEven, false, r),
        !(fp8_exp_field(Fp8Format::Bf8, b) == 31 && fp8_mant_field(Fp8Format::Bf8, b) != 0),
    ensures
        r == b,
{
    lemma2_to64();
    lemma_fp8_byte_fields(b);
    let s = fp8_sign(b);
    let e8 = fp8_exp_field(Fp8Format::Bf8, b);
    let m8 = fp8_mant_field(Fp8Format::Bf8, b);
    assert(s <= 1);
    if e8 == 31 {
        lemma_sign_bit32(s);
        assert(r == (s * 128 + 0x7c) as u8);
    } else {
        let u8v = fp_units(e8, m8, 2);
        assert(fp8_units(Fp8Format::Bf8, b) == u8v);
        let ef = fp32_exp_field(f);
        let m32 = fp32_mant_field(f);
        lemma_fp32_pattern_fields(f);
        if e8 == 0 && m8 == 0 {
            assert(u8v == 0);
            assert(fp32_units(f) == 0) by {
                assert(0 * pow2(133) == 0);
            }
            if ef > 0 {
                let p = pow2((ef - 1) as nat);
                let a = pow2(23);
                lemma_pow2_pos((ef - 1) as nat);
                assert((a + m32) * p > 0) by (nonlinear_arith)
                    requires
                        p > 0,
                        a > 0,
                ;
            }
            assert(r == (s * 128) as u8);
        } else {
            // A nonzero BF8 value widens to an FP32 normal.
            assert(u8v >= 1) by {
                if e8 > 0 {
                    let p = pow2((e8 - 1) as nat);
                    let a = pow2(2);
                    lemma_pow2_pos((e8 - 1) as nat);
                    assert((a + m8) * p >= 1) by (nonlinear_arith)
                        requires
                            p >= 1,
                            a >= 1,
                    ;
                }
            }
            lemma_pow2_strictly_increases(23, 133);
            assert(fp32_units(f) >= pow2(133)) by (nonlinear_arith)
                requires
                    fp32_units(f) == u8v * pow2(133),
                    u8v >= 1,
            ;
            assert(ef != 0);
            lemma_fp_units_sig(ef, m32, 23);
            assert(fp32_exp(f) + 149 == ef - 1);
            lemma_rounded_units_representable(
                fp32_sig(f),
                fp32_exp(f),
                2,
                -14,
                e8,
                m8,
                -149,
            );
            lemma_fp_units_exceeds(e8, m8, 30, 3, 2);
            let er = fp8_exp_field(Fp8Format::Bf8, r);
            let mr = fp8_mant_field(Fp8Format::Bf8, r);
            lemma_fp8_byte_fields(r);
            lemma_fp_units_injective(er, mr, e8, m8, 2);
        }
    }
}

} // verus!
