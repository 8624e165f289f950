//! FP8 / FP16 conversion codec.
//!
//! BF8 is FP8 E5M2 (5 exponent bits, 2 mantissa bits, bias 15, max normal +/-57344, infinity
//! `S.11111.00`, NaN `S.11111.{01,10,11}`, min subnormal +/-2^-16); HF8 is FP8 E4M3 (4 exponent
//! bits, 3 mantissa bits, bias 7, max normal +/-448 `S.1111.110`, sole NaN `S.1111.111`, min
//! subnormal +/-2^-9). FP16 is IEEE binary16 (S/E5/M10, bias 15).
//!
//! The FP16 -> FP8 converts round once from the exact FP16 value (no double rounding), honour
//! subnormals and signed zeros (DAZ = 0, FTZ = 0), and on magnitude overflow either clamp to the
//! format's max normal (saturating) or emit the format's overflow encoding: infinity for E5M2,
//! the NaN slot for E4M3 (which has no infinity). An FP16 NaN always converts to a NaN.
//!
//! Two rounding rules are offered: round-to-nearest-even, and the bias rule of the
//! `VCVTBIASPH2*` converts, which adds an 8-bit bias into the discarded-fraction window
//! (the bias byte's most significant bit just below the kept lsb) and then truncates; a zero
//! bias therefore truncates and a bias of `0x80` rounds to nearest with ties away from zero.
use crate::rounding::{
    div_round, encode_fields, fmt_sig, fp_units, lemma_div_add_multiple, lemma_fp_units_exceeds,
    lemma_fp_units_injective, lemma_fp_units_sig, lemma_fp_units_strict, lemma_log2_floor_lt,
    lemma_log2_floor_unique, lemma_rounded_units_exact, log2_floor, lsb_exp, round_sig,
    round_significand, rounded_units, Rounding,
};
use vstd::arithmetic::power2::*;
use vstd::prelude::*;

verus! {

/// An OCP MX FP8 target format.
#[derive(Clone, Copy, Debug)]
pub enum Fp8Format {
    /// BF8 = FP8 E5M2.
    Bf8,
    /// HF8 = FP8 E4M3.
    Hf8,
}

impl Fp8Format {
    pub open spec fn mbits(self) -> nat {
        match self {
            Fp8Format::Bf8 => 2,
            Fp8Format::Hf8 => 3,
        }
    }

    /// Minimum normal unbiased exponent.
    pub open spec fn emin(self) -> int {
        match self {
            Fp8Format::Bf8 => -14,
            Fp8Format::Hf8 => -6,
        }
    }

    /// Magnitude of the max normal, in units of the format's smallest subnormal.
    pub open spec fn max_units(self) -> nat {
        match self {
            Fp8Format::Bf8 => fp_units(30, 3, 2),
            Fp8Format::Hf8 => fp_units(15, 6, 3),
        }
    }

    /// Whether the exponent/mantissa fields encode a finite value.
    pub open spec fn fields_finite(self, ef: nat, m: nat) -> bool {
        match self {
            Fp8Format::Bf8 => ef <= 30 && m < 4,
            Fp8Format::Hf8 => (ef < 15 && m < 8) || (ef == 15 && m < 7),
        }
    }

    fn mant_bits(&self) -> (r: u32)
        ensures
            r == self.mbits(),
    {
        match self {
            Fp8Format::Bf8 => 2,
            Fp8Format::Hf8 => 3,
        }
    }

    fn min_normal_exp(&self) -> (r: i32)
        ensures
            r == self.emin(),
    {
        match self {
            Fp8Format::Bf8 => -14,
            Fp8Format::Hf8 => -6,
        }
    }
}

/// Sign bit of an FP8 byte.
pub open spec fn fp8_sign(b: u8) -> u32 {
    (b >> 7) as u32
}

/// Exponent field of an FP8 byte.
pub open spec fn fp8_exp_field(fmt: Fp8Format, b: u8) -> nat {
    match fmt {
        Fp8Format::Bf8 => ((b >> 2) & 0x1f) as nat,
        Fp8Format::Hf8 => ((b >> 3) & 0xf) as nat,
    }
}

/// Mantissa field of an FP8 byte.
pub open spec fn fp8_mant_field(fmt: Fp8Format, b: u8) -> nat {
    match fmt {
        Fp8Format::Bf8 => (b & 3) as nat,
        Fp8Format::Hf8 => (b & 7) as nat,
    }
}

/// Whether an FP8 byte encodes a finite value (E5M2: exponent field not all-ones; E4M3: not the
/// sole NaN slot).
pub open spec fn fp8_is_finite(fmt: Fp8Format, b: u8) -> bool {
    fmt.fields_finite(fp8_exp_field(fmt, b), fp8_mant_field(fmt, b))
}

/// Magnitude of a finite FP8 byte in units of the format's smallest subnormal (`2^-16` for E5M2,
/// `2^-9` for E4M3).
pub open spec fn fp8_units(fmt: Fp8Format, b: u8) -> nat {
    fp_units(fp8_exp_field(fmt, b), fp8_mant_field(fmt, b), fmt.mbits())
}

/// The overflow encoding of a non-saturating convert: E5M2 infinity `S.11111.00`, E4M3 NaN
/// `S.1111.111`.
pub open spec fn fp8_overflow_code(fmt: Fp8Format, sign: u32) -> u8 {
    match fmt {
        Fp8Format::Bf8 => (sign * 128 + 0x7c) as u8,
        Fp8Format::Hf8 => (sign * 128 + 0x7f) as u8,
    }
}

/// The max normal encoding: E5M2 `S.11110.11` (+/-57344), E4M3 `S.1111.110` (+/-448).
pub open spec fn fp8_max_normal_code(fmt: Fp8Format, sign: u32) -> u8 {
    match fmt {
        Fp8Format::Bf8 => (sign * 128 + 0x7b) as u8,
        Fp8Format::Hf8 => (sign * 128 + 0x7e) as u8,
    }
}

/// The NaN an FP16 NaN input propagates to: for E5M2 the top two FP16 mantissa bits with the
/// quiet bit forced on; for E4M3 the sole NaN slot.
pub open spec fn fp8_nan_code(fmt: Fp8Format, sign: u32, fp16_mant: nat) -> u8 {
    match fmt {
        Fp8Format::Bf8 => (sign * 128 + 0x7c + (fp16_mant / 256) % 2 + 2) as u8,
        Fp8Format::Hf8 => (sign * 128 + 0x7f) as u8,
    }
}

/// `r` is the result of converting the finite nonzero magnitude `sig * 2^exp` with sign `sign`
/// to `fmt` under rounding `mode`: the correctly rounded value when it fits, otherwise the max
/// normal (saturating) or the overflow encoding (non-saturating).
pub open spec fn fp8_rounds_to(
    fmt: Fp8Format,
    sign: u32,
    sig: nat,
    exp: int,
    saturating: bool,
    mode: Rounding,
    r: u8,
) -> bool {
    let u = rounded_units(sig, exp, fmt.mbits(), fmt.emin(), mode);
    if u > fmt.max_units() {
        r == (if saturating {
            fp8_max_normal_code(fmt, sign)
        } else {
            fp8_overflow_code(fmt, sign)
        })
    } else {
        fp8_is_finite(fmt, r) && fp8_sign(r) == sign && fp8_units(fmt, r) == u
    }
}

/// Sign bit of an FP16 pattern.
pub open spec fn fp16_sign(bits: u16) -> u32 {
    (bits >> 15) as u32
}

/// Exponent field of an FP16 pattern.
pub open spec fn fp16_exp_field(bits: u16) -> nat {
    ((bits >> 10) & 0x1f) as nat
}

/// Mantissa field of an FP16 pattern.
pub open spec fn fp16_mant_field(bits: u16) -> nat {
    (bits & 0x3ff) as nat
}

/// Integer significand of a finite FP16 pattern (implicit bit made explicit).
pub open spec fn fp16_sig(bits: u16) -> nat {
    if fp16_exp_field(bits) == 0 {
        fp16_mant_field(bits)
    } else {
        1024 + fp16_mant_field(bits)
    }
}

/// Power-of-two scale of the least-significant significand bit of a finite FP16 pattern, so its
/// magnitude is `fp16_sig(bits) * 2^fp16_exp(bits)`.
pub open spec fn fp16_exp(bits: u16) -> int {
    if fp16_exp_field(bits) == 0 {
        -24
    } else {
        fp16_exp_field(bits) - 25
    }
}

/// Whether an FP16 pattern is finite.
pub open spec fn fp16_is_finite(bits: u16) -> bool {
    fp16_exp_field(bits) != 31
}

/// Magnitude of a finite FP16 pattern in units of its smallest subnormal `2^-24`.
pub open spec fn fp16_units(bits: u16) -> nat {
    fp_units(fp16_exp_field(bits), fp16_mant_field(bits), 10)
}

/// What an FP16 -> FP8 convert returns for `bits`: NaN in, NaN out; an infinity behaves as an
/// overflow; zeros keep their sign; every other value is rounded once.
pub open spec fn fp16_to_fp8_post(
    fmt: Fp8Format,
    bits: u16,
    saturating: bool,
    mode: Rounding,
    r: u8,
) -> bool {
    let s = fp16_sign(bits);
    let ef = fp16_exp_field(bits);
    let m = fp16_mant_field(bits);
    if ef == 31 {
        if m != 0 {
            r == fp8_nan_code(fmt, s, m)
        } else {
            r == (if saturating {
                fp8_max_normal_code(fmt, s)
            } else {
                fp8_overflow_code(fmt, s)
            })
        }
    } else if ef == 0 && m == 0 {
        r == (s * 128) as u8
    } else {
        fp8_rounds_to(fmt, s, fp16_sig(bits), fp16_exp(bits), saturating, mode, r)
    }
}

/// Classification of a decoded FP16 pattern; finite values carry their exact magnitude as
/// `mantissa * 2^exp2`.
enum Fp16Class {
    Zero,
    Inf,
    NaN,
    Finite { mantissa: u64, exp2: i32 },
}

/// Decode an FP16 bit pattern into its sign bit and class.
fn decode_fp16(bits: u16) -> (res: (u32, Fp16Class))
    ensures
        res.0 == fp16_sign(bits),
        res.0 <= 1,
        (bits & 0x3ff) < 1024,
        ((bits >> 10) & 0x1f) < 32,
        match res.1 {
            Fp16Class::Zero => fp16_exp_field(bits) == 0 && fp16_mant_field(bits) == 0,
            Fp16Class::Inf => fp16_exp_field(bits) == 31 && fp16_mant_field(bits) == 0,
            Fp16Class::NaN => fp16_exp_field(bits) == 31 && fp16_mant_field(bits) != 0,
            Fp16Class::Finite { mantissa, exp2 } => {
                &&& fp16_exp_field(bits) != 31
                &&& !(fp16_exp_field(bits) == 0 && fp16_mant_field(bits) == 0)
                &&& mantissa == fp16_sig(bits)
                &&& exp2 == fp16_exp(bits)
            },
        },
{
    let sign = ((bits >> 15) as u32) & 1;
    let exp = (bits >> 10) & 0x1f;
    let mant = (bits & 0x3ff) as u64;
    proof {
        assert(((bits >> 15) as u32) & 1 == (bits >> 15) as u32 && (bits >> 15) as u32 <= 1 && (bits
            & 0x3ff) < 1024 && ((bits >> 10) & 0x1f) < 32) by (bit_vector);
    }
    let class = if exp == 0x1f {
        if mant == 0 {
            Fp16Class::Inf
        } else {
            Fp16Class::NaN
        }
    } else if exp == 0 {
        if mant == 0 {
            Fp16Class::Zero
        } else {
            // Subnormal: value = mant * 2^(1-15-10) = mant * 2^-24.
            Fp16Class::Finite { mantissa: mant, exp2: 1 - 15 - 10 }
        }
    } else {
        // Normal: value = (1024 + mant) * 2^(exp-15-10).
        Fp16Class::Finite { mantissa: 1024 + mant, exp2: exp as i32 - 15 - 10 }
    };
    (sign, class)
}

/// Round the strictly positive finite value `mantissa * 2^exp2` to `fmt` and return
/// `(exp_field, mant_field, overflowed)`; `overflowed` is set when the rounded magnitude exceeds
/// the format's max normal, and the fields are then both zero.
pub(crate) fn round_finite_to_fp8(fmt: Fp8Format, mantissa: u64, exp2: i32, mode: Rounding) -> (res: (
    u32,
    u32,
    bool,
))
    requires
        1 <= mantissa < 0x100_0000_0000,
        -400 <= exp2 <= 400,
        mode matches Rounding::BiasLsb(b) ==> log2_floor(mantissa as nat) > fmt.mbits() && b < pow2(
            (log2_floor(mantissa as nat) - fmt.mbits()) as nat,
        ),
    ensures
        ({
            let u = rounded_units(mantissa as nat, exp2 as int, fmt.mbits(), fmt.emin(), mode);
            &&& res.2 == (u > fmt.max_units())
            &&& res.2 ==> res.0 == 0 && res.1 == 0
            &&& !res.2 ==> fmt.fields_finite(res.0 as nat, res.1 as nat) && fp_units(
                res.0 as nat,
                res.1 as nat,
                fmt.mbits(),
            ) == u
        }),
{
    let mbits = fmt.mant_bits();
    let emin = fmt.min_normal_exp();
    let (k, t) = round_significand(mantissa, exp2, mbits, emin, mode);
    let (ef, m) = encode_fields(k, t, mbits, emin - mbits as i32);
    proof {
        lemma_pow2_values_small();
    }
    let overflowed = match fmt {
        Fp8Format::Bf8 => ef > 30,
        Fp8Format::Hf8 => ef > 15 || (ef == 15 && m == 7),
    };
    proof {
        match fmt {
            Fp8Format::Bf8 => lemma_fp_units_exceeds(ef as nat, m as nat, 30, 3, 2),
            Fp8Format::Hf8 => lemma_fp_units_exceeds(ef as nat, m as nat, 15, 6, 3),
        }
    }
    if overflowed {
        (0, 0, true)
    } else {
        (ef, m as u32, false)
    }
}

/// Small powers of two used by the fixed formats.
pub proof fn lemma_pow2_values_small()
    ensures
        pow2(0) == 1,
        pow2(1) == 2,
        pow2(2) == 4,
        pow2(3) == 8,
        pow2(4) == 16,
        pow2(7) == 128,
        pow2(8) == 256,
        pow2(10) == 1024,
        pow2(15) == 0x8000,
        pow2(23) == 0x80_0000,
{
    lemma2_to64();
}

/// Assemble an FP8 byte from the sign and in-range exponent/mantissa fields.
pub(crate) fn fp8_assemble(fmt: Fp8Format, sign: u32, exp_field: u32, mant_field: u32) -> (r: u8)
    requires
        sign <= 1,
        fmt.fields_finite(exp_field as nat, mant_field as nat),
    ensures
        fp8_sign(r) == sign,
        fp8_exp_field(fmt, r) == exp_field,
        fp8_mant_field(fmt, r) == mant_field,
{
    proof {
        assert((exp_field < 32 && mant_field < 4 ==> ((((sign << 7) | (exp_field << 2) | mant_field)
            as u8) >> 7) as u32 == sign && (((((sign << 7) | (exp_field << 2) | mant_field) as u8)
            >> 2) & 0x1f) == exp_field && ((((sign << 7) | (exp_field << 2) | mant_field) as u8)
            & 3) == mant_field) && (exp_field < 16 && mant_field < 8 ==> ((((sign << 7) | (
        exp_field << 3) | mant_field) as u8) >> 7) as u32 == sign && (((((sign << 7) | (exp_field
            << 3) | mant_field) as u8) >> 3) & 0xf) == exp_field && ((((sign << 7) | (exp_field
            << 3) | mant_field) as u8) & 7) == mant_field)) by (bit_vector)
            requires
                sign <= 1,
        ;
    }
    match fmt {
        Fp8Format::Bf8 => ((sign << 7) | (exp_field << 2) | mant_field) as u8,
        Fp8Format::Hf8 => ((sign << 7) | (exp_field << 3) | mant_field) as u8,
    }
}

/// The non-saturating overflow encoding: E5M2 `S.11111.00` (infinity), E4M3 `S.1111.111` (NaN,
/// E4M3 having no infinity).
pub(crate) fn fp8_overflow(fmt: Fp8Format, sign: u32) -> (r: u8)
    requires
        sign <= 1,
    ensures
        r == fp8_overflow_code(fmt, sign),
{
    let mant: u32 = match fmt {
        Fp8Format::Bf8 => 0,
        Fp8Format::Hf8 => 7,
    };
    let max_exp_field: u32 = match fmt {
        Fp8Format::Bf8 => 0x1f,
        Fp8Format::Hf8 => 0xf,
    };
    let shift: u32 = match fmt {
        Fp8Format::Bf8 => 2,
        Fp8Format::Hf8 => 3,
    };
    proof {
        assert(((sign << 7) | (0x1fu32 << 2u32) | 0u32) as u8 == (sign * 128 + 0x7c) as u8 && ((
        sign << 7) | (0xfu32 << 3u32) | 7u32) as u8 == (sign * 128 + 0x7f) as u8) by (bit_vector)
            requires
                sign <= 1,
        ;
    }
    ((sign << 7) | (max_exp_field << shift) | mant) as u8
}

/// Propagate an FP16 NaN input (`fp16_mant` is its raw 10-bit mantissa): E5M2 keeps the top two
/// FP16 mantissa bits with the quiet bit forced on; E4M3 has the sole NaN `S.1111.111`.
fn fp8_nan_from_input(fmt: Fp8Format, sign: u32, fp16_mant: u32) -> (r: u8)
    requires
        sign <= 1,
        fp16_mant < 1024,
    ensures
        r == fp8_nan_code(fmt, sign, fp16_mant as nat),
{
    proof {
        assert(((sign << 7) | (0x1fu32 << 2u32) | (((fp16_mant >> 8) & 0b11) | 0b10)) as u8 == (
        sign * 128 + 0x7c + (fp16_mant / 256) % 2 + 2) as u8 && ((sign << 7) | (0xfu32 << 3u32)
            | 7u32) as u8 == (sign * 128 + 0x7f) as u8) by (bit_vector)
            requires
                sign <= 1,
                fp16_mant < 1024,
        ;
    }
    match fmt {
        Fp8Format::Bf8 => {
            let mant = ((fp16_mant >> 8) & 0b11) | 0b10;
            ((sign << 7) | (0x1f << 2) | mant) as u8
        },
        Fp8Format::Hf8 => ((sign << 7) | (0xf << 3) | 7) as u8,
    }
}

/// The max normal encoding for the sign: E5M2 `S.11110.11` (+/-57344), E4M3 `S.1111.110`
/// (+/-448).
pub(crate) fn fp8_max_normal(fmt: Fp8Format, sign: u32) -> (r: u8)
    requires
        sign <= 1,
    ensures
        r == fp8_max_normal_code(fmt, sign),
{
    proof {
        assert(((sign << 7) | (30u32 << 2u32) | 3u32) as u8 == (sign * 128 + 0x7b) as u8 && ((sign
            << 7) | (15u32 << 3u32) | 6u32) as u8 == (sign * 128 + 0x7e) as u8) by (bit_vector)
            requires
                sign <= 1,
        ;
    }
    match fmt {
        Fp8Format::Bf8 => ((sign << 7) | (30 << 2) | 3) as u8,
        Fp8Format::Hf8 => ((sign << 7) | (15 << 3) | 6) as u8,
    }
}

/// Convert one FP16 lane (raw bits) to one FP8 byte in `fmt`.
///
/// With `bias_mode == false` the value is rounded to nearest, ties to even, and `bias` is
/// ignored; with `bias_mode == true` the 8-bit `bias` is added into the discarded window and the
/// result truncated. On overflow (including an infinite input) the result saturates to the max
/// normal when `saturating`, else it is the format's overflow encoding.
fn fp16_to_fp8_biased(fmt: Fp8Format, bits: u16, saturating: bool, bias: u8, bias_mode: bool) -> (r:
    u8)
    ensures
        fp16_to_fp8_post(
            fmt,
            bits,
            saturating,
            if bias_mode {
                Rounding::BiasWindow(bias)
            } else {
                Rounding::NearestEven
            },
            r,
        ),
{
    let mode = if bias_mode {
        Rounding::BiasWindow(bias)
    } else {
        Rounding::NearestEven
    };
    let (sign, class) = decode_fp16(bits);
    match class {
        Fp16Class::Zero => {
            proof {
                assert((sign << 7) as u8 == (sign * 128) as u8) by (bit_vector)
                    requires
                        sign <= 1,
                ;
            }
            (sign << 7) as u8
        },
        Fp16Class::NaN => {
            let fp16_mant = (bits & 0x3ff) as u32;
            fp8_nan_from_input(fmt, sign, fp16_mant)
        },
        Fp16Class::Inf => {
            if saturating {
                fp8_max_normal(fmt, sign)
            } else {
                fp8_overflow(fmt, sign)
            }
        },
        Fp16Class::Finite { mantissa, exp2 } => {
            let (exp_field, mant_field, overflowed) = round_finite_to_fp8(
                fmt,
                mantissa,
                exp2,
                mode,
            );
            if overflowed {
                if saturating {
                    fp8_max_normal(fmt, sign)
                } else {
                    fp8_overflow(fmt, sign)
                }
            } else {
                fp8_assemble(fmt, sign, exp_field, mant_field)
            }
        },
    }
}

/// Convert one FP16 lane (raw bits) to one FP8 byte in `fmt`, rounding to nearest even.
fn fp16_to_fp8(fmt: Fp8Format, bits: u16, saturating: bool) -> (r: u8)
    ensures
        fp16_to_fp8_post(fmt, bits, saturating, Rounding::NearestEven, r),
{
    fp16_to_fp8_biased(fmt, bits, saturating, 0, false)
}

/// Convert one FP16 lane (raw bits) to one BF8 (E5M2) byte, rounding to nearest even. On
/// overflow: +/-57344 when `saturating`, else +/-infinity `S.11111.00`.
pub fn fp16_to_bf8(bits: u16, saturating: bool) -> (r: u8)
    ensures
        fp16_to_fp8_post(Fp8Format::Bf8, bits, saturating, Rounding::NearestEven, r),
{
    fp16_to_fp8(Fp8Format::Bf8, bits, saturating)
}

/// Convert one FP16 lane (raw bits) to one HF8 (E4M3) byte, rounding to nearest even. On
/// overflow: +/-448 when `saturating`, else the NaN `S.1111.111`.
pub fn fp16_to_hf8(bits: u16, saturating: bool) -> (r: u8)
    ensures
        fp16_to_fp8_post(Fp8Format::Hf8, bits, saturating, Rounding::NearestEven, r),
{
    fp16_to_fp8(Fp8Format::Hf8, bits, saturating)
}

/// Convert one FP16 lane to one BF8 byte with bias rounding; `bias` is the lane's 8-bit bias
/// term. Overflow handling is that of [`fp16_to_bf8`].
pub fn fp16_to_bf8_biased(bits: u16, bias: u8, saturating: bool) -> (r: u8)
    ensures
        fp16_to_fp8_post(Fp8Format::Bf8, bits, saturating, Rounding::BiasWindow(bias), r),
{
    fp16_to_fp8_biased(Fp8Format::Bf8, bits, saturating, bias, true)
}

/// Convert one FP16 lane to one HF8 byte with bias rounding; `bias` is the lane's 8-bit bias
/// term. Overflow handling is that of [`fp16_to_hf8`].
pub fn fp16_to_hf8_biased(bits: u16, bias: u8, saturating: bool) -> (r: u8)
    ensures
        fp16_to_fp8_post(Fp8Format::Hf8, bits, saturating, Rounding::BiasWindow(bias), r),
{
    fp16_to_fp8_biased(Fp8Format::Hf8, bits, saturating, bias, true)
}

/// Assemble an FP16 pattern from its sign bit and in-range exponent/mantissa fields.
pub(crate) fn fp16_assemble(sign: u16, exp_field: u32, mant_field: u64) -> (r: u16)
    requires
        sign <= 1,
        exp_field < 32,
        mant_field < 1024,
    ensures
        fp16_sign(r) == sign,
        fp16_exp_field(r) == exp_field,
        fp16_mant_field(r) == mant_field,
{
    let e = exp_field as u16;
    let m = mant_field as u16;
    proof {
        assert(((((sign << 15u16) | (e << 10u16) | m) >> 15u16) as u32) == sign as u32 && (((((
        sign << 15u16) | (e << 10u16) | m) >> 10u16) & 0x1f) == e) && ((((sign << 15u16) | (e
            << 10u16) | m) & 0x3ff) == m)) by (bit_vector)
            requires
                sign <= 1,
                e < 32,
                m < 1024,
        ;
    }
    (sign << 15) | (e << 10) | m
}

/// `r` is the FP16 pattern of the HF8 byte `bits`: the same sign and exactly the same value (an
/// FP16 unit `2^-24` is `2^-15` of an HF8 unit `2^-9`); the HF8 NaN gives the FP16 quiet NaN.
pub open spec fn hf8_to_fp16_post(bits: u8, r: u16) -> bool {
    &&& !fp8_is_finite(Fp8Format::Hf8, bits) ==> r == (fp8_sign(bits) * 0x8000 + 0x7f80) as u16
    &&& fp8_is_finite(Fp8Format::Hf8, bits) ==> {
        &&& fp16_is_finite(r)
        &&& fp16_sign(r) == fp8_sign(bits)
        &&& fp16_units(r) == fp8_units(Fp8Format::Hf8, bits) * pow2(15)
    }
}

/// Exact decode of one HF8 (E4M3) byte to the FP16 pattern of the same value.
///
/// Every HF8 value is representable in FP16, so there is no rounding: HF8 subnormals
/// (`mmm * 2^-9`) land in the FP16 normal range and are renormalised, zeros keep their sign, and
/// the sole HF8 NaN `S.1111.111` maps to the FP16 quiet NaN `0x7f80` / `0xff80`.
pub fn hf8_to_fp16(bits: u8) -> (r: u16)
    ensures
        hf8_to_fp16_post(bits, r),
{
    let sign = ((bits >> 7) & 1) as u16;
    let exp = ((bits >> 3) & 0x0f) as u16;
    let mant = (bits & 0x07) as u16;
    proof {
        assert(((bits >> 7) & 1) as u16 as u32 == (bits >> 7) as u32 && ((bits >> 7) & 1) as u16
            <= 1 && ((bits >> 3) & 0x0f) < 16 && (bits & 7) < 8 && ((((bits >> 7) & 1) as u16)
            << 15u16) | (0x1fu16 << 10u16) | (0x07u16 << 7u16) == ((((bits >> 7) & 1) as u16)
            * 0x8000 + 0x7f80) as u16) by (bit_vector);
        lemma_pow2_values_small();
    }
    let fp16_sign = sign << 15;
    if exp == 0x0f && mant == 0x07 {
        // The sole HF8 NaN: the three set mantissa bits land at the top of the FP16 mantissa.
        return fp16_sign | (0x1f << 10) | (0x07 << 7);
    }
    if exp == 0 && mant == 0 {
        proof {
            assert(pow2(0) == 1);
        }
        return fp16_assemble(sign, 0, 0);
    }
    // Exact magnitude `sig * 2^e`: subnormal `mmm * 2^-9`, normal `(8 + mmm) * 2^(exp - 10)`.
    let (sig, e): (u64, i32) = if exp == 0 {
        (mant as u64, -9)
    } else {
        (8 + mant as u64, exp as i32 - 10)
    };
    proof {
        lemma_log2_floor_lt(sig as nat, 4);
        lemma_fp_units_sig(exp as nat, mant as nat, 3);
        assert(sig == fmt_sig(exp as nat, mant as nat, 3));
        lemma_rounded_units_exact(sig as nat, e as int, 10, -14, Rounding::NearestEven);
        let a = (if exp == 0 {
            0
        } else {
            exp - 1
        }) as nat;
        lemma_pow2_adds(a, 15);
        assert((e + 24) as nat == a + 15);
        vstd::arithmetic::mul::lemma_mul_is_associative(
            sig as int,
            pow2(a) as int,
            pow2(15) as int,
        );
    }
    let (k, t) = round_significand(sig, e, 10, -14, Rounding::NearestEven);
    let (ef, m) = encode_fields(k, t, 10, -24);
    proof {
        // The magnitude stays far below the FP16 infinity binade.
        lemma_fp_units_strict(exp as nat, mant as nat, 16, 0, 3);
        assert(fp_units(16, 0, 3) == 8 * pow2(15));
        let u8v = fp_units(exp as nat, mant as nat, 3);
        vstd::arithmetic::mul::lemma_mul_strict_inequality(
            u8v as int,
            (8 * pow2(15)) as int,
            pow2(15) as int,
        );
        lemma_fp_units_exceeds(ef as nat, m as nat, 30, 1023, 10);
        assert(fp_units(30, 1023, 10) == 2047 * pow2(29)) by {
            vstd::arithmetic::power2::lemma2_to64_rest();
        }
        assert(8 * pow2(15) * pow2(15) < 2047 * pow2(29)) by {
            vstd::arithmetic::power2::lemma2_to64();
        }
    }
    fp16_assemble(sign, ef, m)
}

/// The FP16 fields of the exact decode of a nonzero finite HF8 value `(e8, m8)`: normals move up
/// eight binades with the mantissa shifted into the top of the FP16 field; subnormals renormalise.
proof fn lemma_hf8_decode_fields(e8: nat, m8: nat, ef: nat, m: nat)
    requires
        e8 < 16,
        m8 < 8,
        e8 > 0 || m8 > 0,
        m < 1024,
        fp_units(ef, m, 10) == fp_units(e8, m8, 3) * pow2(15),
    ensures
        e8 > 0 ==> ef == e8 + 8 && m == 128 * m8,
        e8 == 0 ==> (ef, m) == (if m8 == 1 {
            (6nat, 0nat)
        } else if m8 == 2 {
            (7nat, 0nat)
        } else if m8 == 3 {
            (7nat, 512nat)
        } else if m8 == 4 {
            (8nat, 0nat)
        } else if m8 == 5 {
            (8nat, 256nat)
        } else if m8 == 6 {
            (8nat, 512nat)
        } else {
            (8nat, 768nat)
        }),
{
    lemma2_to64();
    if e8 > 0 {
        let x = pow2((e8 - 1) as nat);
        lemma_pow2_adds((e8 - 1) as nat, 8);
        assert(((e8 + 8) - 1) as nat == (e8 - 1) as nat + 8);
        assert(fp_units(e8 + 8, 128 * m8, 10) == (1024 + 128 * m8) * (x * 256));
        assert(fp_units(e8, m8, 3) * pow2(15) == (8 + m8) * x * 0x8000);
        assert((1024 + 128 * m8) * (x * 256) == (8 + m8) * x * 0x8000) by (nonlinear_arith);
        lemma_fp_units_injective(ef, m, e8 + 8, 128 * m8, 10);
    } else {
        if m8 == 1 {
            assert(fp_units(6, 0, 10) == (1024 + 0) * pow2(5));
            lemma_fp_units_injective(ef, m, 6, 0, 10);
        } else if m8 == 2 {
            assert(fp_units(7, 0, 10) == (1024 + 0) * pow2(6));
            lemma_fp_units_injective(ef, m, 7, 0, 10);
        } else if m8 == 3 {
            assert(fp_units(7, 512, 10) == (1024 + 512) * pow2(6));
            lemma_fp_units_injective(ef, m, 7, 512, 10);
        } else if m8 == 4 {
            assert(fp_units(8, 0, 10) == (1024 + 0) * pow2(7));
            lemma_fp_units_injective(ef, m, 8, 0, 10);
        } else if m8 == 5 {
            assert(fp_units(8, 256, 10) == (1024 + 256) * pow2(7));
            lemma_fp_units_injective(ef, m, 8, 256, 10);
        } else if m8 == 6 {
            assert(fp_units(8, 512, 10) == (1024 + 512) * pow2(7));
            lemma_fp_units_injective(ef, m, 8, 512, 10);
        } else {
            assert(fp_units(8, 768, 10) == (1024 + 768) * pow2(7));
            lemma_fp_units_injective(ef, m, 8, 768, 10);
        }
    }
}

/// Rounding the FP16 decode of a nonzero finite HF8 value back to HF8 (round to nearest even) is
/// exact: the rounded magnitude is the HF8 value itself.
proof fn lemma_hf8_decode_rounds_exactly(e8: nat, m8: nat, h: u16)
    requires
        e8 < 16,
        m8 < 8,
        e8 > 0 || m8 > 0,
        fp16_is_finite(h),
        fp16_units(h) == fp_units(e8, m8, 3) * pow2(15),
    ensures
        rounded_units(fp16_sig(h), fp16_exp(h), 3, -6, Rounding::NearestEven) == fp_units(e8, m8, 3),
{
    lemma2_to64();
    let ef = fp16_exp_field(h);
    let m = fp16_mant_field(h);
    assert(m < 1024) by {
        assert(h & 0x3ff < 1024) by (bit_vector);
    }
    lemma_hf8_decode_fields(e8, m8, ef, m);
    let sig = fp16_sig(h);
    let exp = fp16_exp(h);
    assert(ef >= 6);
    assert(sig == 1024 + m);
    assert(exp == ef - 25);
    lemma_log2_floor_unique(sig, 10);
    if e8 > 0 {
        assert(lsb_exp(sig, exp, 3, -6) == e8 - 10);
        lemma_div_add_multiple(8 + m8, 0, 128);
        assert(1024 + 128 * m8 == 128 * (8 + m8));
        assert(div_round(sig, 7, Rounding::NearestEven) == 8 + m8);
        assert(round_sig(sig, exp, e8 - 10, Rounding::NearestEven) == 8 + m8);
        assert((e8 - 10 - (-6 - 3)) as nat == (e8 - 1) as nat);
    } else {
        assert(lsb_exp(sig, exp, 3, -6) == -9);
        assert(((-9) - exp) as nat == (16 - ef) as nat);
        assert(div_round(sig, (16 - ef) as nat, Rounding::NearestEven) == m8);
        assert(round_sig(sig, exp, -9, Rounding::NearestEven) == m8);
        assert((-9 - (-6 - 3)) as nat == 0);
    }
}

/// An FP8 byte is its sign, exponent field and mantissa field put side by side, both in the
/// HF8 (E4M3) and in the BF8 (E5M2) layout.
pub(crate) proof fn lemma_fp8_byte_fields(x: u8)
    by (bit_vector)
    ensures
        x == (((x >> 7) as u8) * 128 + ((x >> 3) & 0xf) * 8 + (x & 7)) as u8,
        (x >> 7) <= 1,
        ((x >> 3) & 0xf) < 16,
        (x & 7) < 8,
        x == (((x >> 7) as u8) * 128 + ((x >> 2) & 0x1f) * 4 + (x & 3)) as u8,
        ((x >> 2) & 0x1f) < 32,
        (x & 3) < 4,
{
}

/// The correctly rounded result is unique: two bytes that both meet [`fp8_rounds_to`] for the
/// same value, format and rule are the same byte.
pub proof fn lemma_fp8_rounds_to_unique(
    fmt: Fp8Format,
    sign: u32,
    sig: nat,
    exp: int,
    saturating: bool,
    mode: Rounding,
    r1: u8,
    r2: u8,
)
    requires
        fp8_rounds_to(fmt, sign, sig, exp, saturating, mode, r1),
        fp8_rounds_to(fmt, sign, sig, exp, saturating, mode, r2),
    ensures
        r1 == r2,
{
    let u = rounded_units(sig, exp, fmt.mbits(), fmt.emin(), mode);
    if u <= fmt.max_units() {
        lemma_pow2_values_small();
        let e1 = fp8_exp_field(fmt, r1);
        let m1 = fp8_mant_field(fmt, r1);
        let e2 = fp8_exp_field(fmt, r2);
        let m2 = fp8_mant_field(fmt, r2);
        match fmt {
            Fp8Format::Bf8 => {
                lemma_fp8_byte_fields(r1);
                lemma_fp8_byte_fields(r2);
                lemma_fp_units_injective(e1, m1, e2, m2, 2);
            },
            Fp8Format::Hf8 => {
                lemma_fp8_byte_fields(r1);
                lemma_fp8_byte_fields(r2);
                lemma_fp_units_injective(e1, m1, e2, m2, 3);
            },
        }
    }
}

/// An FP16 -> FP8 convert has exactly one possible result for each input, format, overflow
/// behaviour and rounding rule.
pub proof fn lemma_fp16_to_fp8_unique(
    fmt: Fp8Format,
    bits: u16,
    saturating: bool,
    mode: Rounding,
    r1: u8,
    r2: u8,
)
    requires
        fp16_to_fp8_post(fmt, bits, saturating, mode, r1),
        fp16_to_fp8_post(fmt, bits, saturating, mode, r2),
    ensures
        r1 == r2,
{
    if !(fp16_exp_field(bits) == 31 || (fp16_exp_field(bits) == 0 && fp16_mant_field(bits) == 0)) {
        lemma_fp8_rounds_to_unique(
            fmt,
            fp16_sign(bits),
            fp16_sig(bits),
            fp16_exp(bits),
            saturating,
            mode,
            r1,
            r2,
        );
    }
}

/// Decoding any HF8 byte to FP16 and converting the result back to HF8 (round to nearest even,
/// non-saturating) gives back the byte it started from; the HF8 NaN comes back as itself.
pub proof fn lemma_hf8_fp16_round_trip(b: u8, h: u16, r: u8)
    requires
        hf8_to_fp16_post(b, h),
        fp16_to_fp8_post(Fp8Format::Hf8, h, false, Rounding::NearestEven, r),
    ensures
        r == b,
{
    lemma_pow2_values_small();
    let s = fp8_sign(b);
    let e8 = fp8_exp_field(Fp8Format::Hf8, b);
    let m8 = fp8_mant_field(Fp8Format::Hf8, b);
    lemma_fp8_byte_fields(b);
    if !fp8_is_finite(Fp8Format::Hf8, b) {
        assert(e8 == 15 && m8 == 7);
        let hs = (b >> 7) as u16;
        assert(hs <= 1);
        assert(h == (hs * 0x8000 + 0x7f80) as u16);
        assert(((((hs * 0x8000 + 0x7f80) as u16) >> 10) & 0x1f) == 31 && (((hs * 0x8000 + 0x7f80)
            as u16) & 0x3ff) == 0x380 && (((hs * 0x8000 + 0x7f80) as u16) >> 15) == hs)
            by (bit_vector)
            requires
                hs <= 1,
        ;
        assert(r == (s * 128 + 0x7f) as u8);
    } else {
        let u = fp_units(e8, m8, 3);
        assert(fp8_units(Fp8Format::Hf8, b) == u);
        if e8 == 0 && m8 == 0 {
            assert(u == 0);
            let ef = fp16_exp_field(h);
            if ef > 0 {
                let x = pow2((ef - 1) as nat);
                lemma_pow2_pos((ef - 1) as nat);
                assert((1024 + fp16_mant_field(h)) * x > 0) by (nonlinear_arith)
                    requires
                        x > 0,
                ;
                assert(fp16_units(h) > 0);
            }
            assert(fp16_mant_field(h) == 0);
            assert(r == (s * 128) as u8);
        } else {
            lemma_hf8_decode_rounds_exactly(e8, m8, h);
            let ef16 = fp16_exp_field(h);
            let m16 = fp16_mant_field(h);
            assert(!(ef16 == 0 && m16 == 0)) by {
                if ef16 == 0 && m16 == 0 {
                    assert(fp16_units(h) == 0);
                    lemma_pow2_pos(15);
                    if e8 > 0 {
                        let x = pow2((e8 - 1) as nat);
                        lemma_pow2_pos((e8 - 1) as nat);
                        assert((8 + m8) * x > 0) by (nonlinear_arith)
                            requires
                                x > 0,
                        ;
                    }
                    assert(u > 0);
                    assert(u * 0x8000 > 0) by (nonlinear_arith)
                        requires
                            u > 0,
                    ;
                }
            }
            lemma_fp_units_exceeds(e8, m8, 15, 6, 3);
            let er = fp8_exp_field(Fp8Format::Hf8, r);
            let mr = fp8_mant_field(Fp8Format::Hf8, r);
            lemma_fp8_byte_fields(r);
            lemma_fp_units_injective(er, mr, e8, m8, 3);
        }
    }
}

/// The fields of the fixed FP8 codes: signed zero, the max normals, the overflow codes and the
/// NaNs.
pub(crate) proof fn lemma_fp8_code_fields(s: u32)
    by (bit_vector)
    requires
        s <= 1,
    ensures
        (((s * 128) as u8 >> 2) & 0x1f) == 0 && (((s * 128) as u8) & 3) == 0,
        (((s * 128) as u8 >> 3) & 0xf) == 0 && (((s * 128) as u8) & 7) == 0,
        (((s * 128 + 0x7b) as u8 >> 2) & 0x1f) == 30 && (((s * 128 + 0x7b) as u8) & 3) == 3,
        (((s * 128 + 0x7e) as u8 >> 3) & 0xf) == 15 && (((s * 128 + 0x7e) as u8) & 7) == 6,
        (((s * 128 + 0x7c) as u8 >> 2) & 0x1f) == 31 && (((s * 128 + 0x7c) as u8) & 3) == 0,
        (((s * 128 + 0x7e) as u8 >> 2) & 0x1f) == 31 && (((s * 128 + 0x7e) as u8) & 3) == 2,
        (((s * 128 + 0x7f) as u8 >> 2) & 0x1f) == 31 && (((s * 128 + 0x7f) as u8) & 3) == 3,
        (((s * 128 + 0x7f) as u8 >> 3) & 0xf) == 15 && (((s * 128 + 0x7f) as u8) & 7) == 7,
{
}

/// NaN in, NaN out: an FP16 NaN converts to an FP8 NaN in both formats, saturating or not, under
/// every rounding rule.
pub proof fn lemma_fp16_nan_propagates(fmt: Fp8Format, bits: u16, saturating: bool, mode: Rounding, r: u8)
    requires
        fp16_to_fp8_post(fmt, bits, saturating, mode, r),
        fp16_exp_field(bits) == 31,
        fp16_mant_field(bits) != 0,
    ensures
        !fp8_is_finite(fmt, r),
        fmt is Bf8 ==> fp8_mant_field(fmt, r) != 0,
{
    let s = fp16_sign(bits);
    assert(s <= 1) by {
        vstd::bits::lemma_u16_shr_is_div(bits, 15);
        lemma_pow2_values_small();
    }
    lemma_fp8_code_fields(s);
    let x = (fp16_mant_field(bits) / 256) % 2;
    assert(x == 0 || x == 1);
}

/// A saturating convert of anything but a NaN gives a finite FP8 value: overflow and infinities
/// clamp to the same-signed max normal.
pub proof fn lemma_saturating_stays_finite(fmt: Fp8Format, bits: u16, mode: Rounding, r: u8)
    requires
        fp16_to_fp8_post(fmt, bits, true, mode, r),
        !(fp16_exp_field(bits) == 31 && fp16_mant_field(bits) != 0),
    ensures
        fp8_is_finite(fmt, r),
{
    let s = fp16_sign(bits);
    assert(s <= 1) by {
        vstd::bits::lemma_u16_shr_is_div(bits, 15);
        lemma_pow2_values_small();
    }
    lemma_fp8_code_fields(s);
}

} // verus!
