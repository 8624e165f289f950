//! FP4 (E2M1) micro-format codec and the shared sub-byte field packing.
//!
//! MX FP4 E2M1 is a 4-bit format: sign / 2-bit exponent (bias 1) / 1-bit mantissa, with no
//! infinities and no NaN. Magnitudes: `S.00.0 = 0`, `S.00.1 = +/-0.5` (the only subnormal),
//! `S.01.0 = +/-1.0` (min normal) up to `S.11.1 = +/-6.0` (max normal).
//!
//! Packed micro-format lanes are laid out contiguously from bit 0: bit `b` of a buffer is bit
//! `b % 8` of byte `b / 8`, and lane `i` of width `size` occupies bits `size * i ..
//! size * i + size` (so FP4 lanes are nibble-packed, lane `2j` in the low nibble of byte `j`).
//!
//! The FP8 -> FP4 converts always saturate (NaN, infinity and anything beyond +/-6.0 become
//! the same-signed max normal), treat FP8 subnormal inputs as zero (DAZ = 1) and round to
//! nearest, ties to even. FP4 -> FP8 E4M3 is exact.
use crate::fp8::{fp8_exp_field, fp8_is_finite, fp8_mant_field, fp8_sign, fp8_units, Fp8Format};
use crate::rounding::{
    lemma_fp_units_injective, lemma_rounded_units_representable,
    encode_fields, fmt_sig, fp_units, lemma_fp_units_exceeds, lemma_fp_units_sig,
    lemma_fp_units_strict, lemma_log2_floor_lt, lemma_rounded_units_exact,
    lemma_rounded_units_monotone, round_significand, rounded_units, Rounding,
};
use vstd::arithmetic::power2::{lemma2_to64, pow2};
use vstd::prelude::*;

verus! {

/// Bit `j` (`0 <= j < 8`) of a byte.
pub open spec fn byte_bit(x: u8, j: int) -> bool {
    (x >> (j as u8)) & 1 == 1
}

/// Bit `b` of a packed buffer: bit `b % 8` of byte `b / 8`.
pub open spec fn buf_bit(buf: Seq<u8>, b: int) -> bool {
    byte_bit(buf[b / 8], b % 8)
}

/// The `size`-bit field starting at bit `off` of a packed buffer, right-aligned in a byte.
pub open spec fn field_of(buf: Seq<u8>, off: int, size: int) -> u8
    decreases size,
{
    if size <= 0 {
        0
    } else {
        field_of(buf, off, size - 1) | (if buf_bit(buf, off + size - 1) {
            (1u8 << ((size - 1) as u8)) as u8
        } else {
            0u8
        })
    }
}

/// Bit-level description of [`field_of`]: bit `k` of the field is buffer bit `off + k` for
/// `k < size`, and zero above.
pub proof fn lemma_field_of_bits(buf: Seq<u8>, off: int, size: int, k: int)
    requires
        0 <= size <= 8,
        0 <= k < 8,
    ensures
        byte_bit(field_of(buf, off, size), k) == (k < size && buf_bit(buf, off + k)),
    decreases size,
{
    if size > 0 {
        lemma_field_of_bits(buf, off, size - 1, k);
        let prev = field_of(buf, off, size - 1);
        let j = (size - 1) as u8;
        let kk = k as u8;
        if buf_bit(buf, off + size - 1) {
            assert(field_of(buf, off, size) == prev | (1u8 << j));
            assert(((prev | (1u8 << j)) >> kk) & 1 == 1 <==> (kk == j || (prev >> kk) & 1 == 1))
                by (bit_vector)
                requires
                    j < 8,
                    kk < 8,
            ;
        } else {
            assert(field_of(buf, off, size) == prev | 0u8);
            assert((prev | 0u8) == prev) by (bit_vector);
        }
    } else {
        let kk = k as u8;
        assert((0u8 >> kk) & 1 == 0) by (bit_vector);
    }
}

/// Two bytes with the same eight bits are equal.
pub proof fn lemma_byte_ext(x: u8, y: u8)
    requires
        forall|k: int| 0 <= k < 8 ==> byte_bit(x, k) == byte_bit(y, k),
    ensures
        x == y,
{
    assert(byte_bit(x, 0) == byte_bit(y, 0));
    assert(byte_bit(x, 1) == byte_bit(y, 1));
    assert(byte_bit(x, 2) == byte_bit(y, 2));
    assert(byte_bit(x, 3) == byte_bit(y, 3));
    assert(byte_bit(x, 4) == byte_bit(y, 4));
    assert(byte_bit(x, 5) == byte_bit(y, 5));
    assert(byte_bit(x, 6) == byte_bit(y, 6));
    assert(byte_bit(x, 7) == byte_bit(y, 7));
    assert(x == y) by (bit_vector)
        requires
            (x >> 0u8) & 1 == 1 <==> (y >> 0u8) & 1 == 1,
            (x >> 1u8) & 1 == 1 <==> (y >> 1u8) & 1 == 1,
            (x >> 2u8) & 1 == 1 <==> (y >> 2u8) & 1 == 1,
            (x >> 3u8) & 1 == 1 <==> (y >> 3u8) & 1 == 1,
            (x >> 4u8) & 1 == 1 <==> (y >> 4u8) & 1 == 1,
            (x >> 5u8) & 1 == 1 <==> (y >> 5u8) & 1 == 1,
            (x >> 6u8) & 1 == 1 <==> (y >> 6u8) & 1 == 1,
            (x >> 7u8) & 1 == 1 <==> (y >> 7u8) & 1 == 1,
    ;
}

/// Read the `size`-bit field that starts at bit `bit_offset` of a packed buffer, right-aligned
/// (bits above `size` are zero). A field may straddle a byte boundary.
pub fn extract_field(buf: &[u8], bit_offset: usize, size: usize) -> (r: u8)
    requires
        1 <= size <= 8,
        bit_offset + size <= buf@.len() * 8,
        bit_offset + size <= usize::MAX,
    ensures
        r == field_of(buf@, bit_offset as int, size as int),
{
    let mut acc: u8 = 0;
    let mut j: usize = 0;
    while j < size
        invariant
            j <= size <= 8,
            bit_offset + size <= buf@.len() * 8,
            bit_offset + size <= usize::MAX,
            acc == field_of(buf@, bit_offset as int, j as int),
        decreases size - j,
    {
        let pos = bit_offset + j;
        let byte = buf[pos / 8];
        let sh = (pos % 8) as u8;
        let bit = (byte >> sh) & 1;
        proof {
            let jj = j as u8;
            assert(((byte >> sh) & 1) << jj == (if (byte >> sh) & 1 == 1 {
                1u8 << jj
            } else {
                0u8
            })) by (bit_vector)
                requires
                    jj < 8,
            ;
        }
        acc = acc | (bit << (j as u8));
        j = j + 1;
    }
    acc
}

/// Pack sub-byte values into a bit-packed buffer: lane `i` (the low `size` bits of
/// `values[i]`) is written at bit offset `size * i`; every other bit of `out` is zero.
pub fn pack_fields(values: &[u8], size: usize, out: &mut [u8])
    requires
        1 <= size <= 8,
        values@.len() * size <= old(out)@.len() * 8,
        old(out)@.len() * 8 <= usize::MAX,
    ensures
        final(out)@.len() == old(out)@.len(),
        forall|b: int|
            0 <= b < final(out)@.len() * 8 ==> #[trigger] buf_bit(final(out)@, b) == (b
                < values@.len() * size && byte_bit(values@[b / size as int], b % size as int)),
{
    let n = out.len();
    let total = values.len() * size;
    let mut x: usize = 0;
    while x < n
        invariant
            n == out@.len(),
            n == old(out)@.len(),
            total == values@.len() * size,
            1 <= size <= 8,
            total <= n * 8,
            n * 8 <= usize::MAX,
            x <= n,
            forall|xx: int, k: int|
                0 <= xx < x && 0 <= k < 8 ==> #[trigger] byte_bit(out@[xx], k) == (8 * xx + k
                    < total && byte_bit(values@[(8 * xx + k) / size as int], (8 * xx + k) % size as int)),
        decreases n - x,
    {
        let mut acc: u8 = 0;
        let mut k: usize = 0;
        proof {
            assert forall|kk: int| 0 <= kk < 8 implies !#[trigger] byte_bit(acc, kk) by {
                let kk8 = kk as u8;
                assert((0u8 >> kk8) & 1 == 0) by (bit_vector);
            }
        }
        while k < 8
            invariant
                k <= 8,
                x < n,
                total == values@.len() * size,
                1 <= size <= 8,
                total <= n * 8,
                n * 8 <= usize::MAX,
                forall|kk: int|
                    0 <= kk < 8 ==> #[trigger] byte_bit(acc, kk) == (kk < k && 8 * x + kk < total
                        && byte_bit(values@[(8 * x + kk) / size as int], (8 * x + kk) % size as int)),
            decreases 8 - k,
        {
            let b = 8 * x + k;
            if b < total {
                proof {
                    assert(b / size < values@.len()) by (nonlinear_arith)
                        requires
                            b < values@.len() * size,
                            size > 0,
                    ;
                }
                let lane = values[b / size];
                let sh = (b % size) as u8;
                let bit = (lane >> sh) & 1;
                let kb = k as u8;
                proof {
                    assert forall|kk: int| 0 <= kk < 8 implies #[trigger] byte_bit(acc | (bit << kb), kk)
                        == (kk < k + 1 && 8 * x + kk < total && byte_bit(
                        values@[(8 * x + kk) / size as int],
                        (8 * x + kk) % size as int,
                    )) by {
                        let kk8 = kk as u8;
                        assert(((acc | (((lane >> sh) & 1) << kb)) >> kk8) & 1 == 1 <==> ((kk8 == kb
                            && (lane >> sh) & 1 == 1) || (acc >> kk8) & 1 == 1)) by (bit_vector)
                            requires
                                kb < 8,
                                kk8 < 8,
                        ;
                        let inv = (kk < k && 8 * x + kk < total && byte_bit(
                            values@[(8 * x + kk) / size as int],
                            (8 * x + kk) % size as int,
                        ));
                        assert(byte_bit(acc, kk) == inv);
                        if kk == k {
                            assert(kk8 == kb);
                            assert(8 * x + kk == b);
                            assert((8 * x + kk) / size as int == (b / size) as int);
                            assert((8 * x + kk) % size as int == (b % size) as int);
                            assert(lane == values@[(b / size) as int]);
                            assert(byte_bit(lane, (b % size) as int) == ((lane >> sh) & 1 == 1));
                        } else {
                            assert(kk8 != kb);
                        }
                    }
                }
                acc = acc | (bit << kb);
            } else {
                proof {
                    assert forall|kk: int| 0 <= kk < 8 implies #[trigger] byte_bit(acc, kk) == (kk
                        < k + 1 && 8 * x + kk < total && byte_bit(
                        values@[(8 * x + kk) / size as int],
                        (8 * x + kk) % size as int,
                    )) by {}
                }
            }
            k = k + 1;
        }
        out[x] = acc;
        x = x + 1;
    }
    proof {
        assert forall|b: int| 0 <= b < out@.len() * 8 implies #[trigger] buf_bit(out@, b) == (b
            < values@.len() * size && byte_bit(values@[b / size as int], b % size as int)) by {
            let xx = b / 8;
            let k = b % 8;
            assert(8 * xx + k == b);
            assert(byte_bit(out@[xx], k) == (8 * xx + k < total && byte_bit(
                values@[(8 * xx + k) / size as int],
                (8 * xx + k) % size as int,
            )));
        }
    }
}

/// Pack 4-bit FP4 nibbles two per byte (even lanes in the low nibble); `out` holds exactly
/// `nibbles.len() / 2` bytes.
pub fn pack_nibbles(nibbles: &[u8], out: &mut [u8])
    requires
        nibbles@.len() % 2 == 0,
        old(out)@.len() == nibbles@.len() / 2,
        old(out)@.len() * 8 <= usize::MAX,
    ensures
        final(out)@.len() == old(out)@.len(),
        forall|b: int|
            0 <= b < final(out)@.len() * 8 ==> #[trigger] buf_bit(final(out)@, b) == byte_bit(
                nibbles@[b / 4],
                b % 4,
            ),
{
    pack_fields(nibbles, 4, out);
}

/// Unpack a nibble-packed buffer into one right-aligned 4-bit value per lane.
pub fn unpack_nibbles(buf: &[u8], out: &mut [u8])
    requires
        old(out)@.len() == 2 * buf@.len(),
        buf@.len() * 8 <= usize::MAX,
    ensures
        final(out)@.len() == old(out)@.len(),
        forall|i: int| 0 <= i < final(out)@.len() ==> final(out)@[i] == field_of(buf@, 4 * i, 4),
{
    let n = out.len();
    let mut i: usize = 0;
    while i < n
        invariant
            n == out@.len(),
            n == 2 * buf@.len(),
            buf@.len() * 8 <= usize::MAX,
            i <= n,
            forall|ii: int| 0 <= ii < i ==> out@[ii] == field_of(buf@, 4 * ii, 4),
        decreases n - i,
    {
        let v = extract_field(buf, 4 * i, 4);
        out[i] = v;
        i = i + 1;
    }
}

/// Sign bit of an FP4 code (bit 3).
pub open spec fn fp4_sign(n: u8) -> u32 {
    ((n >> 3) & 1) as u32
}

/// Exponent field of an FP4 code (bits 2:1).
pub open spec fn fp4_exp_field(n: u8) -> nat {
    ((n >> 1) & 3) as nat
}

/// Mantissa field of an FP4 code (bit 0).
pub open spec fn fp4_mant_field(n: u8) -> nat {
    (n & 1) as nat
}

/// Magnitude of an FP4 code in units of its subnormal step `2^-1`.
pub open spec fn fp4_units(n: u8) -> nat {
    fp_units(fp4_exp_field(n), fp4_mant_field(n), 1)
}

/// What the FP8 -> FP4 converts return: NaN and infinity saturate to the same-signed max normal
/// +/-6.0, zeros and FP8 subnormals become a same-signed zero, and every other value is rounded
/// to nearest even and saturated to +/-6.0.
pub open spec fn fp8_to_fp4_post(fmt: Fp8Format, byte: u8, r: u8) -> bool {
    let s = fp8_sign(byte);
    let ef = fp8_exp_field(fmt, byte);
    let m = fp8_mant_field(fmt, byte);
    &&& r < 16
    &&& if !fp8_is_finite(fmt, byte) || (fmt is Bf8 && ef == 31) {
        r == (s * 8 + 7) as u8
    } else if ef == 0 {
        r == (s * 8) as u8
    } else {
        let u = rounded_units(
            fmt_sig(ef, m, fmt.mbits()),
            ef - (if fmt is Bf8 {
                17int
            } else {
                10int
            }),
            1,
            0,
            Rounding::NearestEven,
        );
        if u > fp_units(3, 1, 1) {
            r == (s * 8 + 7) as u8
        } else {
            fp4_sign(r) == s && fp4_units(r) == u
        }
    }
}

/// Round a normal FP8 value `sig * 2^e` to FP4 and assemble the saturated nibble.
fn fp8_normal_to_fp4(sign: u32, sig: u64, e: i32) -> (r: u8)
    requires
        sign <= 1,
        1 <= sig < 16,
        -20 <= e <= 20,
    ensures
        r < 16,
        rounded_units(sig as nat, e as int, 1, 0, Rounding::NearestEven) > fp_units(3, 1, 1) ==> r
            == (sign * 8 + 7) as u8,
        rounded_units(sig as nat, e as int, 1, 0, Rounding::NearestEven) <= fp_units(3, 1, 1) ==> (
        fp4_sign(r) == sign && fp4_units(r) == rounded_units(
            sig as nat,
            e as int,
            1,
            0,
            Rounding::NearestEven,
        )),
{
    let (k, t) = round_significand(sig, e, 1, 0, Rounding::NearestEven);
    let (ef, m) = encode_fields(k, t, 1, -1);
    proof {
        assert(pow2(1) == 2) by {
            lemma2_to64();
        }
        lemma_fp_units_exceeds(ef as nat, m as nat, 3, 1, 1);
        assert((((sign << 3u32) | 7u32) as u8) == (sign * 8 + 7) as u8) by (bit_vector)
            requires
                sign <= 1,
        ;
    }
    if ef > 3 {
        // Beyond +/-6.0: saturate.
        return ((sign << 3) | 7) as u8;
    }
    let mm = m as u32;
    proof {
        assert((((sign << 3u32) | (ef << 1u32) | mm) as u8) < 16 && ((((sign << 3u32) | (ef
            << 1u32) | mm) as u8 >> 3u8) & 1) as u32 == sign && ((((sign << 3u32) | (ef << 1u32)
            | mm) as u8 >> 1u8) & 3) as u32 == ef && (((sign << 3u32) | (ef << 1u32) | mm) as u8
            & 1) as u32 == mm) by (bit_vector)
            requires
                sign <= 1,
                ef <= 3,
                mm <= 1,
        ;
    }
    ((sign << 3) | (ef << 1) | mm) as u8
}

/// Convert one FP8 E4M3 (HF8) byte to its FP4 E2M1 nibble (right-aligned), rounding to nearest
/// even and always saturating; HF8 subnormals become zero (DAZ = 1).
pub fn fp8_e4m3_to_fp4_e2m1(byte: u8) -> (r: u8)
    ensures
        fp8_to_fp4_post(Fp8Format::Hf8, byte, r),
{
    let s = (byte >> 7) as u32;
    let e_i = ((byte >> 3) & 0x0f) as u32;
    let m_i = (byte & 0x07) as u32;
    proof {
        assert((byte >> 7) as u32 <= 1 && ((byte >> 3) & 0xf) < 16 && (byte & 7) < 8 && (((((byte
            >> 7) as u32) << 3u32) | 7u32) as u8) == ((((byte >> 7) as u32) * 8 + 7) as u8) && ((((
        byte >> 7) as u32) << 3u32) as u8) == ((((byte >> 7) as u32) * 8) as u8)) by (bit_vector);
        assert(pow2(3) == 8) by {
            lemma2_to64();
        }
    }
    if e_i == 0xf && m_i == 0x7 {
        // NaN -> FP4 max normal (FP4 has no NaN).
        return ((s << 3) | 7) as u8;
    }
    if e_i == 0 {
        // Zero or subnormal (DAZ = 1) -> FP4 zero.
        return (s << 3) as u8;
    }
    fp8_normal_to_fp4(s, 8 + m_i as u64, e_i as i32 - 10)
}

/// Convert one FP8 E5M2 (BF8) byte to its FP4 E2M1 nibble (right-aligned), rounding to nearest
/// even and always saturating: infinities and NaNs become +/-6.0; BF8 subnormals become zero
/// (DAZ = 1).
pub fn fp8_e5m2_to_fp4_e2m1(byte: u8) -> (r: u8)
    ensures
        fp8_to_fp4_post(Fp8Format::Bf8, byte, r),
{
    let s = (byte >> 7) as u32;
    let e_i = ((byte >> 2) & 0x1f) as u32;
    let m_i = (byte & 0x03) as u32;
    proof {
        assert((byte >> 7) as u32 <= 1 && ((byte >> 2) & 0x1f) < 32 && (byte & 3) < 4 && (((((byte
            >> 7) as u32) << 3u32) | 7u32) as u8) == ((((byte >> 7) as u32) * 8 + 7) as u8) && ((((
        byte >> 7) as u32) << 3u32) as u8) == ((((byte >> 7) as u32) * 8) as u8)) by (bit_vector);
        assert(pow2(2) == 4) by {
            lemma2_to64();
        }
    }
    if e_i == 0x1f {
        // Infinity or NaN -> FP4 max normal (FP4 has neither).
        return ((s << 3) | 7) as u8;
    }
    if e_i == 0 {
        // Zero or subnormal (DAZ = 1) -> FP4 zero.
        return (s << 3) as u8;
    }
    fp8_normal_to_fp4(s, 4 + m_i as u64, e_i as i32 - 17)
}

/// Convert one FP4 E2M1 nibble (bits 3:0; higher bits ignored) to the FP8 E4M3 byte of the
/// same value. Exact: every FP4 magnitude (0, 0.5, 1, 1.5, 2, 3, 4, 6) is an E4M3 value.
pub fn fp4_e2m1_to_fp8_e4m3(nibble: u8) -> (r: u8)
    ensures
        fp8_is_finite(Fp8Format::Hf8, r),
        fp8_sign(r) == fp4_sign(nibble),
        fp8_units(Fp8Format::Hf8, r) == fp4_units(nibble) * pow2(8),
{
    let sign = ((nibble >> 3) & 1) as u32;
    let ef = ((nibble >> 1) & 3) as u32;
    let m = (nibble & 1) as u32;
    proof {
        assert(((nibble >> 3) & 1) <= 1 && ((nibble >> 1) & 3) <= 3 && (nibble & 1) <= 1 && ((((((
        nibble >> 3) & 1) as u32) << 7u32) as u8) >> 7u8) as u32 == ((nibble >> 3) & 1) as u32
            && (((((((nibble >> 3) & 1) as u32) << 7u32) as u8) >> 3u8) & 0xf) == 0 && ((((((nibble
            >> 3) & 1) as u32) << 7u32) as u8) & 7) == 0) by (bit_vector);
        assert(pow2(1) == 2 && pow2(2) == 4 && pow2(3) == 8 && pow2(4) == 16) by {
            lemma2_to64();
        }
    }
    if ef == 0 && m == 0 {
        proof {
            let r = (sign << 7) as u8;
            assert(fp8_exp_field(Fp8Format::Hf8, r) == 0 && fp8_mant_field(Fp8Format::Hf8, r) == 0);
            assert(fp8_units(Fp8Format::Hf8, r) == 0);
            assert(fp4_units(nibble) == 0);
        }
        return (sign << 7) as u8;
    }
    // Exact magnitude `sig * 2^e`: subnormal `m * 2^-1`, normal `(2 + m) * 2^(ef - 2)`.
    let sig: u64 = if ef == 0 {
        m as u64
    } else {
        2 + m as u64
    };
    let e: i32 = (if ef == 0 {
        1
    } else {
        ef as i32
    }) - 2;
    let ghost a: nat = (if ef == 0 {
        0
    } else {
        ef - 1
    }) as nat;
    proof {
        lemma_log2_floor_lt(sig as nat, 2);
        lemma_fp_units_sig(ef as nat, m as nat, 1);
        assert(sig == fmt_sig(ef as nat, m as nat, 1));
        lemma_rounded_units_exact(sig as nat, e as int, 3, -6, Rounding::NearestEven);
        vstd::arithmetic::power2::lemma_pow2_adds(a, 8);
        assert((e + 9) as nat == a + 8);
        vstd::arithmetic::mul::lemma_mul_is_associative(
            sig as int,
            pow2(a) as int,
            pow2(8) as int,
        );
    }
    let (k, t) = round_significand(sig, e, 3, -6, Rounding::NearestEven);
    let (f, mm) = encode_fields(k, t, 3, -9);
    proof {
        // At most 6.0 = 12 * 2^-1, far below the E4M3 NaN slot.
        lemma_fp_units_strict(ef as nat, m as nat, 4, 0, 1);
        assert(fp_units(4, 0, 1) == (pow2(1) + 0) * pow2(3));
        assert(fp_units(4, 0, 1) == 16);
        assert(pow2(8) == 256) by {
            lemma2_to64();
        }
        vstd::arithmetic::mul::lemma_mul_strict_inequality(
            fp_units(ef as nat, m as nat, 1) as int,
            16,
            256,
        );
        assert(fp_units(f as nat, mm as nat, 3) < 4096);
        lemma_fp_units_exceeds(f as nat, mm as nat, 14, 7, 3);
        assert(fp_units(14, 7, 3) == 15 * pow2(13));
        assert(pow2(13) == 8192) by {
            lemma2_to64();
        }
        let fb = f as u32;
        let mb = mm as u32;
        assert((((sign << 7u32) | (fb << 3u32) | mb) as u8 >> 7u8) as u32 == sign && ((((sign
            << 7u32) | (fb << 3u32) | mb) as u8 >> 3u8) & 0xf) as u32 == fb && (((sign << 7u32)
            | (fb << 3u32) | mb) as u8 & 7) as u32 == mb) by (bit_vector)
            requires
                sign <= 1,
                fb <= 14,
                mb <= 7,
        ;
    }
    ((sign << 7) | ((f as u32) << 3) | (mm as u32)) as u8
}

/// Unpack a nibble-packed FP4 buffer into one exact FP8 E4M3 byte per FP4 lane.
pub fn unpack_nibbles_to_fp8_e4m3(buf: &[u8], out: &mut [u8])
    requires
        old(out)@.len() == 2 * buf@.len(),
        buf@.len() * 8 <= usize::MAX,
    ensures
        final(out)@.len() == old(out)@.len(),
        forall|i: int|
            0 <= i < final(out)@.len() ==> {
                let n = field_of(buf@, 4 * i, 4);
                &&& fp8_is_finite(Fp8Format::Hf8, #[trigger] final(out)@[i])
                &&& fp8_sign(final(out)@[i]) == fp4_sign(n)
                &&& fp8_units(Fp8Format::Hf8, final(out)@[i]) == fp4_units(n) * pow2(8)
            },
{
    let n = out.len();
    let mut i: usize = 0;
    while i < n
        invariant
            n == out@.len(),
            n == 2 * buf@.len(),
            buf@.len() * 8 <= usize::MAX,
            i <= n,
            forall|ii: int|
                0 <= ii < i ==> {
                    let nb = field_of(buf@, 4 * ii, 4);
                    &&& fp8_is_finite(Fp8Format::Hf8, #[trigger] out@[ii])
                    &&& fp8_sign(out@[ii]) == fp4_sign(nb)
                    &&& fp8_units(Fp8Format::Hf8, out@[ii]) == fp4_units(nb) * pow2(8)
                },
        decreases n - i,
    {
        let v = fp4_e2m1_to_fp8_e4m3(extract_field(buf, 4 * i, 4));
        out[i] = v;
        i = i + 1;
    }
}

/// The low `size` bits of a byte, as a mask.
pub open spec fn lane_mask(size: u8) -> u8 {
    ((1u16 << size) - 1) as u8
}

/// Bit `k` of `x & lane_mask(size)` is bit `k` of `x` below `size` and clear above; a byte
/// below `2^size` has no bit set at or above `size` (and `2^4` is `16`).
proof fn lemma_low_bits(x: u8, size: u8, k: u8)
    by (bit_vector)
    requires
        1 <= size <= 8,
        k < 8,
    ensures
        ((x & lane_mask(size)) >> k) & 1 == 1 <==> (k < size && (x >> k) & 1 == 1),
        (x as u16) < (1u16 << size) && size <= k ==> (x >> k) & 1 == 0,
        (1u16 << 4u8) == 16u16,
{
}

/// Packing lanes with [`pack_fields`] and reading lane `i` back with [`extract_field`] gives the
/// low `size` bits of the lane's value.
pub proof fn lemma_pack_extract_round_trip(values: Seq<u8>, size: int, buf: Seq<u8>, i: int)
    requires
        1 <= size <= 8,
        0 <= i < values.len(),
        values.len() * size <= buf.len() * 8,
        forall|b: int|
            0 <= b < buf.len() * 8 ==> #[trigger] buf_bit(buf, b) == (b < values.len() * size
                && byte_bit(values[b / size], b % size)),
    ensures
        field_of(buf, size * i, size) == values[i] & lane_mask(size as u8),
{
    let v = values[i];
    let m = v & lane_mask(size as u8);
    assert forall|k: int| 0 <= k < 8 implies byte_bit(field_of(buf, size * i, size), k)
        == byte_bit(m, k) by {
        lemma_field_of_bits(buf, size * i, size, k);
        lemma_low_bits(v, size as u8, k as u8);
        if k < size {
            let b = size * i + k;
            assert(0 <= b < values.len() * size) by (nonlinear_arith)
                requires
                    b == size * i + k,
                    0 <= i < values.len(),
                    0 <= k < size,
            ;
            assert(b == i * size + k) by (nonlinear_arith)
                requires
                    b == size * i + k,
            ;
            vstd::arithmetic::div_mod::lemma_fundamental_div_mod_converse(b, size, i, k);
            assert(buf_bit(buf, b) == byte_bit(values[i], k));
        }
    }
    lemma_byte_ext(field_of(buf, size * i, size), m);
}

/// [`pack_nibbles`] followed by [`unpack_nibbles`] gives back every 4-bit lane.
pub proof fn lemma_nibble_round_trip(nibbles: Seq<u8>, buf: Seq<u8>, i: int)
    requires
        0 <= i < nibbles.len(),
        nibbles[i] < 16,
        nibbles.len() <= buf.len() * 2,
        forall|b: int|
            0 <= b < buf.len() * 8 ==> #[trigger] buf_bit(buf, b) == (b < nibbles.len() * 4
                && byte_bit(nibbles[b / 4], b % 4)),
    ensures
        field_of(buf, 4 * i, 4) == nibbles[i],
{
    let v = nibbles[i];
    lemma_pack_extract_round_trip(nibbles, 4, buf, i);
    assert forall|k: int| 0 <= k < 8 implies byte_bit(v & lane_mask(4u8), k) == byte_bit(v, k) by {
        lemma_low_bits(v, 4u8, k as u8);
    }
    lemma_byte_ext(v & lane_mask(4u8), v);
}

/// Every FP8 -> FP4 result is a 4-bit code carrying the input's sign, and its magnitude never
/// exceeds the FP4 max normal 6.0.
pub proof fn lemma_fp4_sign_and_saturation(fmt: Fp8Format, byte: u8, r: u8)
    requires
        fp8_to_fp4_post(fmt, byte, r),
    ensures
        r < 16,
        fp4_sign(r) == fp8_sign(byte),
        fp4_units(r) <= fp_units(3, 1, 1),
        fp_units(3, 1, 1) == 12,
        r == (fp8_sign(byte) * 8) as u8 ==> fp4_units(r) == 0,
        r == (fp8_sign(byte) * 8 + 7) as u8 ==> fp4_units(r) == 12,
{
    let s = fp8_sign(byte);
    let s8 = (byte >> 7) as u8;
    assert((byte >> 7) <= 1 && ((((((byte >> 7) as u8) * 8 + 7) as u8) >> 3) & 1) == ((byte >> 7)
        as u8) && (((((byte >> 7) as u8) * 8 + 7) as u8 >> 1) & 3) == 3 && (((((byte >> 7) as u8)
        * 8 + 7) as u8) & 1) == 1 && ((((((byte >> 7) as u8) * 8) as u8) >> 3) & 1) == ((byte
        >> 7) as u8) && ((((((byte >> 7) as u8) * 8) as u8) >> 1) & 3) == 0 && (((((byte >> 7)
        as u8) * 8) as u8) & 1) == 0) by (bit_vector);
    assert(s8 == s);
    assert(pow2(1) == 2 && pow2(2) == 4) by {
        lemma2_to64();
    }
    assert(fp_units(3, 1, 1) == (pow2(1) + 1) * pow2(2));
    assert(fp_units(3, 1, 1) == 12);
}

/// The fields of an FP8 byte are in range, and an FP4 code is its sign, exponent and mantissa
/// fields put side by side.
proof fn lemma_fp8_byte_ranges(b: u8)
    by (bit_vector)
    ensures
        (b >> 7) <= 1,
        ((b >> 2) & 0x1f) < 32,
        ((b >> 3) & 0xf) < 16,
        (b & 3) < 4,
        (b & 7) < 8,
        b < 16 ==> b == ((b >> 3) & 1) * 8 + ((b >> 1) & 3) * 2 + (b & 1),
        ((b >> 3) & 1) <= 1,
        ((b >> 1) & 3) < 4,
        (b & 1) < 2,
{
}

/// `byte` is an FP8 NaN: E5M2 all-ones exponent with a nonzero mantissa, or the E4M3 NaN slot.
pub open spec fn fp8_is_nan(fmt: Fp8Format, byte: u8) -> bool {
    match fmt {
        Fp8Format::Bf8 => fp8_exp_field(fmt, byte) == 31 && fp8_mant_field(fmt, byte) != 0,
        Fp8Format::Hf8 => fp8_exp_field(fmt, byte) == 15 && fp8_mant_field(fmt, byte) == 7,
    }
}

/// `byte` is an E5M2 infinity.
pub open spec fn fp8_is_inf(fmt: Fp8Format, byte: u8) -> bool {
    fmt is Bf8 && fp8_exp_field(fmt, byte) == 31 && fp8_mant_field(fmt, byte) == 0
}

/// The magnitude of `x` is at most that of `y` (infinity being the largest).
pub open spec fn fp8_mag_le(fmt: Fp8Format, x: u8, y: u8) -> bool {
    fp8_is_inf(fmt, y) || (!fp8_is_inf(fmt, x) && fp8_units(fmt, x) <= fp8_units(fmt, y))
}

/// `x <= y` as signed FP8 values (`-0 == +0`).
pub open spec fn fp8_le(fmt: Fp8Format, x: u8, y: u8) -> bool {
    let sx = fp8_sign(x);
    let sy = fp8_sign(y);
    if sx == 1 && sy == 0 {
        true
    } else if sx == 0 && sy == 0 {
        fp8_mag_le(fmt, x, y)
    } else if sx == 1 && sy == 1 {
        fp8_mag_le(fmt, y, x)
    } else {
        !fp8_is_inf(fmt, x) && !fp8_is_inf(fmt, y) && fp8_units(fmt, x) == 0 && fp8_units(fmt, y)
            == 0
    }
}

/// `a <= b` as signed FP4 values (`-0 == +0`).
pub open spec fn fp4_le(a: u8, b: u8) -> bool {
    let sa = fp4_sign(a);
    let sb = fp4_sign(b);
    if sa == 1 && sb == 0 {
        true
    } else if sa == 0 && sb == 0 {
        fp4_units(a) <= fp4_units(b)
    } else if sa == 1 && sb == 1 {
        fp4_units(b) <= fp4_units(a)
    } else {
        fp4_units(a) == 0 && fp4_units(b) == 0
    }
}

/// The FP8 -> FP4 converts never shrink a larger magnitude below a smaller one.
proof fn lemma_fp4_magnitude_monotone(fmt: Fp8Format, x: u8, y: u8, rx: u8, ry: u8)
    requires
        fp8_to_fp4_post(fmt, x, rx),
        fp8_to_fp4_post(fmt, y, ry),
        !fp8_is_nan(fmt, x),
        !fp8_is_nan(fmt, y),
        fp8_mag_le(fmt, x, y),
    ensures
        fp4_units(rx) <= fp4_units(ry),
{
    lemma_fp4_sign_and_saturation(fmt, x, rx);
    lemma_fp4_sign_and_saturation(fmt, y, ry);
    lemma2_to64();
    let mb = fmt.mbits();
    let off: int = if fmt is Bf8 {
        17
    } else {
        10
    };
    let ex = fp8_exp_field(fmt, x);
    let mx = fp8_mant_field(fmt, x);
    let ey = fp8_exp_field(fmt, y);
    let my = fp8_mant_field(fmt, y);
    lemma_fp8_byte_ranges(x);
    lemma_fp8_byte_ranges(y);
    assert(mx < pow2(mb) && my < pow2(mb) && ex < 32 && ey < 32);
    if fp8_is_inf(fmt, y) {
        return;
    }
    if ex == 0 {
        return;
    }
    if ey == 0 {
        lemma_fp_units_strict(0, my, ex, mx, mb);
        return;
    }
    let sx = fmt_sig(ex, mx, mb);
    let sy = fmt_sig(ey, my, mb);
    lemma_fp_units_sig(ex, mx, mb);
    lemma_fp_units_sig(ey, my, mb);
    vstd::arithmetic::power2::lemma_pow2_unfold(ex);
    vstd::arithmetic::power2::lemma_pow2_unfold(ey);
    let px = pow2((ex - 1) as nat);
    let py = pow2((ey - 1) as nat);
    assert(sx * pow2(ex) <= sy * pow2(ey)) by (nonlinear_arith)
        requires
            sx * px <= sy * py,
            pow2(ex) == 2 * px,
            pow2(ey) == 2 * py,
    ;
    assert(((ex - off) - (-off)) as nat == ex && ((ey - off) - (-off)) as nat == ey);
    lemma_rounded_units_monotone(sx, ex - off, sy, ey - off, -off, 1, 0);
    let ux = rounded_units(sx, ex - off, 1, 0, Rounding::NearestEven);
    let uy = rounded_units(sy, ey - off, 1, 0, Rounding::NearestEven);
    assert(ux <= uy);
    match fmt {
        Fp8Format::Bf8 => {
            assert(ex <= 30 && ey <= 30 && mx < 4 && my < 4);
        },
        Fp8Format::Hf8 => {
            assert(ex < 16 && ey < 16 && mx < 8 && my < 8);
        },
    }
    assert(fp8_is_finite(fmt, x) && fp8_is_finite(fmt, y));
    assert(fp4_units(rx) == if ux > 12 { 12 } else { ux });
    assert(fp4_units(ry) == if uy > 12 { 12 } else { uy });
}

/// The FP8 -> FP4 converts are monotone: for non-NaN inputs `x <= y`, the FP4 results keep the
/// order.
pub proof fn lemma_fp4_monotone(fmt: Fp8Format, x: u8, y: u8, rx: u8, ry: u8)
    requires
        fp8_to_fp4_post(fmt, x, rx),
        fp8_to_fp4_post(fmt, y, ry),
        !fp8_is_nan(fmt, x),
        !fp8_is_nan(fmt, y),
        fp8_le(fmt, x, y),
    ensures
        fp4_le(rx, ry),
{
    lemma_fp4_sign_and_saturation(fmt, x, rx);
    lemma_fp4_sign_and_saturation(fmt, y, ry);
    let sx = fp8_sign(x);
    let sy = fp8_sign(y);
    lemma_fp8_byte_ranges(x);
    lemma_fp8_byte_ranges(y);
    if sx == 0 && sy == 0 {
        lemma_fp4_magnitude_monotone(fmt, x, y, rx, ry);
    } else if sx == 1 && sy == 1 {
        lemma_fp4_magnitude_monotone(fmt, y, x, ry, rx);
    } else if sx == 0 && sy == 1 {
        lemma_fp8_zero_units(fmt, x);
        lemma_fp8_zero_units(fmt, y);
    }
}

/// A non-infinite FP8 byte of zero magnitude has a zero exponent field.
proof fn lemma_fp8_zero_units(fmt: Fp8Format, b: u8)
    requires
        !fp8_is_inf(fmt, b),
        fp8_units(fmt, b) == 0,
    ensures
        fp8_exp_field(fmt, b) == 0,
{
    let e = fp8_exp_field(fmt, b);
    let m = fp8_mant_field(fmt, b);
    lemma2_to64();
    lemma_fp8_byte_ranges(b);
    assert(m < pow2(fmt.mbits()));
    if e > 0 {
        lemma_fp_units_strict(0, 0, e, m, fmt.mbits());
    }
}

/// Widening an FP4 code to FP8 E4M3 and narrowing it back gives back the code, for all sixteen
/// codes, negative zero included.
pub proof fn lemma_fp4_e4m3_round_trip(n: u8, e: u8, r: u8)
    requires
        n < 16,
        fp8_is_finite(Fp8Format::Hf8, e),
        fp8_sign(e) == fp4_sign(n),
        fp8_units(Fp8Format::Hf8, e) == fp4_units(n) * pow2(8),
        fp8_to_fp4_post(Fp8Format::Hf8, e, r),
    ensures
        r == n,
{
    lemma2_to64();
    lemma_fp8_byte_ranges(e);
    lemma_fp8_byte_ranges(n);
    lemma_fp8_byte_ranges(r);
    let big_e = fp4_exp_field(n);
    let m = fp4_mant_field(n);
    let u4 = fp4_units(n);
    let ef8 = fp8_exp_field(Fp8Format::Hf8, e);
    let m8 = fp8_mant_field(Fp8Format::Hf8, e);
    if u4 == 0 {
        assert(fp8_units(Fp8Format::Hf8, e) == 0);
        lemma_fp8_zero_units(Fp8Format::Hf8, e);
        if big_e > 0 {
            lemma_fp_units_strict(0, 0, big_e, m, 1);
        }
        assert(m == 0);
    } else {
        assert(fp8_units(Fp8Format::Hf8, e) >= 256) by (nonlinear_arith)
            requires
                fp8_units(Fp8Format::Hf8, e) == u4 * 256,
                u4 >= 1,
        ;
        assert(ef8 != 0);
        lemma_fp_units_sig(ef8, m8, 3);
        lemma_rounded_units_representable(fmt_sig(ef8, m8, 3), ef8 - 10, 1, 0, big_e, m, -9);
        lemma_fp_units_exceeds(big_e, m, 3, 1, 1);
        lemma_fp_units_injective(fp4_exp_field(r), fp4_mant_field(r), big_e, m, 1);
    }
}

} // verus!
