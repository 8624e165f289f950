//! Exact value model and the shared rounding engine behind every floating-point narrowing
//! conversion of the crate.
//!
//! A finite binary floating-point magnitude is modelled as `sig * 2^exp` for a natural
//! significand `sig` and an integer exponent `exp`. A target format is described by its number
//! of stored mantissa bits `mbits` and its minimum normal (unbiased) exponent `emin`; its
//! smallest subnormal step is `2^(emin - mbits)`, and every finite magnitude of the format is
//! an integral number of those steps ([`fp_units`]).
//!
//! Rounding a value to the format keeps the bits down to the target's least-significant
//! position `t` ([`lsb_exp`]): `t` sits `mbits` below the value's leading bit, but never below
//! the subnormal step. The kept significand is the value divided by `2^t`, rounded by one of
//! the [`Rounding`] rules ([`div_round`]).
use vstd::arithmetic::div_mod::*;
use vstd::arithmetic::mul::*;
use vstd::arithmetic::power2::*;
use vstd::bits::*;
use vstd::prelude::*;

verus! {

/// Floor of the base-2 logarithm: the index of the most significant set bit (`0` for `x < 2`).
pub open spec fn log2_floor(x: nat) -> nat
    decreases x,
{
    if x < 2 {
        0
    } else {
        1 + log2_floor(x / 2)
    }
}

/// How the bits below the target's least-significant position are disposed of.
#[derive(Clone, Copy, Debug)]
pub enum Rounding {
    /// Round to nearest, ties to even.
    NearestEven,
    /// Round to odd: truncate, then force the kept lsb to one if anything was discarded.
    ToOdd,
    /// Add the 8-bit bias into the discarded window, aligned so that the bias byte's most
    /// significant bit sits just below the kept lsb, then truncate.
    BiasWindow(u8),
    /// Add the bias at the least-significant position of the source significand, then truncate.
    BiasLsb(u32),
}

/// `n / 2^s` rounded by `mode`.
pub open spec fn div_round(n: nat, s: nat, mode: Rounding) -> nat {
    let d = pow2(s);
    let q = n / d;
    let r = n % d;
    match mode {
        Rounding::NearestEven => if 2 * r > d || (2 * r == d && q % 2 == 1) {
            q + 1
        } else {
            q
        },
        Rounding::ToOdd => if r != 0 && q % 2 == 0 {
            q + 1
        } else {
            q
        },
        Rounding::BiasWindow(b) => (n * 256 + (b as nat) * d) / (256 * d),
        Rounding::BiasLsb(b) => (n + (b as nat)) / d,
    }
}

/// Exponent of the least-significant kept bit when `sig * 2^exp` is rounded to a format with
/// `mbits` stored mantissa bits and minimum normal exponent `emin`.
pub open spec fn lsb_exp(sig: nat, exp: int, mbits: nat, emin: int) -> int {
    let top = log2_floor(sig) + exp;
    (if top >= emin {
        top
    } else {
        emin
    }) - mbits
}

/// The rounded significand of `sig * 2^exp` at least-significant exponent `t`.
pub open spec fn round_sig(sig: nat, exp: int, t: int, mode: Rounding) -> nat {
    if t <= exp {
        sig * pow2((exp - t) as nat)
    } else {
        div_round(sig, (t - exp) as nat, mode)
    }
}

/// The magnitude `sig * 2^exp` rounded to the target format, in units of the format's smallest
/// subnormal step `2^(emin - mbits)` (before any overflow handling).
pub open spec fn rounded_units(sig: nat, exp: int, mbits: nat, emin: int, mode: Rounding) -> nat {
    let t = lsb_exp(sig, exp, mbits, emin);
    round_sig(sig, exp, t, mode) * pow2((t - (emin - mbits)) as nat)
}

/// Magnitude of the encoding with exponent field `ef` and mantissa field `m`, in units of the
/// format's smallest subnormal step (subnormal when `ef == 0`, implicit leading one otherwise).
pub open spec fn fp_units(ef: nat, m: nat, mbits: nat) -> nat {
    if ef == 0 {
        m
    } else {
        (pow2(mbits) + m) * pow2((ef - 1) as nat)
    }
}

/// `2^log2_floor(x) <= x < 2^(log2_floor(x) + 1)` for positive `x`.
pub proof fn lemma_log2_floor_bounds(x: nat)
    requires
        x >= 1,
    ensures
        pow2(log2_floor(x)) <= x < pow2(log2_floor(x) + 1),
    decreases x,
{
    if x < 2 {
        lemma2_to64();
    } else {
        lemma_log2_floor_bounds(x / 2);
        let n = log2_floor(x / 2);
        lemma_pow2_unfold(n + 1);
        lemma_pow2_unfold(n + 2);
    }
}

/// The leading-bit index is determined by any power-of-two bracket of `x`.
pub proof fn lemma_log2_floor_unique(x: nat, n: nat)
    requires
        pow2(n) <= x < pow2(n + 1),
    ensures
        log2_floor(x) == n,
{
    lemma_pow2_pos(n);
    lemma_log2_floor_bounds(x);
    let l = log2_floor(x);
    if l < n {
        lemma_pow2_increases_le(l + 1, n);
    } else if l > n {
        lemma_pow2_increases_le(n + 1, l);
    }
}

/// Powers of two are monotone in the exponent.
pub proof fn lemma_pow2_increases_le(a: nat, b: nat)
    requires
        a <= b,
    ensures
        pow2(a) <= pow2(b),
{
    if a < b {
        lemma_pow2_strictly_increases(a, b);
    }
}

/// `(d * q + x) / d == q + x / d` and `(d * q + x) % d == x % d` for naturals.
pub proof fn lemma_div_add_multiple(q: nat, x: nat, d: nat)
    requires
        d > 0,
    ensures
        (d * q + x) / d == q + x / d,
        (d * q + x) % d == x % d,
{
    lemma_fundamental_div_mod(x as int, d as int);
    let xq = x / d;
    let xr = x % d;
    lemma_mod_bound(x as int, d as int);
    lemma_mul_is_distributive_add(d as int, q as int, xq as int);
    lemma_fundamental_div_mod_converse((d * q + x) as int, d as int, (q + xq) as int, xr as int);
}

/// Index of the most significant set bit.
pub fn msb_u64(x: u64) -> (r: u32)
    requires
        x >= 1,
    ensures
        r == log2_floor(x as nat),
        r < 64,
{
    proof {
        lemma_log2_floor_bounds(x as nat);
        if log2_floor(x as nat) >= 64 {
            lemma_pow2_increases_le(64, log2_floor(x as nat));
            lemma2_to64_rest();
        }
    }
    let mut y = x;
    let mut r: u32 = 0;
    while y > 1
        invariant
            1 <= y <= x,
            r + log2_floor(y as nat) == log2_floor(x as nat),
            log2_floor(x as nat) < 64,
        decreases y,
    {
        y = y / 2;
        r = r + 1;
    }
    r
}

/// `div_round` in terms of the truncated quotient and the remainder, for the bias rules.
proof fn lemma_bias_window(n: nat, s: nat, b: nat)
    requires
        b < 256,
        s > 0,
    ensures
        (n * 256 + b * pow2(s)) / (256 * pow2(s)) == n / pow2(s) + (n % pow2(s) + (b * pow2(s))
            / 256) / pow2(s),
{
    let d = pow2(s);
    lemma_pow2_pos(s);
    let q = n / d;
    let r = n % d;
    lemma_fundamental_div_mod(n as int, d as int);
    // (n*256 + b*d) / (256*d) == ((n*256 + b*d) / 256) / d
    lemma_div_denominator((n * 256 + b * d) as int, 256, d as int);
    // (n*256 + b*d)/256 == n + (b*d)/256
    lemma_div_add_multiple(n, b * d, 256);
    assert(256 * n == n * 256);
    // n + (b*d)/256 == d*q + (r + (b*d)/256)
    assert(n + (b * d) / 256 == d * q + (r + (b * d) / 256));
    lemma_div_add_multiple(q, r + (b * d) / 256, d);
}

proof fn lemma_bias_lsb(n: nat, s: nat, b: nat)
    ensures
        (n + b) / pow2(s) == n / pow2(s) + (n % pow2(s) + b) / pow2(s),
{
    let d = pow2(s);
    lemma_pow2_pos(s);
    lemma_fundamental_div_mod(n as int, d as int);
    lemma_div_add_multiple(n / d, n % d + b, d);
}

/// `floor(b * 2^s / 256)` as the aligned bias the engine adds into the discarded window.
proof fn lemma_bias_scaled(b: u64, s: u64)
    requires
        b < 256,
        0 < s < 48,
    ensures
        s >= 8 ==> (b << ((s - 8) as u64)) == (b * pow2(s as nat)) / 256,
        s < 8 ==> (b >> ((8 - s) as u64)) == (b * pow2(s as nat)) / 256,
        s >= 8 ==> (b << ((s - 8) as u64)) < pow2(48),
{
    lemma_pow2_pos(s as nat);
    if s >= 8 {
        let e = (s - 8) as nat;
        lemma_pow2_adds(e, 8);
        assert(pow2(8) == 256) by {
            lemma2_to64();
        }
        lemma_u64_pow2_no_overflow(e);
        lemma_pow2_strictly_increases(e, 40);
        assert(pow2(40) == 0x100_0000_0000) by {
            lemma2_to64_rest();
        }
        assert(b * pow2(e) < 256 * pow2(40)) by {
            lemma_mul_strict_inequality(pow2(e) as int, pow2(40) as int, 256);
            lemma_mul_inequality(b as int, 256, pow2(e) as int);
        }
        assert(pow2(48) == 0x1_0000_0000_0000) by {
            lemma2_to64_rest();
        }
        lemma_u64_shl_is_mul(b, (s - 8) as u64);
        assert(b * pow2(s as nat) == (b * pow2(e)) * 256) by {
            lemma_mul_is_associative(b as int, pow2(e) as int, 256);
        }
        lemma_div_multiples_vanish((b * pow2(e)) as int, 256);
    } else {
        let e = (8 - s) as nat;
        lemma_pow2_adds(s as nat, e);
        assert(pow2(8) == 256) by {
            lemma2_to64();
        }
        lemma_u64_shr_is_div(b, (8 - s) as u64);
        // b * 2^s / 256 == b / 2^(8-s)
        lemma_pow2_pos(e);
        assert((b as nat) * pow2(s as nat) / (pow2(s as nat) * pow2(e)) == (b as nat) / pow2(e)) by {
            lemma_div_denominator((b * pow2(s as nat)) as int, pow2(s as nat) as int, pow2(e) as int);
            lemma_div_multiples_vanish(b as int, pow2(s as nat) as int);
            assert(b * pow2(s as nat) == pow2(s as nat) * b) by {
                lemma_mul_is_commutative(b as int, pow2(s as nat) as int);
            }
        }
    }
}

/// The rounded significand lies within one step of the truncated quotient.
proof fn lemma_div_round_bounds(n: nat, s: nat, mode: Rounding)
    requires
        s > 0,
        mode matches Rounding::BiasLsb(b) ==> b < pow2(s),
    ensures
        n / pow2(s) <= div_round(n, s, mode) <= n / pow2(s) + 1,
{
    let d = pow2(s);
    lemma_pow2_pos(s);
    let q = n / d;
    let r = n % d;
    lemma_mod_bound(n as int, d as int);
    match mode {
        Rounding::BiasWindow(b) => {
            lemma_bias_window(n, s, b as nat);
            lemma_mul_inequality(b as int, 256, d as int);
            lemma_div_is_ordered(0, (b * d) as int, 256);
            lemma_div_is_ordered((b * d) as int, (256 * d) as int, 256);
            lemma_div_multiples_vanish(d as int, 256);
            assert(256 * d == d * 256);
            lemma_mul_inequality(b as int, 256, d as int);
            lemma_div_is_ordered(0, (r + (b * d) / 256) as int, d as int);
            assert(r + (b * d) / 256 < 2 * d);
            lemma_div_is_ordered((r + (b * d) / 256) as int, (2 * d - 1) as int, d as int);
            lemma_div_add_multiple(1, (d - 1) as nat, d);
            assert((d - 1) as nat / d == 0) by {
                lemma_basic_div(d as int - 1, d as int);
            }
        },
        Rounding::BiasLsb(b) => {
            lemma_bias_lsb(n, s, b as nat);
            lemma_div_is_ordered(0, (r + b) as int, d as int);
            lemma_div_is_ordered((r + b) as int, (2 * d - 1) as int, d as int);
            lemma_div_add_multiple(1, (d - 1) as nat, d);
            assert((d - 1) as nat / d == 0) by {
                lemma_basic_div(d as int - 1, d as int);
            }
        },
        _ => {},
    }
}

/// Rounds the positive magnitude `sig * 2^exp` to a format with `mbits` stored mantissa bits
/// and minimum normal exponent `emin`. Returns the kept significand `k` and the exponent `t`
/// of its least-significant bit, so the rounded magnitude is `k * 2^t`.
///
/// For a normal result `k` lies in `[2^mbits, 2^(mbits+1)]` (the upper end when rounding
/// carried into the next binade); at the subnormal step `t == emin - mbits` it is at most
/// `2^(mbits+1)`.
pub fn round_significand(sig: u64, exp: i32, mbits: u32, emin: i32, mode: Rounding) -> (res: (
    u64,
    i32,
))
    requires
        1 <= sig < 0x100_0000_0000,
        -400 <= exp <= 400,
        -400 <= emin <= 400,
        mbits <= 23,
        mode matches Rounding::BiasLsb(b) ==> log2_floor(sig as nat) > mbits && b < pow2(
            (log2_floor(sig as nat) - mbits) as nat,
        ),
    ensures
        res.1 == lsb_exp(sig as nat, exp as int, mbits as nat, emin as int),
        res.0 == round_sig(sig as nat, exp as int, res.1 as int, mode),
        res.1 >= emin - mbits,
        res.1 <= 440,
        res.1 == emin - mbits ==> res.0 <= pow2(mbits as nat + 1),
        res.1 > emin - mbits ==> pow2(mbits as nat) <= res.0 <= pow2(mbits as nat + 1),
{
    let msb = msb_u64(sig);
    proof {
        lemma_log2_floor_bounds(sig as nat);
        assert(pow2(40) == 0x100_0000_0000) by {
            lemma2_to64_rest();
        }
        if msb >= 40 {
            lemma_pow2_increases_le(40, msb as nat);
        }
    }
    let top: i32 = msb as i32 + exp;
    let hi: i32 = if top >= emin {
        top
    } else {
        emin
    };
    let t: i32 = hi - mbits as i32;
    let s: i32 = t - exp;
    let k: u64;
    if s <= 0 {
        let up: u32 = (0 - s) as u32;
        proof {
            // up <= mbits - msb, so sig * 2^up < 2^(mbits + 1)
            lemma_pow2_pos(up as nat);
            lemma_pow2_adds(msb as nat + 1, up as nat);
            lemma_mul_strict_inequality(sig as int, pow2(msb as nat + 1) as int, pow2(up as nat) as int);
            lemma_pow2_increases_le(msb as nat + 1 + up as nat, mbits as nat + 1);
            assert(pow2(24) == 0x100_0000) by {
                lemma2_to64();
            }
            lemma_pow2_increases_le(mbits as nat + 1, 24);
            lemma_u64_shl_is_mul(sig, up as u64);
        }
        k = sig << (up as u64);
        proof {
            lemma_round_range(sig as nat, exp as int, mbits as nat, emin as int, mode);
        }
    } else if s >= 48 {
        k = match mode {
            Rounding::ToOdd => 1,
            _ => 0,
        };
        proof {
            lemma_round_far(sig as nat, s as nat, mode);
            lemma_round_range(sig as nat, exp as int, mbits as nat, emin as int, mode);
        }
    } else {
        let su: u64 = s as u64;
        proof {
            lemma_u64_pow2_no_overflow(su as nat);
            lemma_u64_shl_is_mul(1, su);
        }
        let d: u64 = 1u64 << su;
        let q: u64 = sig >> su;
        let r: u64 = sig & (d - 1);
        proof {
            lemma_u64_shr_is_div(sig, su);
            lemma_pow2_pos(su as nat);
            assert(d - 1 == low_bits_mask(su as nat));
            lemma_u64_low_bits_mask_is_mod(sig, su as nat);
            lemma_mod_bound(sig as int, d as int);
            lemma_div_is_ordered(sig as int, 0x100_0000_0000, d as int);
            lemma_div_basics(0x100_0000_0000);
            lemma_div_nonincreasing_nat(0x100_0000_0000, d as nat);
            assert(q & 1 == 1 <==> q % 2 == 1) by (bit_vector);
            assert(pow2(48) == 0x1_0000_0000_0000) by {
                lemma2_to64_rest();
            }
            lemma_pow2_strictly_increases(su as nat, 48);
        }
        k = match mode {
            Rounding::NearestEven => {
                proof {
                    lemma_u64_pow2_no_overflow((su - 1) as nat);
                    lemma_u64_shl_is_mul(1, (su - 1) as u64);
                    lemma_pow2_unfold(su as nat);
                }
                let half: u64 = 1u64 << (su - 1);
                let kk = if r > half || (r == half && q & 1 == 1) {
                    q + 1
                } else {
                    q
                };
                assert(kk == div_round(sig as nat, su as nat, mode));
                kk
            },
            Rounding::ToOdd => {
                assert(q & 1 == 0 <==> q % 2 == 0) by (bit_vector);
                let kk = if r != 0 && q & 1 == 0 {
                    q + 1
                } else {
                    q
                };
                assert(kk == div_round(sig as nat, su as nat, mode));
                kk
            },
            Rounding::BiasWindow(b) => {
                proof {
                    lemma_bias_scaled(b as u64, su);
                    lemma_bias_window(sig as nat, su as nat, b as nat);
                    if su < 8 {
                        lemma_u64_shr_is_div(b as u64, (8 - su) as u64);
                        lemma_pow2_pos((8 - su) as nat);
                        lemma_div_nonincreasing_nat(b as nat, pow2((8 - su) as nat));
                    }
                }
                let bs: u64 = if su >= 8 {
                    (b as u64) << (su - 8)
                } else {
                    (b as u64) >> (8 - su)
                };
                proof {
                    lemma_u64_shr_is_div((r + bs) as u64, su);
                    lemma_div_nonincreasing_nat((r + bs) as nat, d as nat);
                }
                let kk = q + ((r + bs) >> su);
                assert(kk == div_round(sig as nat, su as nat, mode));
                kk
            },
            Rounding::BiasLsb(b) => {
                proof {
                    lemma_bias_lsb(sig as nat, su as nat, b as nat);
                    lemma_u64_shr_is_div((r + b as u64) as u64, su);
                    lemma_div_nonincreasing_nat((r + b) as nat, d as nat);
                }
                let kk = q + ((r + b as u64) >> su);
                assert(kk == div_round(sig as nat, su as nat, mode));
                kk
            },
        };
        proof {
            lemma_round_range(sig as nat, exp as int, mbits as nat, emin as int, mode);
        }
    }
    (k, t)
}

proof fn lemma_div_nonincreasing_nat(n: nat, d: nat)
    requires
        d > 0,
    ensures
        n / d <= n,
{
    lemma_div_is_ordered_by_denominator(n as int, 1, d as int);
}

/// When the discard window is far wider than the significand, only the round-to-odd rule keeps
/// anything.
proof fn lemma_round_far(n: nat, s: nat, mode: Rounding)
    requires
        1 <= n < 0x100_0000_0000,
        s >= 48,
        mode matches Rounding::BiasLsb(b) ==> b < 0x100_0000_0000,
    ensures
        div_round(n, s, mode) == (if mode is ToOdd {
            1nat
        } else {
            0nat
        }),
{
    let d = pow2(s);
    assert(pow2(48) == 0x1_0000_0000_0000) by {
        lemma2_to64_rest();
    }
    lemma_pow2_increases_le(48, s);
    lemma_small_div_nat(n, d);
    lemma_small_mod(n, d);
    match mode {
        Rounding::BiasWindow(b) => {
            lemma_mul_inequality(b as int, 255, d as int);
            lemma_small_div_nat(n * 256 + (b as nat) * d, 256 * d);
        },
        Rounding::BiasLsb(b) => {
            lemma_small_div_nat(n + (b as nat), d);
        },
        _ => {},
    }
}

proof fn lemma_small_div_nat(n: nat, d: nat)
    requires
        n < d,
    ensures
        n / d == 0,
{
    lemma_basic_div(n as int, d as int);
}

/// Range of the rounded significand, in the normal and subnormal cases.
proof fn lemma_round_range(sig: nat, exp: int, mbits: nat, emin: int, mode: Rounding)
    requires
        sig >= 1,
        mode matches Rounding::BiasLsb(b) ==> log2_floor(sig) > mbits && b < pow2(
            (log2_floor(sig) - mbits) as nat,
        ),
    ensures
        ({
            let t = lsb_exp(sig, exp, mbits, emin);
            let k = round_sig(sig, exp, t, mode);
            &&& t >= emin - mbits
            &&& t == emin - mbits ==> k <= pow2(mbits + 1)
            &&& t > emin - mbits ==> pow2(mbits) <= k <= pow2(mbits + 1)
        }),
{
    let msb = log2_floor(sig);
    let top = msb + exp;
    let t = lsb_exp(sig, exp, mbits, emin);
    lemma_log2_floor_bounds(sig);
    lemma_pow2_unfold(mbits + 1);
    if t <= exp {
        let up = (exp - t) as nat;
        let k = sig * pow2(up);
        lemma_pow2_pos(up);
        lemma_pow2_adds(msb, up);
        lemma_pow2_adds(msb + 1, up);
        lemma_mul_inequality(pow2(msb) as int, sig as int, pow2(up) as int);
        lemma_mul_strict_inequality(sig as int, pow2(msb + 1) as int, pow2(up) as int);
        if top >= emin {
            // up == mbits - msb
            assert(msb + up == mbits);
        } else {
            assert(msb + 1 + up <= mbits);
            lemma_pow2_increases_le(msb + 1 + up, mbits);
        }
    } else {
        let s = (t - exp) as nat;
        let q = sig / pow2(s);
        lemma_pow2_pos(s);
        if mode matches Rounding::BiasLsb(b) {
            if top >= emin {
                assert(s == msb - mbits);
            } else {
                assert(t == emin - mbits);
                assert(msb < emin - exp);
                assert(s == emin - mbits - exp);
                assert((msb - mbits) as nat <= s);
                lemma_pow2_increases_le((msb - mbits) as nat, s);
            }
        }
        lemma_div_round_bounds(sig, s, mode);
        if top >= emin {
            // s == msb - mbits; q in [2^mbits, 2^(mbits+1))
            assert(s + mbits == msb);
            lemma_pow2_adds(s, mbits);
            lemma_pow2_adds(s, mbits + 1);
            lemma_div_is_ordered((pow2(s) * pow2(mbits)) as int, sig as int, pow2(s) as int);
            lemma_div_multiples_vanish(pow2(mbits) as int, pow2(s) as int);
            lemma_div_bound_strict(sig, pow2(s), pow2(mbits + 1));
        } else {
            // sig < 2^(msb+1) <= 2^(s + mbits): q < 2^mbits
            lemma_pow2_increases_le(msb + 1, s + mbits);
            lemma_pow2_adds(s, mbits);
            lemma_div_bound_strict(sig, pow2(s), pow2(mbits));
            lemma_pow2_strictly_increases(mbits, mbits + 1);
        }
    }
}

/// `n < d * c` implies `n / d < c`.
proof fn lemma_div_bound_strict(n: nat, d: nat, c: nat)
    requires
        d > 0,
        n < d * c,
    ensures
        n / d < c,
{
    lemma_fundamental_div_mod(n as int, d as int);
    lemma_mod_bound(n as int, d as int);
    if n / d >= c {
        lemma_mul_inequality(c as int, (n / d) as int, d as int);
        lemma_mul_is_commutative(c as int, d as int);
        lemma_mul_is_commutative((n / d) as int, d as int);
    }
}

/// Exponent and mantissa fields of the rounded magnitude `k * 2^t`, in a format with `mbits`
/// stored mantissa bits whose smallest subnormal step is `2^tmin`. A significand that carried
/// into the next binade (`k == 2^(mbits+1)`) is renormalised.
pub fn encode_fields(k: u64, t: i32, mbits: u32, tmin: i32) -> (res: (u32, u64))
    requires
        mbits <= 23,
        tmin <= t <= tmin + 1000,
        t == tmin ==> k <= pow2(mbits as nat + 1),
        t > tmin ==> pow2(mbits as nat) <= k <= pow2(mbits as nat + 1),
    ensures
        res.1 < pow2(mbits as nat),
        fp_units(res.0 as nat, res.1 as nat, mbits as nat) == k * pow2((t - tmin) as nat),
{
    proof {
        lemma_u64_pow2_no_overflow(mbits as nat);
        lemma_u64_shl_is_mul(1, mbits as u64);
        lemma_pow2_unfold(mbits as nat + 1);
        lemma_pow2_increases_le(mbits as nat, 23);
        assert(pow2(23) == 0x80_0000) by {
            lemma2_to64();
        }
    }
    let one: u64 = 1u64 << mbits;
    let ghost d: nat = (t - tmin) as nat;
    if k == 2 * one {
        proof {
            let p = pow2(mbits as nat);
            let x = pow2(d);
            lemma_pow2_unfold(d + 1);
            assert((p + 0) * (2 * x) == (2 * p) * x) by (nonlinear_arith);
            assert(fp_units((d + 2) as nat, 0, mbits as nat) == (p + 0) * pow2(d + 1));
        }
        ((t - tmin + 2) as u32, 0)
    } else if k < one {
        proof {
            assert(t == tmin);
            assert(pow2(0) == 1) by {
                lemma2_to64();
            }
            assert(d == 0);
            assert(k * pow2(d) == k);
        }
        (0, k)
    } else {
        proof {
            assert(fp_units((d + 1) as nat, (k - one) as nat, mbits as nat) == (pow2(mbits as nat)
                + (k - one)) * pow2(d));
        }
        ((t - tmin + 1) as u32, k - one)
    }
}

/// `fp_units(e, 0)` grows with the exponent field.
proof fn lemma_fp_units_binade_le(e1: nat, e2: nat, mbits: nat)
    requires
        1 <= e1 <= e2,
    ensures
        fp_units(e1, 0, mbits) <= fp_units(e2, 0, mbits),
{
    lemma_pow2_increases_le((e1 - 1) as nat, (e2 - 1) as nat);
    lemma_mul_inequality(
        pow2((e1 - 1) as nat) as int,
        pow2((e2 - 1) as nat) as int,
        pow2(mbits) as int,
    );
    lemma_mul_is_commutative(pow2(mbits) as int, pow2((e1 - 1) as nat) as int);
    lemma_mul_is_commutative(pow2(mbits) as int, pow2((e2 - 1) as nat) as int);
}

/// Every magnitude of a binade lies below the first magnitude of the next binade.
proof fn lemma_fp_units_below_next(e: nat, m: nat, mbits: nat)
    requires
        m < pow2(mbits),
    ensures
        fp_units(e, m, mbits) < fp_units(e + 1, 0, mbits),
{
    if e == 0 {
        assert(pow2(0) == 1) by {
            lemma2_to64();
        }
        assert(fp_units(1, 0, mbits) == (pow2(mbits) + 0) * pow2(0));
        assert(fp_units(0, m, mbits) == m);
    } else {
        let x = pow2((e - 1) as nat);
        let p = pow2(mbits);
        lemma_pow2_pos((e - 1) as nat);
        lemma_pow2_unfold(e);
        lemma_mul_strict_inequality((p + m) as int, (2 * p) as int, x as int);
        assert((2 * p) * x == (p + 0) * (2 * x)) by (nonlinear_arith);
        assert(fp_units(e + 1, 0, mbits) == (p + 0) * pow2(e));
        assert(fp_units(e, m, mbits) == (p + m) * x);
    }
}

/// Encodings compare like their exponent/mantissa field pairs, taken lexicographically.
pub proof fn lemma_fp_units_strict(e1: nat, m1: nat, e2: nat, m2: nat, mbits: nat)
    requires
        m1 < pow2(mbits),
        m2 < pow2(mbits),
        e1 < e2 || (e1 == e2 && m1 < m2),
    ensures
        fp_units(e1, m1, mbits) < fp_units(e2, m2, mbits),
{
    if e1 == e2 {
        if e1 > 0 {
            lemma_pow2_pos((e1 - 1) as nat);
            lemma_mul_strict_inequality(
                (pow2(mbits) + m1) as int,
                (pow2(mbits) + m2) as int,
                pow2((e1 - 1) as nat) as int,
            );
        }
    } else {
        lemma_fp_units_below_next(e1, m1, mbits);
        lemma_fp_units_binade_le(e1 + 1, e2, mbits);
        if e2 > 0 {
            lemma_pow2_pos((e2 - 1) as nat);
            lemma_mul_inequality(
                pow2(mbits) as int,
                (pow2(mbits) + m2) as int,
                pow2((e2 - 1) as nat) as int,
            );
        }
    }
}

/// Two encodings with in-range mantissas have the same magnitude only if their fields agree.
pub proof fn lemma_fp_units_injective(e1: nat, m1: nat, e2: nat, m2: nat, mbits: nat)
    requires
        m1 < pow2(mbits),
        m2 < pow2(mbits),
        fp_units(e1, m1, mbits) == fp_units(e2, m2, mbits),
    ensures
        e1 == e2,
        m1 == m2,
{
    if e1 < e2 || (e1 == e2 && m1 < m2) {
        lemma_fp_units_strict(e1, m1, e2, m2, mbits);
    } else if e2 < e1 || (e1 == e2 && m2 < m1) {
        lemma_fp_units_strict(e2, m2, e1, m1, mbits);
    }
}

/// An encoding exceeds the magnitude of `(emax, mmax)` exactly when its fields do.
pub proof fn lemma_fp_units_exceeds(e: nat, m: nat, emax: nat, mmax: nat, mbits: nat)
    requires
        m < pow2(mbits),
        mmax < pow2(mbits),
    ensures
        fp_units(e, m, mbits) > fp_units(emax, mmax, mbits) <==> (e > emax || (e == emax && m
            > mmax)),
{
    if e > emax || (e == emax && m > mmax) {
        lemma_fp_units_strict(emax, mmax, e, m, mbits);
    } else if e < emax || (e == emax && m < mmax) {
        lemma_fp_units_strict(e, m, emax, mmax, mbits);
    }
}

/// Integer significand of the encoding with fields `(ef, m)`: the implicit leading one is made
/// explicit for normals.
pub open spec fn fmt_sig(ef: nat, m: nat, mbits: nat) -> nat {
    if ef == 0 {
        m
    } else {
        pow2(mbits) + m
    }
}

/// The magnitude of an encoding is its significand scaled by its binade.
pub proof fn lemma_fp_units_sig(ef: nat, m: nat, mbits: nat)
    ensures
        fp_units(ef, m, mbits) == fmt_sig(ef, m, mbits) * pow2(
            (if ef == 0 {
                0
            } else {
                ef - 1
            }) as nat,
        ),
{
    assert(pow2(0) == 1) by {
        lemma2_to64();
    }
    if ef == 0 {
        assert(fmt_sig(ef, m, mbits) * pow2(0) == m);
    }
}

/// A value below `2^n` has its leading bit below position `n`.
pub proof fn lemma_log2_floor_lt(x: nat, n: nat)
    requires
        1 <= x < pow2(n),
    ensures
        log2_floor(x) < n,
{
    lemma_log2_floor_bounds(x);
    if log2_floor(x) >= n {
        lemma_pow2_increases_le(n, log2_floor(x));
    }
}

/// When the target keeps every bit of the value, rounding is exact.
pub proof fn lemma_rounded_units_exact(sig: nat, exp: int, mbits: nat, emin: int, mode: Rounding)
    requires
        sig >= 1,
        lsb_exp(sig, exp, mbits, emin) <= exp,
    ensures
        rounded_units(sig, exp, mbits, emin, mode) == sig * pow2((exp - (emin - mbits)) as nat),
{
    let t = lsb_exp(sig, exp, mbits, emin);
    let a = (exp - t) as nat;
    let b = (t - (emin - mbits)) as nat;
    lemma_pow2_adds(a, b);
    lemma_mul_is_associative(sig as int, pow2(a) as int, pow2(b) as int);
    assert(a + b == (exp - (emin - mbits)) as nat);
}

/// The bias rule with a zero bias truncates: the discarded bits are dropped.
pub proof fn lemma_bias_zero_truncates(n: nat, s: nat)
    ensures
        div_round(n, s, Rounding::BiasWindow(0)) == n / pow2(s),
{
    let d = pow2(s);
    lemma_pow2_pos(s);
    assert(n * 256 + (0u8 as nat) * d == 256 * n);
    lemma_div_denominator((256 * n) as int, 256, d as int);
    assert((256 * n) / 256 == n) by {
        lemma_div_multiples_vanish(n as int, 256);
    }
    assert(div_round(n, s, Rounding::BiasWindow(0)) == (256 * n) / (256 * d));
}

/// The bias rule with a bias of `0x80` rounds to nearest with ties away from zero: the kept
/// value goes up exactly when the discarded part is at least half an lsb.
pub proof fn lemma_bias_half_rounds_to_nearest(n: nat, s: nat)
    ensures
        div_round(n, s, Rounding::BiasWindow(0x80)) == if 2 * (n % pow2(s)) >= pow2(s) {
            n / pow2(s) + 1
        } else {
            n / pow2(s)
        },
{
    let d = pow2(s);
    lemma_pow2_pos(s);
    let q = n / d;
    let r = n % d;
    lemma_fundamental_div_mod(n as int, d as int);
    lemma_mod_bound(n as int, d as int);
    let big = 256 * d;
    let x = 256 * r + 128 * d;
    assert(n * 256 + 128 * d == big * q + x) by (nonlinear_arith)
        requires
            n == d * q + r,
            big == 256 * d,
            x == 256 * r + 128 * d,
    ;
    lemma_div_add_multiple(q, x, big);
    if 2 * r >= d {
        assert(big <= x < 2 * big) by (nonlinear_arith)
            requires
                2 * r >= d,
                r < d,
                big == 256 * d,
                x == 256 * r + 128 * d,
        ;
        lemma_div_add_multiple(1, (x - big) as nat, big);
        assert(x == big * 1 + (x - big));
        lemma_small_div_nat((x - big) as nat, big);
    } else {
        assert(x < big) by (nonlinear_arith)
            requires
                2 * r < d,
                big == 256 * d,
                x == 256 * r + 128 * d,
        ;
        lemma_small_div_nat(x, big);
    }
}

/// Scaling a significand and its discard window by the same power of two leaves round to
/// nearest even unchanged.
proof fn lemma_div_round_ne_scale(n: nat, s: nat, a: nat)
    ensures
        div_round(n * pow2(a), s + a, Rounding::NearestEven) == div_round(n, s, Rounding::NearestEven),
{
    let d = pow2(s);
    let p = pow2(a);
    let big = pow2(s + a);
    lemma_pow2_pos(s);
    lemma_pow2_pos(a);
    lemma_pow2_adds(s, a);
    let q = n / d;
    let r = n % d;
    lemma_fundamental_div_mod(n as int, d as int);
    lemma_mod_bound(n as int, d as int);
    assert(n * p == big * q + r * p && r * p < big && 0 <= r * p) by (nonlinear_arith)
        requires
            n == d * q + r,
            big == d * p,
            0 <= r < d,
            p > 0,
    ;
    lemma_fundamental_div_mod_converse((n * p) as int, big as int, q as int, (r * p) as int);
    assert(2 * (r * p) > big <==> 2 * r > d) by (nonlinear_arith)
        requires
            big == d * p,
            p > 0,
    ;
    assert(2 * (r * p) == big <==> 2 * r == d) by (nonlinear_arith)
        requires
            big == d * p,
            p > 0,
    ;
}

/// Scaling by `2^a` moves the leading bit up by `a`.
proof fn lemma_log2_floor_scale(sig: nat, a: nat)
    requires
        sig >= 1,
    ensures
        log2_floor(sig * pow2(a)) == log2_floor(sig) + a,
{
    let l = log2_floor(sig);
    let p = pow2(a);
    lemma_log2_floor_bounds(sig);
    lemma_pow2_pos(a);
    lemma_mul_inequality(pow2(l) as int, sig as int, p as int);
    lemma_mul_strict_inequality(sig as int, pow2(l + 1) as int, p as int);
    lemma_pow2_adds(l, a);
    lemma_pow2_adds(l + 1, a);
    assert(l + 1 + a == (l + a) + 1);
    lemma_log2_floor_unique(sig * p, l + a);
}

/// The rounded magnitude depends only on the value `sig * 2^exp`, not on how it is written.
proof fn lemma_rounded_units_scale(sig: nat, exp: int, a: nat, mbits: nat, emin: int)
    requires
        sig >= 1,
    ensures
        rounded_units(sig * pow2(a), exp - a, mbits, emin, Rounding::NearestEven) == rounded_units(
            sig,
            exp,
            mbits,
            emin,
            Rounding::NearestEven,
        ),
{
    let p = pow2(a);
    lemma_pow2_pos(a);
    lemma_log2_floor_scale(sig, a);
    let t = lsb_exp(sig, exp, mbits, emin);
    assert(lsb_exp(sig * p, exp - a, mbits, emin) == t);
    let lhs = round_sig(sig * p, exp - a, t, Rounding::NearestEven);
    let rhs = round_sig(sig, exp, t, Rounding::NearestEven);
    if t <= exp - a {
        let c = (exp - a - t) as nat;
        lemma_pow2_adds(a, c);
        assert((exp - t) as nat == a + c);
        lemma_mul_is_associative(sig as int, p as int, pow2(c) as int);
    } else if t <= exp {
        let c = (exp - t) as nat;
        let w = (a - c) as nat;
        lemma_pow2_adds(c, w);
        assert(a == c + w);
        lemma_mul_is_associative(sig as int, pow2(c) as int, pow2(w) as int);
        lemma_div_round_ne_scale(sig * pow2(c), 0, w);
        assert(pow2(0) == 1) by {
            lemma2_to64();
        }
        let n = sig * pow2(c);
        lemma_small_mod(0, 1);
        assert(n / 1 == n && n % 1 == 0);
        assert(((t - (exp - a)) as nat) == 0 + w);
    } else {
        assert(((t - (exp - a)) as nat) == (t - exp) as nat + a);
        lemma_div_round_ne_scale(sig, (t - exp) as nat, a);
    }
    assert(lhs == rhs);
}

/// Round to nearest even is monotone in the significand, for a fixed discard window.
proof fn lemma_div_round_ne_monotone(n1: nat, n2: nat, s: nat)
    requires
        n1 <= n2,
    ensures
        div_round(n1, s, Rounding::NearestEven) <= div_round(n2, s, Rounding::NearestEven),
{
    let d = pow2(s);
    lemma_pow2_pos(s);
    lemma_div_is_ordered(n1 as int, n2 as int, d as int);
    let q1 = n1 / d;
    let q2 = n2 / d;
    if q1 == q2 {
        lemma_fundamental_div_mod(n1 as int, d as int);
        lemma_fundamental_div_mod(n2 as int, d as int);
        assert(n1 % d <= n2 % d);
    }
}

/// The leading-bit index is monotone.
proof fn lemma_log2_floor_monotone(x: nat, y: nat)
    requires
        1 <= x <= y,
    ensures
        log2_floor(x) <= log2_floor(y),
{
    lemma_log2_floor_bounds(x);
    lemma_log2_floor_bounds(y);
    if log2_floor(x) > log2_floor(y) {
        lemma_pow2_increases_le(log2_floor(y) + 1, log2_floor(x));
    }
}

/// For values written over a common exponent at or below the smallest subnormal step, the
/// rounded magnitude is monotone in the significand.
proof fn lemma_rounded_units_monotone_fixed(n1: nat, n2: nat, base: int, mbits: nat, emin: int)
    requires
        1 <= n1 <= n2,
        base <= emin - mbits,
    ensures
        rounded_units(n1, base, mbits, emin, Rounding::NearestEven) <= rounded_units(
            n2,
            base,
            mbits,
            emin,
            Rounding::NearestEven,
        ),
{
    let mode = Rounding::NearestEven;
    let u0 = emin - mbits;
    let t1 = lsb_exp(n1, base, mbits, emin);
    let t2 = lsb_exp(n2, base, mbits, emin);
    lemma_log2_floor_monotone(n1, n2);
    let k1 = round_sig(n1, base, t1, mode);
    let k2 = round_sig(n2, base, t2, mode);
    assert(t1 <= t2);
    if t1 == t2 {
        if t1 > base {
            lemma_div_round_ne_monotone(n1, n2, (t1 - base) as nat);
            assert(k1 == div_round(n1, (t1 - base) as nat, mode));
            assert(k2 == div_round(n2, (t1 - base) as nat, mode));
        } else {
            assert(pow2(0) == 1) by {
                lemma2_to64();
            }
            assert((base - t1) as nat == 0);
            assert(k1 == n1 * pow2(0));
            assert(k2 == n2 * pow2(0));
        }
        assert(k1 <= k2);
        lemma_mul_inequality(k1 as int, k2 as int, pow2((t1 - u0) as nat) as int);
    } else {
        lemma_round_range(n1, base, mbits, emin, mode);
        lemma_round_range(n2, base, mbits, emin, mode);
        let e1 = (t1 - u0) as nat;
        let e2 = (t2 - u0) as nat;
        lemma_mul_inequality(k1 as int, pow2(mbits + 1) as int, pow2(e1) as int);
        lemma_mul_inequality(pow2(mbits) as int, k2 as int, pow2(e2) as int);
        lemma_pow2_adds(mbits + 1, e1);
        lemma_pow2_adds(mbits, e2);
        lemma_pow2_increases_le(mbits + 1 + e1, mbits + e2);
    }
}

/// Round to nearest even is monotone: a smaller value never rounds to a larger magnitude.
/// `base` is any exponent at or below both operands' exponents and the target's smallest
/// subnormal step, over which the two values are compared.
pub proof fn lemma_rounded_units_monotone(
    sig1: nat,
    exp1: int,
    sig2: nat,
    exp2: int,
    base: int,
    mbits: nat,
    emin: int,
)
    requires
        sig1 >= 1,
        sig2 >= 1,
        base <= exp1,
        base <= exp2,
        base <= emin - mbits,
        sig1 * pow2((exp1 - base) as nat) <= sig2 * pow2((exp2 - base) as nat),
    ensures
        rounded_units(sig1, exp1, mbits, emin, Rounding::NearestEven) <= rounded_units(
            sig2,
            exp2,
            mbits,
            emin,
            Rounding::NearestEven,
        ),
{
    let a1 = (exp1 - base) as nat;
    let a2 = (exp2 - base) as nat;
    lemma_rounded_units_scale(sig1, exp1, a1, mbits, emin);
    lemma_rounded_units_scale(sig2, exp2, a2, mbits, emin);
    lemma_pow2_pos(a1);
    lemma_mul_inequality(1, sig1 as int, pow2(a1) as int);
    assert(exp1 - a1 == base && exp2 - a2 == base);
    lemma_rounded_units_monotone_fixed(sig1 * pow2(a1), sig2 * pow2(a2), base, mbits, emin);
}

/// Rounding `sig * 2^exp` to a format with `mbits` stored mantissa bits and minimum normal
/// exponent `emin` discards set bits: the value is not a representable magnitude of the format.
pub open spec fn rounds_inexactly(sig: nat, exp: int, mbits: nat, emin: int) -> bool {
    let t = lsb_exp(sig, exp, mbits, emin);
    t > exp && sig % pow2((t - exp) as nat) != 0
}

/// Round to odd marks every inexact result: the stored mantissa of a value that had set bits
/// discarded is odd.
pub proof fn lemma_round_to_odd_mantissa_odd(
    sig: nat,
    exp: int,
    mbits: nat,
    emin: int,
    ef: nat,
    m: nat,
)
    requires
        sig >= 1,
        mbits >= 1,
        m < pow2(mbits),
        rounds_inexactly(sig, exp, mbits, emin),
        fp_units(ef, m, mbits) == rounded_units(sig, exp, mbits, emin, Rounding::ToOdd),
    ensures
        m % 2 == 1,
{
    let mode = Rounding::ToOdd;
    let t = lsb_exp(sig, exp, mbits, emin);
    let s = (t - exp) as nat;
    let k = round_sig(sig, exp, t, mode);
    let tmin = emin - mbits;
    let p = pow2(mbits);
    lemma_pow2_pos(s);
    // The kept significand is odd.
    assert(k % 2 == 1);
    lemma_round_range(sig, exp, mbits, emin, mode);
    lemma_pow2_unfold(mbits);
    lemma_pow2_unfold(mbits + 1);
    assert(k < 2 * p);
    assert(pow2(0) == 1) by {
        lemma2_to64();
    }
    let d = (t - tmin) as nat;
    if t > tmin {
        // k * 2^d == (2^mbits + (k - 2^mbits)) * 2^((d + 1) - 1)
        assert(fp_units(d + 1, (k - p) as nat, mbits) == k * pow2(d));
        lemma_fp_units_injective(ef, m, d + 1, (k - p) as nat, mbits);
    } else {
        assert(d == 0);
        assert(k * pow2(0) == k);
        assert(rounded_units(sig, exp, mbits, emin, mode) == k);
        if k < p {
            lemma_fp_units_injective(ef, m, 0, k, mbits);
        } else {
            assert(fp_units(1, (k - p) as nat, mbits) == (p + (k - p)) * pow2(0));
            lemma_fp_units_injective(ef, m, 1, (k - p) as nat, mbits);
        }
    }
}

/// Round to nearest even leaves a value the format can represent exactly unchanged: when
/// `sig * 2^exp` equals the magnitude of the encoding `(e, m)` (both written over a common
/// exponent `base`), the rounded magnitude is that encoding's.
pub proof fn lemma_rounded_units_representable(
    sig: nat,
    exp: int,
    mbits: nat,
    emin: int,
    e: nat,
    m: nat,
    base: int,
)
    requires
        sig >= 1,
        m < pow2(mbits),
        base <= exp,
        base <= emin - mbits,
        sig * pow2((exp - base) as nat) == fp_units(e, m, mbits) * pow2(
            ((emin - mbits) - base) as nat,
        ),
    ensures
        rounded_units(sig, exp, mbits, emin, Rounding::NearestEven) == fp_units(e, m, mbits),
{
    let tmin = emin - mbits;
    let f = fmt_sig(e, m, mbits);
    let big_e = tmin + (if e == 0 {
        0int
    } else {
        e - 1
    });
    lemma_fp_units_sig(e, m, mbits);
    let u = fp_units(e, m, mbits);
    assert(u == f * pow2((big_e - tmin) as nat));
    // The value is nonzero, so its significand is too.
    lemma_pow2_pos((exp - base) as nat);
    lemma_pow2_pos((tmin - base) as nat);
    assert(sig * pow2((exp - base) as nat) >= 1) by (nonlinear_arith)
        requires
            sig >= 1,
            pow2((exp - base) as nat) >= 1,
    ;
    assert(f >= 1) by {
        if f == 0 {
            let p = pow2((big_e - tmin) as nat);
            let q = pow2((tmin - base) as nat);
            assert(u * q == 0) by (nonlinear_arith)
                requires
                    f == 0,
                    u == f * p,
            ;
        }
    }
    // Both writings of the value give the same rounding.
    lemma_rounded_units_scale(sig, exp, (exp - base) as nat, mbits, emin);
    lemma_rounded_units_scale(f, big_e, (big_e - base) as nat, mbits, emin);
    assert(f * pow2((big_e - base) as nat) == sig * pow2((exp - base) as nat)) by {
        lemma_pow2_adds((big_e - tmin) as nat, (tmin - base) as nat);
        assert((big_e - tmin) as nat + (tmin - base) as nat == (big_e - base) as nat);
        lemma_mul_is_associative(
            f as int,
            pow2((big_e - tmin) as nat) as int,
            pow2((tmin - base) as nat) as int,
        );
    }
    assert(exp - (exp - base) as nat == base);
    assert(big_e - (big_e - base) as nat == base);
    // The canonical writing keeps every bit.
    if e == 0 {
        lemma_log2_floor_lt(f, mbits);
    } else {
        lemma_pow2_unfold(mbits + 1);
        lemma_log2_floor_unique(f, mbits);
    }
    assert(lsb_exp(f, big_e, mbits, emin) == big_e);
    lemma_rounded_units_exact(f, big_e, mbits, emin, Rounding::NearestEven);
}

} // verus!
