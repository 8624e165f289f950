//! Signed int8 dot-product-accumulate (`VPDPBSSD`, 256-bit form).
//!
//! For each of the 8 output lanes `i`: `out[i] = src[i] + Σ_{k<4} a[4i+k] * b[4i+k]`, the sum
//! wrapping modulo 2^32.
use vstd::prelude::*;

verus! {

/// The `i32` congruent to `x` modulo 2^32 (two's-complement wrap-around).
pub open spec fn wrap_i32(x: int) -> i32 {
    let m = x % 0x1_0000_0000;
    if m >= 0x8000_0000 {
        (m - 0x1_0000_0000) as i32
    } else {
        m as i32
    }
}

/// The dot product of lane `i`: `Σ_{k<4} a[4i+k] * b[4i+k]`.
pub open spec fn lane_dot(a: Seq<i8>, b: Seq<i8>, i: int) -> int {
    a[4 * i] * b[4 * i] + a[4 * i + 1] * b[4 * i + 1] + a[4 * i + 2] * b[4 * i + 2] + a[4 * i + 3]
        * b[4 * i + 3]
}

/// Output lane `i` of `VPDPBSSD`.
pub open spec fn dpbssd_lane(src: Seq<i32>, a: Seq<i8>, b: Seq<i8>, i: int) -> i32 {
    wrap_i32(src[i] + lane_dot(a, b, i))
}

/// A sum of two `i32` values wraps as `wrapping_add` does.
proof fn lemma_wrapping_add(x: i32, y: i32)
    ensures
        x.wrapping_add(y) == wrap_i32(x + y),
{
}

/// An `i32` wraps to itself.
pub proof fn lemma_wrap_small(x: int)
    requires
        -0x8000_0000 <= x < 0x8000_0000,
    ensures
        wrap_i32(x) == x,
{
}

/// Each product of two `i8` values lies in `[-16256, 16384]`.
proof fn lemma_i8_product(x: i8, y: i8)
    ensures
        -16256 <= x * y <= 16384,
{
    assert(-16256 <= x * y <= 16384) by (nonlinear_arith)
        requires
            -128 <= x <= 127,
            -128 <= y <= 127,
    ;
}

/// Portable `VPDPBSSD`: each lane is `src[i]` plus the dot product of its four `a`/`b` byte
/// pairs, wrapping modulo 2^32.
pub fn dpbssd_scalar(src: [i32; 8], a: [i8; 32], b: [i8; 32]) -> (out: [i32; 8])
    ensures
        forall|i: int| 0 <= i < 8 ==> #[trigger] out@[i] == dpbssd_lane(src@, a@, b@, i),
{
    let mut out = src;
    let mut i: usize = 0;
    while i < 8
        invariant
            i <= 8,
            out@.len() == 8,
            forall|q: int| 0 <= q < i ==> #[trigger] out@[q] == dpbssd_lane(src@, a@, b@, q),
            forall|q: int| i <= q < 8 ==> #[trigger] out@[q] == src@[q],
        decreases 8 - i,
    {
        let j = 4 * i;
        proof {
            lemma_i8_product(a@[j as int], b@[j as int]);
            lemma_i8_product(a@[j + 1], b@[j + 1]);
            lemma_i8_product(a@[j + 2], b@[j + 2]);
            lemma_i8_product(a@[j + 3], b@[j + 3]);
        }
        let p0 = a[j] as i32 * b[j] as i32;
        let p1 = a[j + 1] as i32 * b[j + 1] as i32;
        let p2 = a[j + 2] as i32 * b[j + 2] as i32;
        let p3 = a[j + 3] as i32 * b[j + 3] as i32;
        proof {
            lemma_wrapping_add(p0, p1);
            lemma_wrap_small(p0 + p1);
            lemma_wrapping_add((p0 + p1) as i32, p2);
            lemma_wrap_small(p0 + p1 + p2);
            lemma_wrapping_add((p0 + p1 + p2) as i32, p3);
            lemma_wrap_small(p0 + p1 + p2 + p3);
        }
        let acc = p0.wrapping_add(p1).wrapping_add(p2).wrapping_add(p3);
        assert(acc == lane_dot(a@, b@, i as int));
        proof {
            lemma_wrapping_add(out@[i as int], acc);
        }
        out[i] = out[i].wrapping_add(acc);
        i = i + 1;
    }
    out
}

/// `src` is a pure additive term: each lane equals `src[i]` plus, wrapping, the lane of the
/// same products accumulated onto zero.
pub proof fn lemma_src_is_additive(src: Seq<i32>, a: Seq<i8>, b: Seq<i8>, i: int)
    requires
        src.len() == 8,
        a.len() == 32,
        b.len() == 32,
        0 <= i < 8,
    ensures
        dpbssd_lane(src, a, b, i) == src[i].wrapping_add(
            dpbssd_lane(Seq::new(8, |q: int| 0i32), a, b, i),
        ),
{
    lemma_i8_product(a[4 * i], b[4 * i]);
    lemma_i8_product(a[4 * i + 1], b[4 * i + 1]);
    lemma_i8_product(a[4 * i + 2], b[4 * i + 2]);
    lemma_i8_product(a[4 * i + 3], b[4 * i + 3]);
    let d = lane_dot(a, b, i);
    lemma_wrap_small(0i32 + d);
    let z = dpbssd_lane(Seq::new(8, |q: int| 0i32), a, b, i);
    assert(z == d);
    lemma_wrapping_add(src[i], z);
}

/// Swapping the two multiplicand vectors leaves every lane unchanged.
pub proof fn lemma_operands_commute(src: Seq<i32>, a: Seq<i8>, b: Seq<i8>, i: int)
    ensures
        dpbssd_lane(src, a, b, i) == dpbssd_lane(src, b, a, i),
{
    assert(lane_dot(a, b, i) == lane_dot(b, a, i)) by (nonlinear_arith);
}

/// A zero multiplicand contributes nothing: every lane is `src[i]`.
pub proof fn lemma_zero_operand_is_passthrough(src: Seq<i32>, b: Seq<i8>, i: int)
    requires
        src.len() == 8,
        b.len() == 32,
        0 <= i < 8,
    ensures
        dpbssd_lane(src, Seq::new(32, |q: int| 0i8), b, i) == src[i],
{
    lemma_wrap_small(src[i] as int);
}

/// Lane `i` depends only on `a[4i..4i+4]` and `b[4i..4i+4]`.
pub proof fn lemma_lanes_are_independent(
    src: Seq<i32>,
    a: Seq<i8>,
    b: Seq<i8>,
    a2: Seq<i8>,
    b2: Seq<i8>,
    i: int,
)
    requires
        a.len() == 32,
        b.len() == 32,
        a2.len() == 32,
        b2.len() == 32,
        0 <= i < 8,
        a.subrange(4 * i, 4 * i + 4) == a2.subrange(4 * i, 4 * i + 4),
        b.subrange(4 * i, 4 * i + 4) == b2.subrange(4 * i, 4 * i + 4),
    ensures
        dpbssd_lane(src, a, b, i) == dpbssd_lane(src, a2, b2, i),
{
    let sa = a.subrange(4 * i, 4 * i + 4);
    let sb = b.subrange(4 * i, 4 * i + 4);
    assert(a[4 * i] == sa[0] && a2[4 * i] == a2.subrange(4 * i, 4 * i + 4)[0]);
    assert(a[4 * i + 1] == sa[1] && a2[4 * i + 1] == a2.subrange(4 * i, 4 * i + 4)[1]);
    assert(a[4 * i + 2] == sa[2] && a2[4 * i + 2] == a2.subrange(4 * i, 4 * i + 4)[2]);
    assert(a[4 * i + 3] == sa[3] && a2[4 * i + 3] == a2.subrange(4 * i, 4 * i + 4)[3]);
    assert(b[4 * i] == sb[0] && b2[4 * i] == b2.subrange(4 * i, 4 * i + 4)[0]);
    assert(b[4 * i + 1] == sb[1] && b2[4 * i + 1] == b2.subrange(4 * i, 4 * i + 4)[1]);
    assert(b[4 * i + 2] == sb[2] && b2[4 * i + 2] == b2.subrange(4 * i, 4 * i + 4)[2]);
    assert(b[4 * i + 3] == sb[3] && b2[4 * i + 3] == b2.subrange(4 * i, 4 * i + 4)[3]);
}

} // verus!
