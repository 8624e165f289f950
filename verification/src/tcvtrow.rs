//! Tile-row converts: read one row of a tile as four-byte little-endian elements, convert each
//! to a narrower format, and return the result as a vector; the tile is left unchanged.
//!
//! * `TCVTROWD2PS` — [`_tile_tcvtrowd2ps`]: `INT32` to `FP32` (the `i32 as f32` conversion).
//! * `TCVTROWPS2BF16H` / `TCVTROWPS2BF16L` — `FP32` to `BF16` (round to nearest even) into the
//!   high / low half-lanes.
//! * `TCVTROWPS2PHH` / `TCVTROWPS2PHL` — `FP32` to `FP16` (round to nearest even) into the
//!   high / low half-lanes.
//!
//! A row holds up to [`ROW_FP32_LANES`] elements (`colsb / 4` of them); unused lanes read as
//! zero. Each narrow result occupies one 16-bit word of a 32-bit slot: the `H` forms write the
//! high word (odd lane `2 * i + 1`) and leave the low word zero, the `L` forms the reverse, so
//! the two forms write disjoint lanes. A row index not below the tile's `rows` gives `None`.
//!
//! `FP32` values travel as their bit patterns.
use crate::fp32::{
    fp32_to_bf16_post, fp32_to_bf16_rne, fp32_to_fp16_post, fp32_to_fp16_rne, int32_to_fp32_bits,
    int32_to_fp32_post,
};
use crate::tile::{TileId, TileScope};
use crate::tile_move::row_of;
use vstd::prelude::*;

verus! {

/// Four-byte elements in one full tile row (`64 / 4`); the lane count of a `D2PS` result.
pub const ROW_FP32_LANES: usize = 16;

/// 16-bit lanes in a 512-bit result vector (`2 * ROW_FP32_LANES`).
pub const ZMM_WORD_LANES: usize = 32;

/// The little-endian 32-bit word at byte offset `o` of `data`.
pub open spec fn le_word(data: Seq<u8>, o: int) -> u32 {
    (data[o] + data[o + 1] * 0x100 + data[o + 2] * 0x1_0000 + data[o + 3] * 0x100_0000) as u32
}

/// Row `row` of a row-major tile with `colsb` bytes per row, read as 16 little-endian words;
/// lanes past the row's `colsb / 4` elements are zero.
pub open spec fn row_words(data: Seq<u8>, colsb: int, row: int) -> Seq<u32> {
    Seq::new(16, |i: int| if i < colsb / 4 { le_word(data, row * colsb + 4 * i) } else { 0u32 })
}

/// The two narrow formats of the row converts.
#[derive(Clone, Copy, Debug)]
pub enum NarrowFormat {
    /// `BF16`.
    Bf16,
    /// `FP16` (IEEE binary16).
    Fp16,
}

/// `r` is `bits` converted to `fmt` with round to nearest even.
pub open spec fn narrow_post(fmt: NarrowFormat, bits: u32, r: u16) -> bool {
    match fmt {
        NarrowFormat::Bf16 => fp32_to_bf16_post(bits, r),
        NarrowFormat::Fp16 => fp32_to_fp16_post(bits, r),
    }
}

/// `out` holds the narrow conversions of `words` in the high (`high`) or low word of each
/// 32-bit slot, the other word of each slot zero.
pub open spec fn half_lanes_post(fmt: NarrowFormat, words: Seq<u32>, high: bool, out: Seq<u16>) -> bool {
    &&& out.len() == 32
    &&& forall|j: int|
        0 <= j < 32 ==> if (j % 2 == 1) == high {
            narrow_post(fmt, words[j / 2], #[trigger] out[j])
        } else {
            out[j] == 0
        }
}

/// Row `row` of tile `src` as 16 little-endian words, or `None` when `row` is not below the
/// configured `rows`.
fn read_row_dwords(scope: &TileScope, src: TileId, row: usize) -> (r: Option<[u32; 16]>)
    ensures
        r is Some <==> row < scope.rows_of(src.idx()),
        r is Some ==> r->0@ == row_words(scope.data(src.idx()), scope.colsb_of(src.idx()), row as int),
{
    proof {
        use_type_invariant(scope);
    }
    let (rows, colsb) = scope.tile_shape(src);
    if row >= rows as usize {
        return None;
    }
    proof {
        scope.lemma_wf_shape();
        assert(0 <= row * colsb && row * colsb + colsb <= rows * colsb <= 1024) by (nonlinear_arith)
            requires
                row < rows <= 16,
                colsb <= 64,
        ;
    }
    let colsb = colsb as usize;
    let bytes = scope.tile_bytes(src);
    let start = row * colsb;
    let lanes = colsb / 4;
    let mut out = [0u32; 16];
    let mut lane: usize = 0;
    while lane < lanes
        invariant
            lanes == colsb / 4,
            colsb <= 64,
            lane <= lanes,
            start == row * colsb,
            start + colsb <= bytes@.len(),
            start + colsb <= 1024,
            out@.len() == 16,
            forall|q: int| 0 <= q < lane ==> out@[q] == le_word(bytes@, start + 4 * q),
            forall|q: int| lane <= q < 16 ==> out@[q] == 0u32,
        decreases lanes - lane,
    {
        let off = start + lane * 4;
        let b0 = bytes[off] as u32;
        let b1 = bytes[off + 1] as u32;
        let b2 = bytes[off + 2] as u32;
        let b3 = bytes[off + 3] as u32;
        let w = b0 | (b1 << 8) | (b2 << 16) | (b3 << 24);
        proof {
            assert(b0 | (b1 << 8) | (b2 << 16) | (b3 << 24) == (b0 + b1 * 0x100 + b2 * 0x1_0000
                + b3 * 0x100_0000) as u32) by (bit_vector)
                requires
                    b0 < 256,
                    b1 < 256,
                    b2 < 256,
                    b3 < 256,
            ;
        }
        out[lane] = w;
        lane = lane + 1;
    }
    assert(out@ =~= row_words(scope.data(src.idx()), colsb as int, row as int));
    Some(out)
}

/// Place 16 narrow results in the high (`high`) or low word of each 32-bit slot.
fn pack_half_lanes(narrow: [u16; 16], high: bool) -> (r: [u16; 32])
    ensures
        forall|j: int|
            0 <= j < 32 ==> #[trigger] r@[j] == if (j % 2 == 1) == high {
                narrow@[j / 2]
            } else {
                0u16
            },
{
    let mut out = [0u16; 32];
    let mut i: usize = 0;
    while i < 16
        invariant
            i <= 16,
            out@.len() == 32,
            forall|j: int|
                0 <= j < 2 * i ==> #[trigger] out@[j] == if (j % 2 == 1) == high {
                    narrow@[j / 2]
                } else {
                    0u16
                },
            forall|j: int| 2 * i <= j < 32 ==> #[trigger] out@[j] == 0u16,
        decreases 16 - i,
    {
        let j = if high {
            2 * i + 1
        } else {
            2 * i
        };
        out[j] = narrow[i];
        i = i + 1;
    }
    out
}

/// Convert each word of a row to the narrow format and place the results in half-lanes.
fn convert_row(words: [u32; 16], fmt: NarrowFormat, high: bool) -> (r: [u16; 32])
    ensures
        half_lanes_post(fmt, words@, high, r@),
{
    let mut narrow = [0u16; 16];
    let mut i: usize = 0;
    while i < 16
        invariant
            i <= 16,
            narrow@.len() == 16,
            forall|q: int| 0 <= q < i ==> narrow_post(fmt, words@[q], #[trigger] narrow@[q]),
        decreases 16 - i,
    {
        let v = match fmt {
            NarrowFormat::Bf16 => fp32_to_bf16_rne(words[i]),
            NarrowFormat::Fp16 => fp32_to_fp16_rne(words[i]),
        };
        narrow[i] = v;
        i = i + 1;
    }
    let out = pack_half_lanes(narrow, high);
    assert forall|j: int| 0 <= j < 32 implies if (j % 2 == 1) == high {
        narrow_post(fmt, words@[j / 2], #[trigger] out@[j])
    } else {
        out@[j] == 0
    } by {
        if (j % 2 == 1) == high {
            assert(narrow_post(fmt, words@[j / 2], narrow@[j / 2]));
        }
    }
    out
}

/// `TCVTROWD2PS`: row `row` of tile `src` read as `INT32` elements and converted to `FP32`
/// bit patterns (unused lanes `0.0`), or `None` when `row` is not below the configured `rows`.
pub fn _tile_tcvtrowd2ps(scope: &TileScope, src: TileId, row: usize) -> (r: Option<[u32; 16]>)
    ensures
        r is Some <==> row < scope.rows_of(src.idx()),
        r is Some ==> forall|i: int|
            0 <= i < 16 ==> int32_to_fp32_post(
                row_words(scope.data(src.idx()), scope.colsb_of(src.idx()), row as int)[i] as i32,
                #[trigger] r->0@[i],
            ),
{
    _tile_tcvtrowd2ps_scalar(scope, src, row)
}

/// Portable `TCVTROWD2PS`.
pub fn _tile_tcvtrowd2ps_scalar(scope: &TileScope, src: TileId, row: usize) -> (r: Option<
    [u32; 16],
>)
    ensures
        r is Some <==> row < scope.rows_of(src.idx()),
        r is Some ==> forall|i: int|
            0 <= i < 16 ==> int32_to_fp32_post(
                row_words(scope.data(src.idx()), scope.colsb_of(src.idx()), row as int)[i] as i32,
                #[trigger] r->0@[i],
            ),
{
    let words = match read_row_dwords(scope, src, row) {
        Some(w) => w,
        None => {
            return None;
        },
    };
    let mut out = [0u32; 16];
    let mut i: usize = 0;
    while i < 16
        invariant
            i <= 16,
            out@.len() == 16,
            forall|q: int| 0 <= q < i ==> int32_to_fp32_post(words@[q] as i32, #[trigger] out@[q]),
        decreases 16 - i,
    {
        out[i] = int32_to_fp32_bits(words[i] as i32);
        i = i + 1;
    }
    Some(out)
}

/// `TCVTROWPS2BF16H`: row `row` of tile `src` read as `FP32` elements, converted to `BF16`
/// into the high word of each slot, or `None` when `row` is not below the configured `rows`.
pub fn _tile_tcvtrowps2bf16h(scope: &TileScope, src: TileId, row: usize) -> (r: Option<[u16; 32]>)
    ensures
        r is Some <==> row < scope.rows_of(src.idx()),
        r is Some ==> half_lanes_post(
            NarrowFormat::Bf16,
            row_words(scope.data(src.idx()), scope.colsb_of(src.idx()), row as int),
            true,
            r->0@,
        ),
{
    _tile_tcvtrowps2bf16h_scalar(scope, src, row)
}

/// Portable `TCVTROWPS2BF16H`.
pub fn _tile_tcvtrowps2bf16h_scalar(scope: &TileScope, src: TileId, row: usize) -> (r: Option<
    [u16; 32],
>)
    ensures
        r is Some <==> row < scope.rows_of(src.idx()),
        r is Some ==> half_lanes_post(
            NarrowFormat::Bf16,
            row_words(scope.data(src.idx()), scope.colsb_of(src.idx()), row as int),
            true,
            r->0@,
        ),
{
    match read_row_dwords(scope, src, row) {
        Some(words) => Some(convert_row(words, NarrowFormat::Bf16, true)),
        None => None,
    }
}

/// `TCVTROWPS2BF16L`: as [`_tile_tcvtrowps2bf16h`], into the low word of each slot.
pub fn _tile_tcvtrowps2bf16l(scope: &TileScope, src: TileId, row: usize) -> (r: Option<[u16; 32]>)
    ensures
        r is Some <==> row < scope.rows_of(src.idx()),
        r is Some ==> half_lanes_post(
            NarrowFormat::Bf16,
            row_words(scope.data(src.idx()), scope.colsb_of(src.idx()), row as int),
            false,
            r->0@,
        ),
{
    _tile_tcvtrowps2bf16l_scalar(scope, src, row)
}

/// Portable `TCVTROWPS2BF16L`.
pub fn _tile_tcvtrowps2bf16l_scalar(scope: &TileScope, src: TileId, row: usize) -> (r: Option<
    [u16; 32],
>)
    ensures
        r is Some <==> row < scope.rows_of(src.idx()),
        r is Some ==> half_lanes_post(
            NarrowFormat::Bf16,
            row_words(scope.data(src.idx()), scope.colsb_of(src.idx()), row as int),
            false,
            r->0@,
        ),
{
    match read_row_dwords(scope, src, row) {
        Some(words) => Some(convert_row(words, NarrowFormat::Bf16, false)),
        None => None,
    }
}

/// `TCVTROWPS2PHH`: row `row` of tile `src` read as `FP32` elements, converted to `FP16` into
/// the high word of each slot, or `None` when `row` is not below the configured `rows`.
pub fn _tile_tcvtrowps2phh(scope: &TileScope, src: TileId, row: usize) -> (r: Option<[u16; 32]>)
    ensures
        r is Some <==> row < scope.rows_of(src.idx()),
        r is Some ==> half_lanes_post(
            NarrowFormat::Fp16,
            row_words(scope.data(src.idx()), scope.colsb_of(src.idx()), row as int),
            true,
            r->0@,
        ),
{
    _tile_tcvtrowps2phh_scalar(scope, src, row)
}

/// Portable `TCVTROWPS2PHH`.
pub fn _tile_tcvtrowps2phh_scalar(scope: &TileScope, src: TileId, row: usize) -> (r: Option<
    [u16; 32],
>)
    ensures
        r is Some <==> row < scope.rows_of(src.idx()),
        r is Some ==> half_lanes_post(
            NarrowFormat::Fp16,
            row_words(scope.data(src.idx()), scope.colsb_of(src.idx()), row as int),
            true,
            r->0@,
        ),
{
    match read_row_dwords(scope, src, row) {
        Some(words) => Some(convert_row(words, NarrowFormat::Fp16, true)),
        None => None,
    }
}

/// `TCVTROWPS2PHL`: as [`_tile_tcvtrowps2phh`], into the low word of each slot.
pub fn _tile_tcvtrowps2phl(scope: &TileScope, src: TileId, row: usize) -> (r: Option<[u16; 32]>)
    ensures
        r is Some <==> row < scope.rows_of(src.idx()),
        r is Some ==> half_lanes_post(
            NarrowFormat::Fp16,
            row_words(scope.data(src.idx()), scope.colsb_of(src.idx()), row as int),
            false,
            r->0@,
        ),
{
    _tile_tcvtrowps2phl_scalar(scope, src, row)
}

/// Portable `TCVTROWPS2PHL`.
pub fn _tile_tcvtrowps2phl_scalar(scope: &TileScope, src: TileId, row: usize) -> (r: Option<
    [u16; 32],
>)
    ensures
        r is Some <==> row < scope.rows_of(src.idx()),
        r is Some ==> half_lanes_post(
            NarrowFormat::Fp16,
            row_words(scope.data(src.idx()), scope.colsb_of(src.idx()), row as int),
            false,
            r->0@,
        ),
{
    match read_row_dwords(scope, src, row) {
        Some(words) => Some(convert_row(words, NarrowFormat::Fp16, false)),
        None => None,
    }
}

/// The high and low forms of a convert write disjoint lanes: on every lane at least one of them
/// is zero, the high form holds element `i` in lane `2 * i + 1` and the low form holds it in
/// lane `2 * i`.
pub proof fn lemma_high_low_disjoint(fmt: NarrowFormat, words: Seq<u32>, h: Seq<u16>, l: Seq<u16>)
    requires
        half_lanes_post(fmt, words, true, h),
        half_lanes_post(fmt, words, false, l),
    ensures
        forall|j: int| 0 <= j < 32 ==> #[trigger] h[j] == 0 || l[j] == 0,
        forall|i: int|
            0 <= i < 16 ==> narrow_post(fmt, words[i], #[trigger] h[2 * i + 1]) && narrow_post(
                fmt,
                words[i],
                l[2 * i],
            ),
{
    assert forall|j: int| 0 <= j < 32 implies #[trigger] h[j] == 0 || l[j] == 0 by {
        if j % 2 == 1 {
            assert(l[j] == 0);
        } else {
            assert(h[j] == 0);
        }
    }
    assert forall|i: int| 0 <= i < 16 implies narrow_post(fmt, words[i], #[trigger] h[2 * i + 1])
        && narrow_post(fmt, words[i], l[2 * i]) by {
        assert((2 * i + 1) % 2 == 1 && (2 * i + 1) / 2 == i);
        assert((2 * i) % 2 == 0 && (2 * i) / 2 == i);
        assert(narrow_post(fmt, words[(2 * i + 1) / 2], h[2 * i + 1]));
        assert(narrow_post(fmt, words[(2 * i) / 2], l[2 * i]));
    }
}

/// The row a tile-row convert reads is the row `TILEMOVROW` returns: lane `i` below `colsb / 4`
/// is the little-endian word of bytes `4i..4i+4` of that row, and the lanes past the row's
/// elements are zero. So converting row `r` of a tile converts row `r`'s elements.
pub proof fn lemma_row_words_are_row_elements(
    data: Seq<u8>,
    rows: int,
    colsb: int,
    row: int,
    i: int,
)
    requires
        0 <= row < rows,
        0 <= colsb <= 64,
        data.len() == rows * colsb,
        0 <= i < ROW_FP32_LANES,
    ensures
        i < colsb / 4 ==> row_words(data, colsb, row)[i] == (row_of(data, colsb, row)[4 * i]
            + row_of(data, colsb, row)[4 * i + 1] * 0x100 + row_of(data, colsb, row)[4 * i + 2]
            * 0x1_0000 + row_of(data, colsb, row)[4 * i + 3] * 0x100_0000) as u32,
        i >= colsb / 4 ==> row_words(data, colsb, row)[i] == 0,
{
}

} // verus!
