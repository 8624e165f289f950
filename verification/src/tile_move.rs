//! Tile <-> vector row and column moves.
//!
//! * `TILEMOVROW` — [`_tile_movrow`] reads one row of a tile into a vector;
//!   [`_tile_movrow_write`] writes a vector into one row.
//! * `TILEMOVCOL` — [`_tile_movcol`] reads one column (one byte per row) into a vector;
//!   [`_tile_movcol_write`] writes a vector into one column.
//!
//! The vector is a 512-bit register modelled as [`ZMM_BYTES`] bytes. A row occupies its first
//! `colsb` lanes, a column its first `rows` lanes, and the unused lanes read as zero. A row
//! index must be below the tile's `rows`, a column index below its `colsb`; an index out of
//! range addresses nothing: the read forms return `None` and the write forms return `None`
//! having changed nothing. Writing a row (or column) and reading it back gives the written
//! lanes, and a write touches exactly the addressed row (or column).
use crate::tile::{TileId, TileScope};
use vstd::arithmetic::div_mod::lemma_fundamental_div_mod;
use vstd::arithmetic::div_mod::lemma_fundamental_div_mod_converse;
use vstd::prelude::*;

verus! {

/// A vector register modelled as raw bytes (one 512-bit lane group).
pub const ZMM_BYTES: usize = 64;

/// The first `n` lanes of `val`, the rest zero.
pub open spec fn low_lanes(val: Seq<u8>, n: int) -> Seq<u8> {
    Seq::new(64, |k: int| if k < n { val[k] } else { 0u8 })
}

/// Row `row` of a row-major tile with `colsb` bytes per row, zero-extended to a vector.
pub open spec fn row_of(data: Seq<u8>, colsb: int, row: int) -> Seq<u8> {
    Seq::new(64, |k: int| if k < colsb { data[row * colsb + k] } else { 0u8 })
}

/// Column `col` of a row-major tile with `rows` rows of `colsb` bytes, zero-extended to a
/// vector (lane `k` holds row `k`).
pub open spec fn col_of(data: Seq<u8>, rows: int, colsb: int, col: int) -> Seq<u8> {
    Seq::new(64, |k: int| if k < rows { data[k * colsb + col] } else { 0u8 })
}

/// `data` with row `row` replaced by the first `colsb` lanes of `val`.
pub open spec fn with_row(data: Seq<u8>, colsb: int, row: int, val: Seq<u8>) -> Seq<u8> {
    Seq::new(
        data.len(),
        |i: int|
            if row * colsb <= i < row * colsb + colsb {
                val[i - row * colsb]
            } else {
                data[i]
            },
    )
}

/// `data` with column `col` replaced: the byte of row `k` becomes lane `k` of `val`.
pub open spec fn with_col(data: Seq<u8>, colsb: int, col: int, val: Seq<u8>) -> Seq<u8> {
    Seq::new(data.len(), |i: int| if i % colsb == col { val[i / colsb] } else { data[i] })
}

/// The byte at `(k, col)` of a `rows x colsb` row-major tile sits at `k * colsb + col`, inside
/// the tile, and that offset divides back into row `k` and column `col`.
proof fn lemma_cell(rows: int, colsb: int, k: int, col: int)
    requires
        0 <= k < rows,
        0 <= col < colsb,
    ensures
        0 <= k * colsb + col < rows * colsb,
        0 <= k * colsb <= k * colsb + col,
        (k * colsb + col) % colsb == col,
        (k * colsb + col) / colsb == k,
{
    assert(0 <= k * colsb && k * colsb + col < rows * colsb) by (nonlinear_arith)
        requires
            0 <= k < rows,
            0 <= col < colsb,
    ;
    lemma_fundamental_div_mod_converse(k * colsb + col, colsb, k, col);
}

/// Every offset inside a `rows x colsb` tile is `row * colsb + col` for its quotient row and
/// remainder column, and that row is below `rows`.
proof fn lemma_offset(rows: int, colsb: int, i: int)
    requires
        0 <= i < rows * colsb,
        colsb > 0,
    ensures
        i == (i / colsb) * colsb + i % colsb,
        0 <= i % colsb < colsb,
        0 <= i / colsb < rows,
{
    lemma_fundamental_div_mod(i, colsb);
    assert(i == (i / colsb) * colsb + i % colsb) by (nonlinear_arith)
        requires
            i == colsb * (i / colsb) + (i % colsb),
    ;
    assert(0 <= i / colsb < rows) by (nonlinear_arith)
        requires
            0 <= i < rows * colsb,
            colsb > 0,
            i == (i / colsb) * colsb + i % colsb,
            0 <= i % colsb < colsb,
    ;
}

/// Row `row` of a `rows x colsb` tile lies inside the tile.
proof fn lemma_row_span(rows: int, colsb: int, row: int)
    requires
        0 <= row < rows,
        0 <= colsb,
    ensures
        0 <= row * colsb,
        row * colsb + colsb <= rows * colsb,
{
    assert(0 <= row * colsb && row * colsb + colsb <= rows * colsb) by (nonlinear_arith)
        requires
            0 <= row < rows,
            0 <= colsb,
    ;
}

/// A palette-2 tile holds at most `16 * 64` bytes.
proof fn lemma_tile_size(rows: int, colsb: int)
    requires
        0 <= rows <= 16,
        0 <= colsb <= 64,
    ensures
        0 <= rows * colsb <= 1024,
{
    assert(0 <= rows * colsb <= 1024) by (nonlinear_arith)
        requires
            0 <= rows <= 16,
            0 <= colsb <= 64,
    ;
}

/// Writing a row and reading it back gives the first `colsb` lanes of the written vector, and
/// every other row reads as before.
pub proof fn lemma_row_write_read(data: Seq<u8>, rows: int, colsb: int, row: int, val: Seq<u8>)
    requires
        data.len() == rows * colsb,
        0 <= row < rows,
        0 <= colsb <= 64,
        val.len() == 64,
    ensures
        row_of(with_row(data, colsb, row, val), colsb, row) == low_lanes(val, colsb),
        forall|other: int|
            0 <= other < rows && other != row ==> #[trigger] row_of(
                with_row(data, colsb, row, val),
                colsb,
                other,
            ) == row_of(data, colsb, other),
{
    lemma_row_span(rows, colsb, row);
    let w = with_row(data, colsb, row, val);
    assert(row_of(w, colsb, row) =~= low_lanes(val, colsb));
    assert forall|other: int| 0 <= other < rows && other != row implies #[trigger] row_of(
        w,
        colsb,
        other,
    ) == row_of(data, colsb, other) by {
        lemma_row_span(rows, colsb, other);
        assert forall|k: int| 0 <= k < colsb implies #[trigger] w[other * colsb + k] == data[other
            * colsb + k] by {
            assert(!(row * colsb <= other * colsb + k < row * colsb + colsb)) by (nonlinear_arith)
                requires
                    0 <= k < colsb,
                    other != row,
            ;
        }
        assert(row_of(w, colsb, other) =~= row_of(data, colsb, other));
    }
}

/// Writing a column and reading it back gives the first `rows` lanes of the written vector,
/// and every other column reads as before.
pub proof fn lemma_col_write_read(data: Seq<u8>, rows: int, colsb: int, col: int, val: Seq<u8>)
    requires
        data.len() == rows * colsb,
        0 <= col < colsb,
        0 <= rows <= 64,
        val.len() == 64,
    ensures
        col_of(with_col(data, colsb, col, val), rows, colsb, col) == low_lanes(val, rows),
        forall|other: int|
            0 <= other < colsb && other != col ==> #[trigger] col_of(
                with_col(data, colsb, col, val),
                rows,
                colsb,
                other,
            ) == col_of(data, rows, colsb, other),
{
    let w = with_col(data, colsb, col, val);
    assert forall|k: int| 0 <= k < rows implies #[trigger] w[k * colsb + col] == val[k] by {
        lemma_cell(rows, colsb, k, col);
    }
    assert(col_of(w, rows, colsb, col) =~= low_lanes(val, rows));
    assert forall|other: int| 0 <= other < colsb && other != col implies #[trigger] col_of(
        w,
        rows,
        colsb,
        other,
    ) == col_of(data, rows, colsb, other) by {
        assert forall|k: int| 0 <= k < rows implies #[trigger] w[k * colsb + other] == data[k
            * colsb + other] by {
            lemma_cell(rows, colsb, k, other);
        }
        assert(col_of(w, rows, colsb, other) =~= col_of(data, rows, colsb, other));
    }
}

/// `TILEMOVROW` (read form): row `row` of tile `src`, zero-extended, or `None` when `row` is
/// not below the tile's configured `rows`.
pub fn _tile_movrow(scope: &TileScope, src: TileId, row: usize) -> (r: Option<[u8; ZMM_BYTES]>)
    ensures
        r is Some <==> row < scope.rows_of(src.idx()),
        r is Some ==> r->0@ == row_of(scope.data(src.idx()), scope.colsb_of(src.idx()), row as int),
{
    _tile_movrow_scalar(scope, src, row)
}

/// Portable `TILEMOVROW` (read form).
pub fn _tile_movrow_scalar(scope: &TileScope, src: TileId, row: usize) -> (r: Option<
    [u8; ZMM_BYTES],
>)
    ensures
        r is Some <==> row < scope.rows_of(src.idx()),
        r is Some ==> r->0@ == row_of(scope.data(src.idx()), scope.colsb_of(src.idx()), row as int),
{
    proof {
        use_type_invariant(scope);
    }
    let (rows, colsb) = scope.tile_shape(src);
    if row >= rows as usize {
        return None;
    }
    proof {
        scope.lemma_wf_shape();
        lemma_row_span(rows as int, colsb as int, row as int);
        lemma_tile_size(rows as int, colsb as int);
    }
    let colsb = colsb as usize;
    let bytes = scope.tile_bytes(src);
    let start = row * colsb;
    let mut out = [0u8; ZMM_BYTES];
    let mut k: usize = 0;
    while k < colsb
        invariant
            k <= colsb <= 64,
            start == row * colsb,
            start + colsb <= bytes@.len(),
            start + colsb <= 1024,
            out@.len() == 64,
            forall|q: int| 0 <= q < k ==> out@[q] == bytes@[start + q],
            forall|q: int| k <= q < 64 ==> out@[q] == 0u8,
        decreases colsb - k,
    {
        out[k] = bytes[start + k];
        k = k + 1;
    }
    assert(out@ =~= row_of(scope.data(src.idx()), colsb as int, row as int));
    Some(out)
}

/// `TILEMOVCOL` (read form): column `col` of tile `src` (one byte per row), zero-extended, or
/// `None` when `col` is not below the tile's configured `colsb`.
pub fn _tile_movcol(scope: &TileScope, src: TileId, col: usize) -> (r: Option<[u8; ZMM_BYTES]>)
    ensures
        r is Some <==> col < scope.colsb_of(src.idx()),
        r is Some ==> r->0@ == col_of(
            scope.data(src.idx()),
            scope.rows_of(src.idx()),
            scope.colsb_of(src.idx()),
            col as int,
        ),
{
    _tile_movcol_scalar(scope, src, col)
}

/// Portable `TILEMOVCOL` (read form).
pub fn _tile_movcol_scalar(scope: &TileScope, src: TileId, col: usize) -> (r: Option<
    [u8; ZMM_BYTES],
>)
    ensures
        r is Some <==> col < scope.colsb_of(src.idx()),
        r is Some ==> r->0@ == col_of(
            scope.data(src.idx()),
            scope.rows_of(src.idx()),
            scope.colsb_of(src.idx()),
            col as int,
        ),
{
    proof {
        use_type_invariant(scope);
    }
    let (rows, colsb) = scope.tile_shape(src);
    let colsb = colsb as usize;
    if col >= colsb {
        return None;
    }
    proof {
        scope.lemma_wf_shape();
        lemma_tile_size(rows as int, colsb as int);
    }
    let rows = rows as usize;
    let bytes = scope.tile_bytes(src);
    let mut out = [0u8; ZMM_BYTES];
    let mut k: usize = 0;
    while k < rows
        invariant
            k <= rows <= 16,
            col < colsb <= 64,
            rows * colsb <= 1024,
            bytes@.len() == rows * colsb,
            out@.len() == 64,
            forall|q: int| 0 <= q < k ==> out@[q] == bytes@[q * colsb + col],
            forall|q: int| k <= q < 64 ==> out@[q] == 0u8,
        decreases rows - k,
    {
        proof {
            lemma_cell(rows as int, colsb as int, k as int, col as int);
        }
        out[k] = bytes[k * colsb + col];
        k = k + 1;
    }
    assert(out@ =~= col_of(scope.data(src.idx()), rows as int, colsb as int, col as int));
    Some(out)
}

/// `TILEMOVROW` (write form): write the first `colsb` lanes of `val` into row `row` of tile
/// `dst`, or return `None` (changing nothing) when `row` is not below the configured `rows`.
pub fn _tile_movrow_write(scope: &mut TileScope, dst: TileId, row: usize, val: [u8; ZMM_BYTES]) -> (r:
    Option<()>)
    ensures
        final(scope).wf(),
        r is Some <==> row < old(scope).rows_of(dst.idx()),
        r is Some ==> final(scope).tile_written(
            *old(scope),
            dst.idx(),
            with_row(old(scope).data(dst.idx()), old(scope).colsb_of(dst.idx()), row as int, val@),
        ),
        r is None ==> *final(scope) == *old(scope),
{
    _tile_movrow_write_scalar(scope, dst, row, val)
}

/// Portable `TILEMOVROW` (write form).
pub fn _tile_movrow_write_scalar(
    scope: &mut TileScope,
    dst: TileId,
    row: usize,
    val: [u8; ZMM_BYTES],
) -> (r: Option<()>)
    ensures
        final(scope).wf(),
        r is Some <==> row < old(scope).rows_of(dst.idx()),
        r is Some ==> final(scope).tile_written(
            *old(scope),
            dst.idx(),
            with_row(old(scope).data(dst.idx()), old(scope).colsb_of(dst.idx()), row as int, val@),
        ),
        r is None ==> *final(scope) == *old(scope),
{
    proof {
        use_type_invariant(&*scope);
    }
    let (rows, colsb) = scope.tile_shape(dst);
    if row >= rows as usize {
        return None;
    }
    proof {
        scope.lemma_wf_shape();
        lemma_row_span(rows as int, colsb as int, row as int);
        lemma_tile_size(rows as int, colsb as int);
    }
    let colsb = colsb as usize;
    let start = row * colsb;
    let ghost orig = old(scope).data(dst.idx());
    let ghost target = with_row(orig, colsb as int, row as int, val@);
    assert(Seq::new(orig.len(), |i: int| if start <= i < start + 0 { val@[i - start] } else { orig[i] }) =~= orig);
    let mut k: usize = 0;
    while k < colsb
        invariant
            k <= colsb <= 64,
            start == row * colsb,
            start + colsb <= orig.len(),
            start + colsb <= 1024,
            orig == old(scope).data(dst.idx()),
            scope.wf(),
            scope.tile_written(
                *old(scope),
                dst.idx(),
                Seq::new(orig.len(), |i: int| if start <= i < start + k { val@[i - start] } else { orig[i] }),
            ),
        decreases colsb - k,
    {
        scope.write_tile_byte(dst, start + k, val[k]);
        assert(Seq::new(orig.len(), |i: int| if start <= i < start + (k + 1) { val@[i - start] } else { orig[i] })
            =~= Seq::new(orig.len(), |i: int| if start <= i < start + k { val@[i - start] } else { orig[i] }).update((start + k) as int, val@[k as int]));
        k = k + 1;
    }
    assert(Seq::new(orig.len(), |i: int| if start <= i < start + k { val@[i - start] } else { orig[i] }) =~= target);
    Some(())
}

/// `TILEMOVCOL` (write form): write the first `rows` lanes of `val` into column `col` of tile
/// `dst` (lane `k` into row `k`), or return `None` (changing nothing) when `col` is not below
/// the configured `colsb`.
pub fn _tile_movcol_write(scope: &mut TileScope, dst: TileId, col: usize, val: [u8; ZMM_BYTES]) -> (r:
    Option<()>)
    ensures
        final(scope).wf(),
        r is Some <==> col < old(scope).colsb_of(dst.idx()),
        r is Some ==> final(scope).tile_written(
            *old(scope),
            dst.idx(),
            with_col(old(scope).data(dst.idx()), old(scope).colsb_of(dst.idx()), col as int, val@),
        ),
        r is None ==> *final(scope) == *old(scope),
{
    _tile_movcol_write_scalar(scope, dst, col, val)
}

/// Portable `TILEMOVCOL` (write form).
pub fn _tile_movcol_write_scalar(
    scope: &mut TileScope,
    dst: TileId,
    col: usize,
    val: [u8; ZMM_BYTES],
) -> (r: Option<()>)
    ensures
        final(scope).wf(),
        r is Some <==> col < old(scope).colsb_of(dst.idx()),
        r is Some ==> final(scope).tile_written(
            *old(scope),
            dst.idx(),
            with_col(old(scope).data(dst.idx()), old(scope).colsb_of(dst.idx()), col as int, val@),
        ),
        r is None ==> *final(scope) == *old(scope),
{
    proof {
        use_type_invariant(&*scope);
    }
    let (rows, colsb) = scope.tile_shape(dst);
    let colsb = colsb as usize;
    if col >= colsb {
        return None;
    }
    proof {
        scope.lemma_wf_shape();
        lemma_tile_size(rows as int, colsb as int);
    }
    let rows = rows as usize;
    let ghost orig = old(scope).data(dst.idx());
    let ghost c = colsb as int;
    assert(Seq::new(orig.len(), |i: int| if i % c == col && i / c < 0 { val@[i / c] } else { orig[i] }) =~= orig);
    let mut k: usize = 0;
    while k < rows
        invariant
            k <= rows <= 16,
            col < colsb <= 64,
            rows * colsb <= 1024,
            c == colsb,
            orig.len() == rows * colsb,
            orig == old(scope).data(dst.idx()),
            scope.wf(),
            scope.tile_written(
                *old(scope),
                dst.idx(),
                Seq::new(orig.len(), |i: int| if i % c == col && i / c < k { val@[i / c] } else { orig[i] }),
            ),
        decreases rows - k,
    {
        proof {
            lemma_cell(rows as int, c, k as int, col as int);
        }
        let p = k * colsb + col;
        scope.write_tile_byte(dst, p, val[k]);
        proof {
            let before = Seq::new(orig.len(), |i: int| if i % c == col && i / c < k { val@[i / c] } else { orig[i] });
            let after = Seq::new(orig.len(), |i: int| if i % c == col && i / c < k + 1 { val@[i / c] } else { orig[i] });
            assert forall|i: int| 0 <= i < orig.len() implies #[trigger] after[i] == before.update(p as int, val@[k as int])[i] by {
                if i % c == col && i / c == k {
                    lemma_offset(rows as int, c, i);
                }
            }
            assert(after =~= before.update(p as int, val@[k as int]));
        }
        k = k + 1;
    }
    proof {
        let done = Seq::new(orig.len(), |i: int| if i % c == col && i / c < k { val@[i / c] } else { orig[i] });
        assert forall|i: int| 0 <= i < orig.len() implies #[trigger] done[i] == with_col(orig, c, col as int, val@)[i] by {
            lemma_offset(rows as int, c, i);
        }
        assert(done =~= with_col(orig, c, col as int, val@));
    }
    Some(())
}

} // verus!
