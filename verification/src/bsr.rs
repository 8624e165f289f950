//! ACE block-scale (`BSR`) registers.
//!
//! A [`BsrReg`] holds [`BSR_SCALE_BLOCKS`] per-block microscaling scale exponents, one `u8`
//! each (the MX E8M0 shared-exponent-per-block convention). The file of [`NUM_BSR`] registers
//! lives inside the [`TileScope`] guard; four instructions seed and move block scales:
//!
//! * `BSRINIT` — [`_tile_bsrinit`] seeds every block exponent of one register.
//! * `BSRMOVF` — [`_tile_bsrmovf`] moves the full 8-bit exponent of one block.
//! * `BSRMOVH` — [`_tile_bsrmovh`] moves the high nibble (bits `7:4`) of one block's exponent,
//!   preserving its low nibble; the payload is the low nibble of the argument.
//! * `BSRMOVL` — [`_tile_bsrmovl`] moves the low nibble (bits `3:0`), preserving the high one.
//!
//! Only the addressed register and block change. An out-of-range block addresses nothing: the
//! move returns `None` and mutates nothing. Each instruction is a dispatcher plus a portable
//! `_scalar` form; no native path exists, so both compute the same value.
use crate::tile::TileScope;
use vstd::prelude::*;

verus! {

/// Number of addressable block-scale registers (`BSR0..=BSR7`).
pub const NUM_BSR: usize = 8;

/// Number of per-block scale exponents one [`BsrReg`] holds.
pub const BSR_SCALE_BLOCKS: usize = 4;

/// One block-scale register: [`BSR_SCALE_BLOCKS`] per-block scale exponents.
#[derive(Clone, Copy, PartialEq, Eq, Debug)]
pub struct BsrReg {
    scales: [u8; 4],
}

/// A handle addressing one block-scale register of a [`TileScope`]; minted only by
/// [`TileScope::bsr`], so it always addresses an existing register.
#[derive(Clone, Copy, PartialEq, Eq, Debug)]
pub struct BsrId {
    index: usize,
}

impl BsrId {
    #[verifier::type_invariant]
    spec fn in_range(self) -> bool {
        self.index < 8
    }

    /// The addressed register.
    pub closed spec fn idx(self) -> int {
        self.index as int
    }

    /// Mint a handle for register `index`.
    pub(crate) fn new(index: usize) -> (r: Self)
        requires
            index < NUM_BSR,
        ensures
            r.idx() == index,
    {
        BsrId { index }
    }

    /// The addressed register's index.
    pub(crate) fn index(&self) -> (r: usize)
        ensures
            r == self.idx(),
            r < NUM_BSR,
    {
        proof {
            use_type_invariant(self);
        }
        self.index
    }
}

impl BsrReg {
    /// The per-block exponents.
    pub closed spec fn view_scales(self) -> Seq<u8> {
        self.scales@
    }

    /// A cleared register (every block exponent zero).
    pub(crate) fn zeroed() -> (r: Self)
        ensures
            r.view_scales() == seq![0u8, 0u8, 0u8, 0u8],
        opens_invariants none
        no_unwind
    {
        BsrReg { scales: [0u8, 0u8, 0u8, 0u8] }
    }

    /// The exponent of `block`, or `None` when `block` is out of range.
    pub fn scale(&self, block: usize) -> (r: Option<u8>)
        ensures
            r == (if block < BSR_SCALE_BLOCKS {
                Some(self.view_scales()[block as int])
            } else {
                None
            }),
    {
        if block < 4 {
            Some(self.scales[block])
        } else {
            None
        }
    }

    /// All per-block exponents.
    pub fn scales(&self) -> (r: &[u8; 4])
        ensures
            r@ == self.view_scales(),
    {
        &self.scales
    }

    /// Replace the exponent of `block` (in range).
    pub(crate) fn set_block(&mut self, block: usize, v: u8)
        requires
            block < BSR_SCALE_BLOCKS,
        ensures
            final(self).view_scales() == old(self).view_scales().update(block as int, v),
        no_unwind
    {
        self.scales[block] = v;
    }

    /// Replace every exponent.
    pub(crate) fn set_all(&mut self, exponents: [u8; 4])
        ensures
            final(self).view_scales() == exponents@,
        no_unwind
    {
        self.scales = exponents;
    }
}

/// The exponent after `BSRMOVH`: bits `7:4` replaced by the low nibble of `high`.
pub open spec fn movh_value(prev: u8, high: u8) -> u8 {
    ((prev % 16) + (high % 16) * 16) as u8
}

/// The exponent after `BSRMOVL`: bits `3:0` replaced by the low nibble of `low`.
pub open spec fn movl_value(prev: u8, low: u8) -> u8 {
    ((prev / 16) * 16 + low % 16) as u8
}

/// `BSRINIT`: seed the addressed register with a full set of per-block exponents. Only the
/// addressed register changes; seeding twice with the same exponents is idempotent.
pub fn _tile_bsrinit(scope: &mut TileScope, dst: BsrId, exponents: [u8; 4])
    ensures
        final(scope).wf(),
        final(scope).bsr_written(*old(scope), dst.idx(), exponents@),
{
    _tile_bsrinit_scalar(scope, dst, exponents);
}

/// Portable `BSRINIT`.
pub fn _tile_bsrinit_scalar(scope: &mut TileScope, dst: BsrId, exponents: [u8; 4])
    ensures
        final(scope).wf(),
        final(scope).bsr_written(*old(scope), dst.idx(), exponents@),
{
    scope.update_bsr(dst, exponents);
}

/// `BSRMOVF`: move the full 8-bit factor into `block` of the addressed register, or `None`
/// (mutating nothing) when `block` is out of range.
pub fn _tile_bsrmovf(scope: &mut TileScope, dst: BsrId, block: usize, factor: u8) -> (r: Option<
    (),
>)
    ensures
        final(scope).wf(),
        r is Some <==> block < BSR_SCALE_BLOCKS,
        r is Some ==> final(scope).bsr_written(
            *old(scope),
            dst.idx(),
            old(scope).scales_of(dst.idx()).update(block as int, factor),
        ),
        r is None ==> *final(scope) == *old(scope),
{
    _tile_bsrmovf_scalar(scope, dst, block, factor)
}

/// Portable `BSRMOVF`.
pub fn _tile_bsrmovf_scalar(scope: &mut TileScope, dst: BsrId, block: usize, factor: u8) -> (r:
    Option<()>)
    ensures
        final(scope).wf(),
        r is Some <==> block < BSR_SCALE_BLOCKS,
        r is Some ==> final(scope).bsr_written(
            *old(scope),
            dst.idx(),
            old(scope).scales_of(dst.idx()).update(block as int, factor),
        ),
        r is None ==> *final(scope) == *old(scope),
{
    proof {
        use_type_invariant(&*scope);
    }
    if block >= BSR_SCALE_BLOCKS {
        return None;
    }
    scope.update_bsr_block(dst, block, factor);
    Some(())
}

/// `BSRMOVH`: replace bits `7:4` of the addressed block's exponent with the low nibble of
/// `high`, keeping its low nibble; `None` (mutating nothing) when `block` is out of range.
pub fn _tile_bsrmovh(scope: &mut TileScope, dst: BsrId, block: usize, high: u8) -> (r: Option<
    (),
>)
    ensures
        final(scope).wf(),
        r is Some <==> block < BSR_SCALE_BLOCKS,
        r is Some ==> final(scope).bsr_written(
            *old(scope),
            dst.idx(),
            old(scope).scales_of(dst.idx()).update(
                block as int,
                movh_value(old(scope).scales_of(dst.idx())[block as int], high),
            ),
        ),
        r is None ==> *final(scope) == *old(scope),
{
    _tile_bsrmovh_scalar(scope, dst, block, high)
}

/// Portable `BSRMOVH`.
pub fn _tile_bsrmovh_scalar(scope: &mut TileScope, dst: BsrId, block: usize, high: u8) -> (r:
    Option<()>)
    ensures
        final(scope).wf(),
        r is Some <==> block < BSR_SCALE_BLOCKS,
        r is Some ==> final(scope).bsr_written(
            *old(scope),
            dst.idx(),
            old(scope).scales_of(dst.idx()).update(
                block as int,
                movh_value(old(scope).scales_of(dst.idx())[block as int], high),
            ),
        ),
        r is None ==> *final(scope) == *old(scope),
{
    proof {
        use_type_invariant(&*scope);
    }
    if block >= BSR_SCALE_BLOCKS {
        return None;
    }
    let slot = scope.bsr_scale(dst, block).unwrap();
    let v = (slot & 0x0F) | ((high & 0x0F) << 4);
    proof {
        assert((slot & 0x0F) | ((high & 0x0F) << 4) == ((slot % 16) + (high % 16) * 16) as u8)
            by (bit_vector);
    }
    scope.update_bsr_block(dst, block, v);
    Some(())
}

/// `BSRMOVL`: replace bits `3:0` of the addressed block's exponent with the low nibble of
/// `low`, keeping its high nibble; `None` (mutating nothing) when `block` is out of range.
pub fn _tile_bsrmovl(scope: &mut TileScope, dst: BsrId, block: usize, low: u8) -> (r: Option<
    (),
>)
    ensures
        final(scope).wf(),
        r is Some <==> block < BSR_SCALE_BLOCKS,
        r is Some ==> final(scope).bsr_written(
            *old(scope),
            dst.idx(),
            old(scope).scales_of(dst.idx()).update(
                block as int,
                movl_value(old(scope).scales_of(dst.idx())[block as int], low),
            ),
        ),
        r is None ==> *final(scope) == *old(scope),
{
    _tile_bsrmovl_scalar(scope, dst, block, low)
}

/// Portable `BSRMOVL`.
pub fn _tile_bsrmovl_scalar(scope: &mut TileScope, dst: BsrId, block: usize, low: u8) -> (r:
    Option<()>)
    ensures
        final(scope).wf(),
        r is Some <==> block < BSR_SCALE_BLOCKS,
        r is Some ==> final(scope).bsr_written(
            *old(scope),
            dst.idx(),
            old(scope).scales_of(dst.idx()).update(
                block as int,
                movl_value(old(scope).scales_of(dst.idx())[block as int], low),
            ),
        ),
        r is None ==> *final(scope) == *old(scope),
{
    proof {
        use_type_invariant(&*scope);
    }
    if block >= BSR_SCALE_BLOCKS {
        return None;
    }
    let slot = scope.bsr_scale(dst, block).unwrap();
    let v = (slot & 0xF0) | (low & 0x0F);
    proof {
        assert((slot & 0xF0) | (low & 0x0F) == ((slot / 16) * 16 + low % 16) as u8)
            by (bit_vector);
    }
    scope.update_bsr_block(dst, block, v);
    Some(())
}

/// A high-nibble move followed by a low-nibble move of the same block leaves exactly the
/// exponent a full move of `(high & 0xF) << 4 | (low & 0xF)` would.
pub proof fn lemma_movh_then_movl_is_full_move(prev: u8, high: u8, low: u8)
    ensures
        movl_value(movh_value(prev, high), low) == ((high % 16) * 16 + low % 16) as u8,
{
    assert(((((prev % 16) + (high % 16) * 16) as u8 / 16) * 16 + low % 16) as u8 == ((high % 16)
        * 16 + low % 16) as u8) by (bit_vector);
}

/// A low-nibble move followed by a high-nibble move of the same block gives the same exponent as
/// the opposite order.
pub proof fn lemma_movl_movh_commute(prev: u8, high: u8, low: u8)
    ensures
        movh_value(movl_value(prev, low), high) == movl_value(movh_value(prev, high), low),
{
    assert(((((prev / 16) * 16 + low % 16) as u8 % 16) + (high % 16) * 16) as u8 == (((((prev % 16)
        + (high % 16) * 16) as u8) / 16) * 16 + low % 16) as u8) by (bit_vector);
}

/// A block scale moved into a register is what a later read of that block returns; the other
/// blocks of the register and every other register keep their exponents.
pub proof fn lemma_bsr_write_read(
    after: TileScope,
    before: TileScope,
    dst: BsrId,
    block: int,
    factor: u8,
)
    requires
        before.wf(),
        0 <= dst.idx() < NUM_BSR,
        0 <= block < BSR_SCALE_BLOCKS,
        after.bsr_written(before, dst.idx(), before.scales_of(dst.idx()).update(block, factor)),
    ensures
        after.scales_of(dst.idx())[block] == factor,
        forall|b: int|
            0 <= b < BSR_SCALE_BLOCKS && b != block ==> #[trigger] after.scales_of(dst.idx())[b]
                == before.scales_of(dst.idx())[b],
        forall|r: int|
            0 <= r < NUM_BSR && r != dst.idx() ==> #[trigger] after.scales_of(r)
                == before.scales_of(r),
{
    before.lemma_wf_shape();
}

/// `BSRINIT` is idempotent: seeding a register a second time with the same exponents leaves
/// every register and every tile as the first seeding left them.
pub proof fn lemma_bsrinit_idempotent(
    s0: TileScope,
    s1: TileScope,
    s2: TileScope,
    dst: BsrId,
    exponents: Seq<u8>,
)
    requires
        s1.bsr_written(s0, dst.idx(), exponents),
        s2.bsr_written(s1, dst.idx(), exponents),
    ensures
        forall|r: int| 0 <= r < NUM_BSR ==> #[trigger] s2.scales_of(r) == s1.scales_of(r),
        s2.same_tiles(s1),
{
}

} // verus!
