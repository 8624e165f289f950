//! Tile configuration lifecycle, owned by an RAII guard.
//!
//! * `LDTILECFG` — [`_tile_loadconfig`] validates a palette-2 [`TileConfig`], allocates the
//!   zeroed tile buffers it describes and returns the [`TileScope`] guard.
//! * `STTILECFG` — [`_tile_storeconfig`] returns the descriptor the guard loaded.
//! * `TILEZERO` — [`_tile_zero`] clears the addressed tile and nothing else.
//! * `TILERELEASE` — run by the guard's `Drop`, exactly once: the tile file is dropped, so
//!   every tile reads as unconfigured (`(0, 0)`, no bytes), every block-scale register is
//!   cleared, and an attached release ledger is bumped.
//!
//! A [`TileScope`] owns its register model outright, so nested or sequential guards never
//! interfere. Each lifecycle op is a dispatcher plus a portable `_scalar` form; no native path
//! exists, so both compute the same value.
use crate::bsr::{BsrId, BsrReg, NUM_BSR};
use std::sync::atomic::AtomicUsize;
use std::sync::Arc;
use vstd::prelude::*;

verus! {

/// Number of addressable tiles in a palette-2 configuration (`TMM0..=TMM7`).
pub const MAX_TILES: usize = 8;

/// The only palette the tile lifecycle supports.
const PALETTE_2: u8 = 2;

/// Palette-2 per-tile row limit.
const MAX_ROWS: u8 = 16;

/// Palette-2 per-tile bytes-per-row limit.
const MAX_COLSB: u16 = 64;

/// A palette-2 tile configuration descriptor: a palette id and, per tile, a row count and a
/// bytes-per-row (`colsb`) count. A `0` entry is an unconfigured tile.
#[derive(Clone, Copy, PartialEq, Eq, Debug)]
pub struct TileConfig {
    /// Palette identifier; must equal `2`.
    pub palette_id: u8,
    /// Per-tile row counts; each must be `<= 16`.
    pub rows: [u8; MAX_TILES],
    /// Per-tile bytes-per-row; each must be `<= 64`.
    pub colsb: [u16; MAX_TILES],
}

/// Why a palette-2 descriptor was refused.
#[derive(Clone, Copy, PartialEq, Eq, Debug)]
pub enum TileConfigError {
    /// The palette id was not `2`.
    InvalidPalette,
    /// Some tile's `rows` entry exceeded `16`.
    RowsOutOfRange,
    /// Some tile's `colsb` entry exceeded `64`.
    ColsbOutOfRange,
}

impl TileConfig {
    /// Some tile's row count exceeds the palette-2 limit.
    pub open spec fn rows_over(self) -> bool {
        exists|t: int| 0 <= t < MAX_TILES && #[trigger] self.rows[t] > 16
    }

    /// Some tile's bytes-per-row count exceeds the palette-2 limit.
    pub open spec fn colsb_over(self) -> bool {
        exists|t: int| 0 <= t < MAX_TILES && #[trigger] self.colsb[t] > 64
    }

    /// The verdict on a descriptor: the palette is checked first, then the rows, then `colsb`.
    pub open spec fn check(self) -> Result<(), TileConfigError> {
        if self.palette_id != 2 {
            Err(TileConfigError::InvalidPalette)
        } else if self.rows_over() {
            Err(TileConfigError::RowsOutOfRange)
        } else if self.colsb_over() {
            Err(TileConfigError::ColsbOutOfRange)
        } else {
            Ok(())
        }
    }

    /// Validate the palette-2 limits, reporting the first violation in the order of [`check`].
    fn validate(&self) -> (r: Result<(), TileConfigError>)
        ensures
            r == self.check(),
    {
        if self.palette_id != PALETTE_2 {
            return Err(TileConfigError::InvalidPalette);
        }
        let mut t: usize = 0;
        while t < MAX_TILES
            invariant
                t <= MAX_TILES,
                self.palette_id == 2,
                forall|u: int| 0 <= u < t ==> self.rows[u] <= MAX_ROWS,
            decreases MAX_TILES - t,
        {
            if self.rows[t] > MAX_ROWS {
                assert(self.rows[t as int] > 16);
                return Err(TileConfigError::RowsOutOfRange);
            }
            t = t + 1;
        }
        let mut t: usize = 0;
        while t < MAX_TILES
            invariant
                t <= MAX_TILES,
                self.palette_id == 2,
                !self.rows_over(),
                forall|u: int| 0 <= u < t ==> self.colsb[u] <= MAX_COLSB,
            decreases MAX_TILES - t,
        {
            if self.colsb[t] > MAX_COLSB {
                assert(self.colsb[t as int] > 64);
                return Err(TileConfigError::ColsbOutOfRange);
            }
            t = t + 1;
        }
        Ok(())
    }
}

/// One tile: `rows * colsb` bytes, row-major. Only reachable through its [`TileScope`].
#[derive(Debug)]
struct Tile {
    rows: u8,
    colsb: u16,
    bytes: Vec<u8>,
}

impl Tile {
    /// A zeroed tile of the given shape.
    fn new(rows: u8, colsb: u16) -> (r: Self)
        requires
            rows <= 16,
            colsb <= 64,
        ensures
            r.rows == rows,
            r.colsb == colsb,
            r.bytes@ == Seq::new((rows * colsb) as nat, |i: int| 0u8),
    {
        proof {
            assert(rows * colsb <= 16 * 64) by (nonlinear_arith)
                requires
                    rows <= 16,
                    colsb <= 64,
            ;
        }
        let n: usize = rows as usize * colsb as usize;
        let mut bytes: Vec<u8> = Vec::new();
        while bytes.len() < n
            invariant
                bytes.len() <= n,
                forall|i: int| 0 <= i < bytes.len() ==> bytes@[i] == 0u8,
            decreases n - bytes.len(),
        {
            bytes.push(0u8);
        }
        assert(bytes@ == Seq::new((rows * colsb) as nat, |i: int| 0u8));
        Tile { rows, colsb, bytes }
    }
}

/// A handle to one tile of a [`TileScope`], minted only by [`TileScope::tile`].
#[derive(Clone, Copy, PartialEq, Eq, Debug)]
pub struct TileId {
    index: usize,
}

impl TileId {
    #[verifier::type_invariant]
    spec fn in_range(self) -> bool {
        self.index < MAX_TILES
    }

    /// The addressed tile.
    pub closed spec fn idx(self) -> int {
        self.index as int
    }

    /// The addressed tile's index.
    pub(crate) fn index(&self) -> (r: usize)
        ensures
            r == self.idx(),
            r < MAX_TILES,
    {
        proof {
            use_type_invariant(self);
        }
        self.index
    }
}

/// Bump the release ledger by one.
///
/// Calls `AtomicUsize::fetch_add` with `SeqCst` ordering. Nothing is claimed of the counter,
/// whose value other holders of the ledger may change at any time; the contract states only
/// that the call neither unwinds nor opens an invariant, which `fetch_add` on an integer
/// atomic does not.
#[verifier::external_body]
fn bump_ledger(ledger: &Arc<AtomicUsize>)
    opens_invariants none
    no_unwind
{
    ledger.fetch_add(1, std::sync::atomic::Ordering::SeqCst);
}

/// A block-scale file with every exponent cleared.
fn cleared_bsr_file() -> (r: [BsrReg; NUM_BSR])
    ensures
        forall|q: int| 0 <= q < NUM_BSR ==> #[trigger] r@[q].view_scales() == seq![0u8, 0u8, 0u8, 0u8],
    opens_invariants none
    no_unwind
{
    let z = BsrReg::zeroed();
    [z, z, z, z, z, z, z, z]
}

/// Overwrite byte `offset` of tile `t` of a configured tile file, keeping every shape.
fn set_tile_byte_in(tiles: &mut Option<Vec<Tile>>, t: usize, offset: usize, value: u8)
    requires
        *old(tiles) is Some,
        t < (*old(tiles))->0@.len(),
        offset < (*old(tiles))->0@[t as int].bytes@.len(),
    ensures
        *final(tiles) is Some,
        (*final(tiles))->0@ == (*old(tiles))->0@.update(t as int, (*final(tiles))->0@[t as int]),
        (*final(tiles))->0@[t as int].rows == (*old(tiles))->0@[t as int].rows,
        (*final(tiles))->0@[t as int].colsb == (*old(tiles))->0@[t as int].colsb,
        (*final(tiles))->0@[t as int].bytes@ == (*old(tiles))->0@[t as int].bytes@.update(
            offset as int,
            value,
        ),
    no_unwind
{
    match tiles {
        Some(v) => {
            v[t].bytes[offset] = value;
        },
        None => {},
    }
}

/// The RAII tile lifecycle guard: the loaded descriptor, the eight tile buffers and the eight
/// block-scale registers. Its `Drop` runs `TILERELEASE` exactly once.
///
/// Once released, the tile file is gone (`tiles` is `None`): every tile reads as unconfigured,
/// `(0, 0)` with no bytes.
#[derive(Debug)]
pub struct TileScope {
    config: TileConfig,
    tiles: Option<Vec<Tile>>,
    bsr: [BsrReg; NUM_BSR],
    release_ledger: Option<Arc<AtomicUsize>>,
    /// How many times this guard has bumped its release ledger: at most once, on release.
    ledger_bumps: u8,
}

impl TileScope {
    /// The register model matches the descriptor the guard loaded: while the guard is live,
    /// eight tiles of the configured shapes; always, eight four-block scale registers.
    #[verifier::type_invariant]
    pub closed spec fn wf(self) -> bool {
        &&& self.config.check() is Ok
        &&& forall|r: int| 0 <= r < NUM_BSR ==> (#[trigger] self.bsr@[r]).view_scales().len() == 4
        &&& self.ledger_bumps <= 1
        &&& self.tiles is Some ==> self.ledger_bumps == 0
        &&& self.tiles matches Some(v) ==> {
            &&& v@.len() == MAX_TILES
            &&& forall|t: int|
                0 <= t < MAX_TILES ==> {
                    &&& (#[trigger] v@[t]).rows == self.config.rows[t]
                    &&& v@[t].colsb == self.config.colsb[t]
                    &&& v@[t].bytes@.len() == v@[t].rows * v@[t].colsb
                }
        }
    }

    /// The descriptor the guard loaded.
    pub closed spec fn config_view(self) -> TileConfig {
        self.config
    }

    /// Configured row count of tile `t` (zero once released).
    pub closed spec fn rows_of(self, t: int) -> int {
        match self.tiles {
            Some(v) => v@[t].rows as int,
            None => 0,
        }
    }

    /// Configured bytes-per-row of tile `t` (zero once released).
    pub closed spec fn colsb_of(self, t: int) -> int {
        match self.tiles {
            Some(v) => v@[t].colsb as int,
            None => 0,
        }
    }

    /// The bytes of tile `t`, row-major (none once released).
    pub closed spec fn data(self, t: int) -> Seq<u8> {
        match self.tiles {
            Some(v) => v@[t].bytes@,
            None => Seq::empty(),
        }
    }

    /// The per-block exponents of block-scale register `r`.
    pub closed spec fn scales_of(self, r: int) -> Seq<u8> {
        self.bsr@[r].view_scales()
    }

    /// Whether the guard has run `TILERELEASE`.
    pub closed spec fn is_released(self) -> bool {
        self.tiles is None
    }

    /// How many times the guard has bumped its release ledger.
    pub closed spec fn bumps(self) -> nat {
        self.ledger_bumps as nat
    }

    /// Tiles `t` of `self` and `other` have the same shape and bytes.
    pub open spec fn same_tile(self, other: TileScope, t: int) -> bool {
        &&& self.rows_of(t) == other.rows_of(t)
        &&& self.colsb_of(t) == other.colsb_of(t)
        &&& self.data(t) == other.data(t)
    }

    /// `self` and `other` hold the same descriptor and the same tiles.
    pub open spec fn same_tiles(self, other: TileScope) -> bool {
        &&& self.config_view() == other.config_view()
        &&& forall|t: int| 0 <= t < MAX_TILES ==> #[trigger] self.same_tile(other, t)
    }

    /// `self` and `other` hold the same block-scale registers.
    pub open spec fn same_bsr(self, other: TileScope) -> bool {
        forall|r: int| 0 <= r < NUM_BSR ==> #[trigger] self.scales_of(r) == other.scales_of(r)
    }

    /// `self` is `old` with block-scale register `r` set to `s` and nothing else changed: tiles,
    /// descriptor, ledger, bump count and released state are kept.
    pub open spec fn bsr_written(self, old: TileScope, r: int, s: Seq<u8>) -> bool {
        &&& self.scales_of(r) == s
        &&& self.ledger() == old.ledger()
        &&& self.bumps() == old.bumps()
        &&& self.is_released() == old.is_released()
        &&& forall|q: int|
            0 <= q < NUM_BSR && q != r ==> #[trigger] self.scales_of(q) == old.scales_of(q)
        &&& self.same_tiles(old)
    }

    /// `self` is `old` with the bytes of tile `t` set to `d` and nothing else changed: shapes,
    /// descriptor, block-scale registers, ledger, bump count and released state are kept.
    pub open spec fn tile_written(self, old: TileScope, t: int, d: Seq<u8>) -> bool {
        &&& self.config_view() == old.config_view()
        &&& self.ledger() == old.ledger()
        &&& self.bumps() == old.bumps()
        &&& self.is_released() == old.is_released()
        &&& self.data(t) == d
        &&& forall|u: int| 0 <= u < MAX_TILES ==> self.rows_of(u) == old.rows_of(u)
        &&& forall|u: int| 0 <= u < MAX_TILES ==> self.colsb_of(u) == old.colsb_of(u)
        &&& forall|u: int|
            0 <= u < MAX_TILES && u != t ==> #[trigger] self.data(u) == old.data(u)
        &&& self.same_bsr(old)
    }

    /// What a well-formed guard guarantees of its shape: while live, every tile has the shape
    /// its descriptor entry gives; every tile's byte count is `rows * colsb` within the
    /// palette-2 limits; and every block-scale register holds four exponents.
    pub proof fn lemma_wf_shape(self)
        requires
            self.wf(),
        ensures
            self.config_view().check() is Ok,
            forall|t: int|
                0 <= t < MAX_TILES ==> {
                    &&& !self.is_released() ==> #[trigger] self.rows_of(t) == self.config_view().rows[t]
                    &&& !self.is_released() ==> self.colsb_of(t) == self.config_view().colsb[t]
                    &&& self.data(t).len() == self.rows_of(t) * self.colsb_of(t)
                    &&& self.rows_of(t) <= 16
                    &&& self.colsb_of(t) <= 64
                },
            forall|r: int| 0 <= r < NUM_BSR ==> #[trigger] self.scales_of(r).len() == 4,
    {
        assert forall|t: int| 0 <= t < MAX_TILES implies self.rows_of(t) <= 16 && self.colsb_of(t)
            <= 64 by {
            if self.config.rows[t] > MAX_ROWS {
                assert(self.config.rows_over());
            }
            if self.config.colsb[t] > MAX_COLSB {
                assert(self.config.colsb_over());
            }
        }
    }

    /// The release ledger attached to the guard, if any.
    pub closed spec fn ledger(self) -> Option<Arc<AtomicUsize>> {
        self.release_ledger
    }

    /// `self` is the guard a successful `LDTILECFG` of `config` establishes: the descriptor is
    /// stored verbatim, each tile has its descriptor shape and all-zero bytes, every block-scale
    /// register is cleared, and no release ledger is attached.
    pub open spec fn fresh_from(self, config: TileConfig) -> bool {
        &&& self.wf()
        &&& self.config_view() == config
        &&& forall|t: int|
            0 <= t < MAX_TILES ==> {
                &&& #[trigger] self.rows_of(t) == config.rows[t]
                &&& self.colsb_of(t) == config.colsb[t]
                &&& self.data(t) == Seq::new((config.rows[t] * config.colsb[t]) as nat, |i: int| 0u8)
            }
        &&& forall|r: int| 0 <= r < NUM_BSR ==> #[trigger] self.scales_of(r) == seq![0u8, 0u8, 0u8, 0u8]
        &&& !self.is_released()
        &&& self.ledger() is None
        &&& self.bumps() == 0
    }

    /// Attach a release ledger: the guard's `Drop` adds one to it, exactly once.
    pub fn set_release_ledger(&mut self, ledger: Arc<AtomicUsize>)
        ensures
            final(self).ledger() == Some(ledger),
            final(self).is_released() == old(self).is_released(),
            final(self).bumps() == old(self).bumps(),
            final(self).same_tiles(*old(self)),
            final(self).same_bsr(*old(self)),
    {
        proof {
            use_type_invariant(&*self);
        }
        self.release_ledger = Some(ledger);
    }

    /// A handle to tile `index`, or `None` when `index` is not below [`MAX_TILES`].
    pub fn tile(&self, index: usize) -> (r: Option<TileId>)
        ensures
            r is Some <==> index < MAX_TILES,
            r is Some ==> r->0.idx() == index,
    {
        if index < MAX_TILES {
            Some(TileId { index })
        } else {
            None
        }
    }

    /// A handle to block-scale register `index`, or `None` when `index` is not below
    /// [`NUM_BSR`].
    pub fn bsr(&self, index: usize) -> (r: Option<BsrId>)
        ensures
            r is Some <==> index < NUM_BSR,
            r is Some ==> r->0.idx() == index,
    {
        if index < NUM_BSR {
            Some(BsrId::new(index))
        } else {
            None
        }
    }

    /// The exponent of `block` in the addressed block-scale register, or `None` when `block`
    /// is out of range.
    pub fn bsr_scale(&self, id: BsrId, block: usize) -> (r: Option<u8>)
        ensures
            r == (if block < 4 {
                Some(self.scales_of(id.idx())[block as int])
            } else {
                None
            }),
    {
        proof {
            use_type_invariant(self);
        }
        let i = id.index();
        self.bsr[i].scale(block)
    }

    /// The whole addressed block-scale register.
    pub fn bsr_reg(&self, id: BsrId) -> (r: &BsrReg)
        ensures
            r.view_scales() == self.scales_of(id.idx()),
    {
        proof {
            use_type_invariant(self);
        }
        let i = id.index();
        &self.bsr[i]
    }

    /// Set every exponent of the addressed block-scale register.
    pub(crate) fn update_bsr(&mut self, id: BsrId, exponents: [u8; 4])
        ensures
            final(self).wf(),
            final(self).bsr_written(*old(self), id.idx(), exponents@),
    {
        proof {
            use_type_invariant(&*self);
        }
        let i = id.index();
        let mut reg = self.bsr[i];
        reg.set_all(exponents);
        self.bsr[i] = reg;
        assert(self.same_tiles(*old(self)));
    }

    /// Set the exponent of `block` in the addressed block-scale register.
    pub(crate) fn update_bsr_block(&mut self, id: BsrId, block: usize, v: u8)
        requires
            block < 4,
        ensures
            final(self).wf(),
            final(self).bsr_written(
                *old(self),
                id.idx(),
                old(self).scales_of(id.idx()).update(block as int, v),
            ),
    {
        proof {
            use_type_invariant(&*self);
        }
        let i = id.index();
        let mut reg = self.bsr[i];
        reg.set_block(block, v);
        self.bsr[i] = reg;
        assert(self.same_tiles(*old(self)));
    }

    /// The configured `(rows, colsb)` shape of the addressed tile; `(0, 0)` is an
    /// unconfigured tile.
    pub fn tile_shape(&self, id: TileId) -> (r: (u8, u16))
        ensures
            0 <= id.idx() < MAX_TILES,
            r.0 == self.rows_of(id.idx()),
            r.1 == self.colsb_of(id.idx()),
    {
        proof {
            use_type_invariant(self);
        }
        let t = id.index();
        match &self.tiles {
            Some(v) => (v[t].rows, v[t].colsb),
            None => (0, 0),
        }
    }

    /// The addressed tile's bytes, row-major.
    pub fn tile_bytes(&self, id: TileId) -> (r: &[u8])
        ensures
            r@ == self.data(id.idx()),
    {
        proof {
            use_type_invariant(self);
        }
        let t = id.index();
        match &self.tiles {
            Some(v) => v[t].bytes.as_slice(),
            None => &[],
        }
    }

    /// Overwrite byte `offset` of the addressed tile, or return `None` (changing nothing) when
    /// `offset` is past the tile's `rows * colsb` bytes.
    pub fn set_tile_byte(&mut self, id: TileId, offset: usize, value: u8) -> (r: Option<()>)
        ensures
            final(self).wf(),
            r is Some <==> offset < old(self).data(id.idx()).len(),
            r is Some ==> final(self).tile_written(
                *old(self),
                id.idx(),
                old(self).data(id.idx()).update(offset as int, value),
            ),
            r is None ==> *final(self) == *old(self),
    {
        proof {
            use_type_invariant(&*self);
        }
        if offset < self.tile_bytes(id).len() {
            self.write_tile_byte(id, offset, value);
            Some(())
        } else {
            None
        }
    }

    /// Overwrite byte `offset` (in range) of the addressed tile.
    pub(crate) fn write_tile_byte(&mut self, id: TileId, offset: usize, value: u8)
        requires
            offset < old(self).data(id.idx()).len(),
        ensures
            final(self).wf(),
            final(self).tile_written(
                *old(self),
                id.idx(),
                old(self).data(id.idx()).update(offset as int, value),
            ),
    {
        proof {
            use_type_invariant(&*self);
        }
        let t = id.index();
        set_tile_byte_in(&mut self.tiles, t, offset, value);
    }

    /// `TILERELEASE`: drop the tile file, so every tile becomes unconfigured (`(0, 0)`, no
    /// bytes), clear every block-scale register, and bump the release ledger if one is
    /// attached. A guard already released is left as it is.
    fn release(&mut self)
        ensures
            final(self).is_released(),
            final(self).config_view() == old(self).config_view(),
            final(self).ledger() == old(self).ledger(),
            final(self).bumps() == old(self).bumps() + (if !old(self).is_released()
                && old(self).ledger() is Some {
                1nat
            } else {
                0nat
            }),
            old(self).is_released() ==> *final(self) == *old(self),
            forall|t: int|
                0 <= t < MAX_TILES ==> {
                    &&& #[trigger] final(self).rows_of(t) == 0
                    &&& final(self).colsb_of(t) == 0
                    &&& final(self).data(t) == Seq::<u8>::empty()
                },
            !old(self).is_released() ==> forall|r: int|
                0 <= r < NUM_BSR ==> #[trigger] final(self).scales_of(r) == seq![0u8, 0u8, 0u8, 0u8],
        opens_invariants none
        no_unwind
    {
        proof {
            use_type_invariant(&*self);
        }
        match self.tiles {
            None => {
                return;
            },
            Some(_) => {},
        }
        self.tiles = None;
        self.bsr = cleared_bsr_file();
        match &self.release_ledger {
            Some(ledger) => {
                bump_ledger(ledger);
                self.ledger_bumps = self.ledger_bumps + 1;
            },
            None => {},
        }
    }
}

/// `LDTILECFG`: validate a palette-2 descriptor and return the configured guard with zeroed
/// tiles and block-scale registers, or the first violation with no guard established.
pub fn _tile_loadconfig(config: &TileConfig) -> (r: Result<TileScope, TileConfigError>)
    ensures
        match r {
            Ok(scope) => config.check() is Ok && scope.fresh_from(*config),
            Err(e) => config.check() == Err::<(), TileConfigError>(e),
        },
{
    _tile_loadconfig_scalar(config)
}

/// Portable `LDTILECFG`.
pub fn _tile_loadconfig_scalar(config: &TileConfig) -> (r: Result<TileScope, TileConfigError>)
    ensures
        match r {
            Ok(scope) => config.check() is Ok && scope.fresh_from(*config),
            Err(e) => config.check() == Err::<(), TileConfigError>(e),
        },
{
    match config.validate() {
        Err(e) => {
            return Err(e);
        },
        Ok(()) => {},
    }
    let mut tiles: Vec<Tile> = Vec::new();
    let mut t: usize = 0;
    while t < MAX_TILES
        invariant
            t <= MAX_TILES,
            tiles@.len() == t,
            config.check() is Ok,
            forall|u: int|
                0 <= u < t ==> {
                    &&& (#[trigger] tiles@[u]).rows == config.rows[u]
                    &&& tiles@[u].colsb == config.colsb[u]
                    &&& tiles@[u].bytes@ == Seq::new(
                        (config.rows[u] * config.colsb[u]) as nat,
                        |i: int| 0u8,
                    )
                },
        decreases MAX_TILES - t,
    {
        proof {
            if config.rows[t as int] > 16 {
                assert(config.rows_over());
            }
            if config.colsb[t as int] > 64 {
                assert(config.colsb_over());
            }
        }
        tiles.push(Tile::new(config.rows[t], config.colsb[t]));
        t = t + 1;
    }
    let scope = TileScope {
        config: *config,
        tiles: Some(tiles),
        bsr: cleared_bsr_file(),
        release_ledger: None,
        ledger_bumps: 0,
    };
    assert(scope.wf());
    Ok(scope)
}

/// `STTILECFG`: the descriptor the guard loaded.
pub fn _tile_storeconfig(scope: &TileScope) -> (r: TileConfig)
    ensures
        r == scope.config_view(),
{
    _tile_storeconfig_scalar(scope)
}

/// Portable `STTILECFG`.
pub fn _tile_storeconfig_scalar(scope: &TileScope) -> (r: TileConfig)
    ensures
        r == scope.config_view(),
{
    scope.config
}

/// `TILEZERO`: clear the addressed tile to all-zero bytes; every other tile and every
/// block-scale register is unchanged.
pub fn _tile_zero(scope: &mut TileScope, dst: TileId)
    ensures
        final(scope).wf(),
        final(scope).tile_written(
            *old(scope),
            dst.idx(),
            Seq::new(old(scope).data(dst.idx()).len(), |i: int| 0u8),
        ),
{
    _tile_zero_scalar(scope, dst);
}

/// Portable `TILEZERO`.
pub fn _tile_zero_scalar(scope: &mut TileScope, dst: TileId)
    ensures
        final(scope).wf(),
        final(scope).tile_written(
            *old(scope),
            dst.idx(),
            Seq::new(old(scope).data(dst.idx()).len(), |i: int| 0u8),
        ),
{
    proof {
        use_type_invariant(&*scope);
    }
    let t = dst.index();
    let n = scope.tile_bytes(dst).len();
    proof {
        scope.lemma_wf_shape();
        assert(Seq::new(0nat, |i: int| 0u8) + old(scope).data(dst.idx()).subrange(0, n as int)
            =~= old(scope).data(dst.idx()));
    }
    let mut j: usize = 0;
    while j < n
        invariant
            j <= n,
            n == old(scope).data(dst.idx()).len(),
            scope.wf(),
            scope.tile_written(
                *old(scope),
                dst.idx(),
                Seq::new(j as nat, |i: int| 0u8) + old(scope).data(dst.idx()).subrange(j as int, n as int),
            ),
        decreases n - j,
    {
        scope.write_tile_byte(dst, j, 0u8);
        assert(Seq::new((j + 1) as nat, |i: int| 0u8) + old(scope).data(dst.idx()).subrange(j + 1, n as int)
            =~= (Seq::new(j as nat, |i: int| 0u8) + old(scope).data(dst.idx()).subrange(j as int, n as int)).update(j as int, 0u8));
        j = j + 1;
    }
    assert(Seq::new(j as nat, |i: int| 0u8) + old(scope).data(dst.idx()).subrange(j as int, n as int) =~= Seq::new(n as nat, |i: int| 0u8));
}

/// Serialize a palette-2 descriptor into the 64-byte `LDTILECFG` memory layout: byte 0 is the
/// palette id, `colsb[t]` is the little-endian `u16` at offset `16 + 2 * t`, `rows[t]` is the
/// byte at offset `48 + t`, and every other byte is zero.
pub fn encode_tilecfg(palette: u8, rows: &[u8; 8], colsb: &[u16; 8]) -> (r: [u8; 64])
    ensures
        r@[0] == palette,
        forall|t: int| 0 <= t < 8 ==> #[trigger] r@[16 + 2 * t] == colsb[t] % 256,
        forall|t: int| 0 <= t < 8 ==> #[trigger] r@[17 + 2 * t] == colsb[t] / 256,
        forall|t: int| 0 <= t < 8 ==> #[trigger] r@[48 + t] == rows[t],
        forall|i: int|
            0 <= i < 64 && i != 0 && !(16 <= i < 32) && !(48 <= i < 56) ==> #[trigger] r@[i] == 0,
{
    let mut cfg = [0u8; 64];
    cfg[0] = palette;
    let mut t: usize = 0;
    while t < 8
        invariant
            t <= 8,
            cfg@.len() == 64,
            cfg@[0] == palette,
            forall|u: int| 0 <= u < t ==> #[trigger] cfg@[16 + 2 * u] == colsb[u] % 256,
            forall|u: int| 0 <= u < t ==> #[trigger] cfg@[17 + 2 * u] == colsb[u] / 256,
            forall|u: int| 0 <= u < t ==> #[trigger] cfg@[48 + u] == rows[u],
            forall|i: int|
                0 <= i < 64 && i != 0 && !(16 <= i < 16 + 2 * t) && !(48 <= i < 48 + t)
                    ==> #[trigger] cfg@[i] == 0,
        decreases 8 - t,
    {
        let c = colsb[t];
        proof {
            assert(((c & 0xff) as u8) == c % 256 && ((c >> 8) as u8) == c / 256) by (bit_vector);
        }
        let lo = (c & 0xff) as u8;
        let hi = (c >> 8) as u8;
        let ghost before = cfg@;
        cfg[16 + 2 * t] = lo;
        cfg[16 + 2 * t + 1] = hi;
        cfg[48 + t] = rows[t];
        proof {
            let after = before.update(16 + 2 * t, lo).update(17 + 2 * t, hi).update(48 + t, rows[t as int]);
            assert(cfg@ == after);
            assert forall|u: int| 0 <= u < t + 1 implies #[trigger] cfg@[16 + 2 * u] == colsb[u] % 256 by {
                if u < t {
                    assert(before[16 + 2 * u] == colsb[u] % 256);
                }
            }
            assert forall|u: int| 0 <= u < t + 1 implies #[trigger] cfg@[17 + 2 * u] == colsb[u] / 256 by {
                if u < t {
                    assert(before[17 + 2 * u] == colsb[u] / 256);
                }
            }
            assert forall|u: int| 0 <= u < t + 1 implies #[trigger] cfg@[48 + u] == rows[u] by {
                if u < t {
                    assert(before[48 + u] == rows[u]);
                }
            }
            assert forall|i: int|
                0 <= i < 64 && i != 0 && !(16 <= i < 16 + 2 * (t + 1)) && !(48 <= i < 48 + (t + 1))
                    implies #[trigger] cfg@[i] == 0 by {
                assert(before[i] == 0);
            }
        }
        t = t + 1;
    }
    cfg
}

/// `next` is `prev` after one tile, block-scale or ledger operation: a tile rewritten, a
/// block-scale register rewritten, or the tiles and registers left as they were.
pub open spec fn op_step(next: TileScope, prev: TileScope) -> bool {
    ||| next.same_tiles(prev) && next.same_bsr(prev)
    ||| exists|t: int, d: Seq<u8>| #[trigger] next.tile_written(prev, t, d)
    ||| exists|r: int, s: Seq<u8>| #[trigger] next.bsr_written(prev, r, s)
}

/// `STTILECFG` gives back the descriptor `LDTILECFG` loaded after any sequence of tile,
/// block-scale and ledger operations: `trace[0]` is the freshly loaded guard and each later
/// state is one operation on the one before.
pub proof fn lemma_storeconfig_after_any_ops(trace: Seq<TileScope>, config: TileConfig)
    requires
        trace.len() >= 1,
        trace[0].fresh_from(config),
        forall|i: int| 0 <= i < trace.len() - 1 ==> #[trigger] op_step(trace[i + 1], trace[i]),
    ensures
        trace.last().config_view() == config,
    decreases trace.len(),
{
    if trace.len() > 1 {
        let prefix = trace.drop_last();
        assert forall|i: int| 0 <= i < prefix.len() - 1 implies #[trigger] op_step(
            prefix[i + 1],
            prefix[i],
        ) by {
            assert(op_step(trace[i + 1], trace[i]));
        }
        lemma_storeconfig_after_any_ops(prefix, config);
        let i = trace.len() - 2;
        assert(op_step(trace[i + 1], trace[i]));
        assert(prefix.last() == trace[i]);
    }
}

impl Drop for TileScope {
    /// `TILERELEASE` on scope exit, including a panic unwind: the guard ends released, and the
    /// release ledger is bumped exactly when the guard was live with a ledger attached.
    fn drop(&mut self)
        ensures
            final(self).is_released(),
            final(self).bumps() == old(self).bumps() + (if !old(self).is_released()
                && old(self).ledger() is Some {
                1nat
            } else {
                0nat
            }),
        opens_invariants none
        no_unwind
    {
        self.release();
    }
}

/// `LDTILECFG` accepts exactly the palette-2 descriptors within the palette-2 limits: a
/// descriptor is accepted only if its palette id is 2, every `rows` entry is at most 16 and
/// every `colsb` entry at most 64; any other palette id is refused as an invalid palette.
pub proof fn lemma_loadconfig_accepts_only_palette_2(config: TileConfig)
    ensures
        config.check() is Ok <==> {
            &&& config.palette_id == 2
            &&& forall|t: int| 0 <= t < MAX_TILES ==> #[trigger] config.rows[t] <= 16
            &&& forall|t: int| 0 <= t < MAX_TILES ==> #[trigger] config.colsb[t] <= 64
        },
        config.palette_id != 2 ==> config.check() == Err::<(), TileConfigError>(
            TileConfigError::InvalidPalette,
        ),
{
}

} // verus!
