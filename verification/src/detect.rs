//! Capability decisions over a CPUID / XCR0 snapshot.
//!
//! The host is probed once into a [`CpuidSnapshot`] (the raw CPUID leaves and the XCR0 value);
//! every capability check is then a pure function of that snapshot.
//!
//! * `AVX10_V1_AUX` / `AVX10_V2_AUX`: the AVX10 leaf must be present, `CR4.OSXSAVE` set, the
//!   AVX-512 vector state enabled in XCR0 and AVX10 supported; then the layered check
//!   `(AVX10.1 AND AVX10_V1_AUX) OR AVX10.2`, and for V2 also the `AVX10_V2_AUX` bit.
//! * AMX-TILE: `CR4.OSXSAVE` with the vector plus tile and block-scale state in XCR0, and
//!   `CPUID.(7,0):EDX[24]`.
//! * AMX-AVX512 (the tile-row convert and row-read gate): the AVX10 base probe, the tile
//!   state, and `CPUID.(7,1):EDX[21]` or `ACE_VSN >= 1`.
//! * Full ACE: the AVX10 base probe, AMX-TILE, `CPUID.(7,1):ECX[11]` and `ACE_VSN >= 1`.
use vstd::prelude::*;

verus! {

/// XCR0 state bits the vector converts need: SSE (1), AVX (2), opmask (5), `ZMM_Hi256` (6),
/// `Hi16_ZMM` (7).
pub const XCR0_VECTOR_STATE: u64 = 0xE6;

/// XCR0 state bits every native tile path needs: the vector state plus tile config (17), tile
/// data (18) and the block-scale registers (20).
pub const XCR0_TILE_STATE: u64 = 0x16_00E6;

/// The CPUID leaves and XCR0 value the capability checks read. A leaf the processor does not
/// report is recorded as zero.
#[derive(Clone, Copy, Debug, Default, PartialEq, Eq)]
pub struct CpuidSnapshot {
    /// `CPUID.0:EAX`, the highest standard leaf.
    pub max_leaf: u32,
    /// `CPUID.1:ECX` (bit 27 is `OSXSAVE`).
    pub leaf1_ecx: u32,
    /// `XCR0` (read by `XGETBV` when `OSXSAVE` is set, zero otherwise).
    pub xcr0: u64,
    /// `CPUID.(7,0):EDX` (bit 24 is AMX-TILE).
    pub leaf7_0_edx: u32,
    /// `CPUID.(7,1):ECX` (bit 11 is ACE).
    pub leaf7_1_ecx: u32,
    /// `CPUID.(7,1):EDX` (bit 21 is AMX-AVX512).
    pub leaf7_1_edx: u32,
    /// `CPUID.(1DH,2):EAX` (bits 7:0 are `ACE_VSN`).
    pub leaf1d_2_eax: u32,
    /// `CPUID.(24H,0):EBX` (bit 16: AVX10 supported; bits 7:0: AVX10 version).
    pub leaf24_0_ebx: u32,
    /// `CPUID.(24H,1):ECX` (bit 2: `AVX10_V1_AUX`; bit 3: `AVX10_V2_AUX`).
    pub leaf24_1_ecx: u32,
}

/// Bit `n` of `x` is set.
pub open spec fn bit(x: u32, n: u32) -> bool {
    (x >> n) & 1 == 1
}

/// `x` has every bit of `mask` set.
pub open spec fn has_all(x: u64, mask: u64) -> bool {
    x & mask == mask
}

/// The AVX10 version the snapshot reports.
pub open spec fn avx10_version(cpu: CpuidSnapshot) -> u32 {
    cpu.leaf24_0_ebx & 0xff
}

/// The shared AVX10 probe passes: the AVX10 leaf is reported, `OSXSAVE` is set, XCR0 enables
/// the vector state and AVX10 is supported.
pub open spec fn avx10_base_ok(cpu: CpuidSnapshot) -> bool {
    &&& cpu.max_leaf >= 0x24
    &&& bit(cpu.leaf1_ecx, 27)
    &&& has_all(cpu.xcr0, XCR0_VECTOR_STATE)
    &&& bit(cpu.leaf24_0_ebx, 16)
}

/// The layered base ISA check: `(AVX10.1 AND AVX10_V1_AUX) OR AVX10.2`.
pub open spec fn avx10_layered(cpu: CpuidSnapshot) -> bool {
    (avx10_version(cpu) >= 1 && bit(cpu.leaf24_1_ecx, 2)) || avx10_version(cpu) >= 2
}

/// `OSXSAVE` is set and XCR0 enables the full tile state.
pub open spec fn tile_state_ok(cpu: CpuidSnapshot) -> bool {
    bit(cpu.leaf1_ecx, 27) && has_all(cpu.xcr0, XCR0_TILE_STATE)
}

/// `ACE_VSN`, or zero when leaf `1DH` is not reported.
pub open spec fn ace_vsn_of(cpu: CpuidSnapshot) -> u32 {
    if cpu.max_leaf < 0x1d {
        0
    } else {
        cpu.leaf1d_2_eax & 0xff
    }
}

/// AMX-TILE with the tile state enabled.
pub open spec fn amx_tile(cpu: CpuidSnapshot) -> bool {
    tile_state_ok(cpu) && bit(cpu.leaf7_0_edx, 24)
}

/// The AMX-AVX512 / ACE v1 gate of the tile-row converts and the row read.
pub open spec fn amx_avx512(cpu: CpuidSnapshot) -> bool {
    &&& avx10_base_ok(cpu)
    &&& tile_state_ok(cpu)
    &&& (bit(cpu.leaf7_1_edx, 21) || ace_vsn_of(cpu) >= 1)
}

/// Full ACE v1: the AVX10 probe passes, AMX-TILE, the ACE bit and `ACE_VSN >= 1`.
pub open spec fn ace(cpu: CpuidSnapshot) -> bool {
    avx10_base_ok(cpu) && amx_tile(cpu) && bit(cpu.leaf7_1_ecx, 11) && ace_vsn_of(cpu) >= 1
}

/// Bit `n` of `x`.
fn test_bit(x: u32, n: u32) -> (r: bool)
    requires
        n < 32,
    ensures
        r == bit(x, n),
{
    (x >> n) & 1 == 1
}

/// The shared AVX10 probe: `(AVX10.1, AVX10.2, CPUID.(24H,1):ECX)` when it passes, else `None`.
fn avx10_base(cpu: &CpuidSnapshot) -> (r: Option<(bool, bool, u32)>)
    ensures
        r is Some <==> avx10_base_ok(*cpu),
        r is Some ==> r->0 == (avx10_version(*cpu) >= 1, avx10_version(*cpu) >= 2, cpu.leaf24_1_ecx),
{
    if cpu.max_leaf < 0x24 {
        return None;
    }
    if !test_bit(cpu.leaf1_ecx, 27) {
        return None;
    }
    if cpu.xcr0 & XCR0_VECTOR_STATE != XCR0_VECTOR_STATE {
        return None;
    }
    if !test_bit(cpu.leaf24_0_ebx, 16) {
        return None;
    }
    let version = cpu.leaf24_0_ebx & 0xff;
    Some((version >= 1, version >= 2, cpu.leaf24_1_ecx))
}

/// `AVX10_V1_AUX` is usable: the AVX10 probe passes and `(AVX10.1 AND AVX10_V1_AUX) OR AVX10.2`.
pub fn has_avx10_v1_aux(cpu: &CpuidSnapshot) -> (r: bool)
    ensures
        r == (avx10_base_ok(*cpu) && avx10_layered(*cpu)),
{
    match avx10_base(cpu) {
        None => false,
        Some((avx10_1, avx10_2, aux)) => {
            let v1_aux = test_bit(aux, 2);
            (avx10_1 && v1_aux) || avx10_2
        },
    }
}

/// `AVX10_V2_AUX` is usable: the layered base check holds and the `AVX10_V2_AUX` bit is set.
pub fn has_avx10_v2_aux(cpu: &CpuidSnapshot) -> (r: bool)
    ensures
        r == (avx10_base_ok(*cpu) && avx10_layered(*cpu) && bit(cpu.leaf24_1_ecx, 3)),
{
    match avx10_base(cpu) {
        None => false,
        Some((avx10_1, avx10_2, aux)) => {
            let v1_aux = test_bit(aux, 2);
            let v2_aux = test_bit(aux, 3);
            ((avx10_1 && v1_aux) || avx10_2) && v2_aux
        },
    }
}

/// `OSXSAVE` is set and XCR0 enables the vector, tile and block-scale state.
pub fn xcr0_tile_state_enabled(cpu: &CpuidSnapshot) -> (r: bool)
    ensures
        r == tile_state_ok(*cpu),
{
    if !test_bit(cpu.leaf1_ecx, 27) {
        return false;
    }
    cpu.xcr0 & XCR0_TILE_STATE == XCR0_TILE_STATE
}

/// `ACE_VSN` from `CPUID.(1DH,2):EAX[7:0]`, or zero when that leaf is not reported.
pub fn ace_vsn(cpu: &CpuidSnapshot) -> (r: u32)
    ensures
        r == ace_vsn_of(*cpu),
{
    if cpu.max_leaf < 0x1d {
        return 0;
    }
    cpu.leaf1d_2_eax & 0xff
}

/// AMX-TILE is usable: the tile state is enabled and `CPUID.(7,0):EDX[24]` is set.
pub fn has_amx_tile(cpu: &CpuidSnapshot) -> (r: bool)
    ensures
        r == amx_tile(*cpu),
{
    if !xcr0_tile_state_enabled(cpu) {
        return false;
    }
    test_bit(cpu.leaf7_0_edx, 24)
}

/// The tile-row convert gate: the AVX10 probe passes, the tile state is enabled, and
/// AMX-AVX512 (`CPUID.(7,1):EDX[21]`) or `ACE_VSN >= 1`.
pub fn has_amx_avx512(cpu: &CpuidSnapshot) -> (r: bool)
    ensures
        r == amx_avx512(*cpu),
{
    if avx10_base(cpu).is_none() || !xcr0_tile_state_enabled(cpu) {
        return false;
    }
    let amx_avx512_bit = test_bit(cpu.leaf7_1_edx, 21);
    amx_avx512_bit || ace_vsn(cpu) >= 1
}

/// Full ACE v1: the AVX10 probe passes, AMX-TILE, the ACE bit `CPUID.(7,1):ECX[11]` and
/// `ACE_VSN >= 1`.
pub fn has_ace(cpu: &CpuidSnapshot) -> (r: bool)
    ensures
        r == ace(*cpu),
{
    if avx10_base(cpu).is_none() || !has_amx_tile(cpu) {
        return false;
    }
    let ace_bit = test_bit(cpu.leaf7_1_ecx, 11);
    ace_bit && ace_vsn(cpu) >= 1
}

/// The tile state mask is the vector state mask plus exactly bits 17, 18 and 20.
pub proof fn lemma_tile_state_extends_vector_state()
    ensures
        XCR0_TILE_STATE & XCR0_VECTOR_STATE == XCR0_VECTOR_STATE,
        XCR0_TILE_STATE == XCR0_VECTOR_STATE | (1u64 << 20u64) | (1u64 << 18u64) | (1u64 << 17u64),
        XCR0_VECTOR_STATE & ((1u64 << 20u64) | (1u64 << 18u64) | (1u64 << 17u64)) == 0,
{
    assert(0x16_00E6u64 & 0xE6u64 == 0xE6u64) by (bit_vector);
    assert(0x16_00E6u64 == 0xE6u64 | (1u64 << 20u64) | (1u64 << 18u64) | (1u64 << 17u64))
        by (bit_vector);
    assert(0xE6u64 & ((1u64 << 20u64) | (1u64 << 18u64) | (1u64 << 17u64)) == 0) by (bit_vector);
}

/// Full ACE refines the narrower gates: it implies AMX-TILE and the tile-row convert gate.
pub proof fn lemma_ace_refines_gates(cpu: CpuidSnapshot)
    ensures
        ace(cpu) ==> amx_tile(cpu),
        ace(cpu) ==> amx_avx512(cpu),
{
}

/// An enabled tile state includes the vector state.
pub proof fn lemma_tile_state_has_vector_state(cpu: CpuidSnapshot)
    ensures
        tile_state_ok(cpu) ==> has_all(cpu.xcr0, XCR0_VECTOR_STATE),
{
    lemma_xcr0_tile_bits(cpu.xcr0);
}

/// The bits an XCR0 value with every tile-state bit set carries.
proof fn lemma_xcr0_tile_bits(x: u64)
    ensures
        x & 0x16_00E6u64 == 0x16_00E6u64 ==> {
            &&& x & 0xE6u64 == 0xE6u64
            &&& (x >> 17u64) & 1 == 1
            &&& (x >> 18u64) & 1 == 1
            &&& (x >> 20u64) & 1 == 1
        },
{
    assert(x & 0x16_00E6u64 == 0x16_00E6u64 ==> x & 0xE6u64 == 0xE6u64 && (x >> 17u64) & 1 == 1
        && (x >> 18u64) & 1 == 1 && (x >> 20u64) & 1 == 1) by (bit_vector);
}

/// The AVX10 gates hold only where the OS has enabled the vector state: `OSXSAVE`
/// (`CPUID.1:ECX[27]`) is set and XCR0 has the SSE, AVX, opmask, `ZMM_Hi256` and `Hi16_ZMM`
/// bits (`0xE6`). Clearing any of them closes both gates.
pub proof fn lemma_avx10_gates_need_vector_state(cpu: CpuidSnapshot)
    ensures
        avx10_base_ok(cpu) && avx10_layered(cpu) ==> {
            &&& (cpu.leaf1_ecx >> 27u32) & 1 == 1
            &&& cpu.xcr0 & 0xE6u64 == 0xE6u64
            &&& cpu.max_leaf >= 0x24
        },
        avx10_base_ok(cpu) && avx10_layered(cpu) && bit(cpu.leaf24_1_ecx, 3) ==> {
            &&& (cpu.leaf1_ecx >> 27u32) & 1 == 1
            &&& cpu.xcr0 & 0xE6u64 == 0xE6u64
        },
        cpu.xcr0 & 0xE6u64 != 0xE6u64 ==> !avx10_base_ok(cpu),
{
}

/// Every tile gate (AMX-TILE, the tile-row convert gate and full ACE) holds only where the OS
/// has enabled the vector state and the tile state: XCR0 has `0xE6` and bits 17 (tile config),
/// 18 (tile data) and 20 (block-scale registers). Clearing any of them closes every tile gate.
pub proof fn lemma_tile_gates_need_tile_state(cpu: CpuidSnapshot)
    ensures
        tile_state_ok(cpu) || amx_tile(cpu) || amx_avx512(cpu) || ace(cpu) ==> {
            &&& (cpu.leaf1_ecx >> 27u32) & 1 == 1
            &&& cpu.xcr0 & 0xE6u64 == 0xE6u64
            &&& (cpu.xcr0 >> 17u64) & 1 == 1
            &&& (cpu.xcr0 >> 18u64) & 1 == 1
            &&& (cpu.xcr0 >> 20u64) & 1 == 1
        },
{
    lemma_xcr0_tile_bits(cpu.xcr0);
}

} // verus!
