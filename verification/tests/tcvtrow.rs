//! Tile-row convert vectors. The `INT32 -> FP32` convert returns FP32 bit patterns; the
//! helper below views them as `f32`.
use ace::detect::{has_ace, has_amx_avx512, CpuidSnapshot};
use ace::tcvtrow::{
    _tile_tcvtrowd2ps as d2ps_bits, _tile_tcvtrowps2bf16h, _tile_tcvtrowps2bf16l,
    _tile_tcvtrowps2phh, _tile_tcvtrowps2phl, ROW_FP32_LANES, ZMM_WORD_LANES,
};
use ace::tile::{_tile_loadconfig, TileConfig, TileId, TileScope};

fn _tile_tcvtrowd2ps(scope: &TileScope, src: TileId, row: usize) -> Option<[f32; ROW_FP32_LANES]> {
    d2ps_bits(scope, src, row).map(|w| w.map(f32::from_bits))
}

fn seeded_row(dwords: &[u32]) -> TileScope {
    let cfg = TileConfig {
        palette_id: 2,
        rows: [1, 0, 0, 0, 0, 0, 0, 0],
        colsb: [64, 0, 0, 0, 0, 0, 0, 0],
    };
    let mut scope = _tile_loadconfig(&cfg).unwrap();
    let t0 = scope.tile(0).unwrap();
    for (i, &d) in dwords.iter().enumerate() {
        for (k, byte) in d.to_le_bytes().into_iter().enumerate() {
            scope.set_tile_byte(t0, i * 4 + k, byte).unwrap();
        }
    }
    scope
}

#[test]
fn d2ps_int32_to_fp32() {
    let scope = seeded_row(&[
        0,
        1i32 as u32,
        (-3i32) as u32,
        16_777_217i32 as u32,
    ]);
    let t0 = scope.tile(0).unwrap();

    let out = _tile_tcvtrowd2ps(&scope, t0, 0).expect("row 0 is configured");
    assert_eq!(out[0], 0.0);
    assert_eq!(out[1], 1.0);
    assert_eq!(out[2], -3.0, "row element is INT32 (signed), not UINT32");
    assert_eq!(
        out[3], 16_777_216.0,
        "2^24+1 rounds to even (16_777_216.0) under IEEE-754 RNE"
    );
    assert!(
        out[4..].iter().all(|&f| f == 0.0),
        "unused lanes zero-extend"
    );

    assert_eq!(_tile_tcvtrowd2ps(&scope, t0, 1), None);
}

#[test]
fn ps2bf16_high_low_halves() {
    let v0 = 0x3F80_0000u32;
    let v1 = 0x4049_8001u32;
    let scope = seeded_row(&[v0, v1]);
    let t0 = scope.tile(0).unwrap();

    let h = _tile_tcvtrowps2bf16h(&scope, t0, 0).unwrap();
    let l = _tile_tcvtrowps2bf16l(&scope, t0, 0).unwrap();

    assert_eq!(h[1], 0x3F80);
    assert_eq!(h[0], 0);
    assert_eq!(h[3], 0x404A, "RNE rounds up (truncation would give 0x4049)");
    assert_eq!(h[2], 0);

    assert_eq!(l[0], 0x3F80);
    assert_eq!(l[1], 0);
    assert_eq!(l[2], 0x404A);
    assert_eq!(l[3], 0);
}

#[test]
fn ps2ph_high_low_halves() {
    let v0 = 1.0f32.to_bits();
    let v1 = (-2.0f32).to_bits();
    let scope = seeded_row(&[v0, v1]);
    let t0 = scope.tile(0).unwrap();

    let h = _tile_tcvtrowps2phh(&scope, t0, 0).unwrap();
    let l = _tile_tcvtrowps2phl(&scope, t0, 0).unwrap();

    assert_eq!(h[1], 0x3C00);
    assert_eq!(h[0], 0);
    assert_eq!(h[3], 0xC000);
    assert_eq!(h[2], 0);

    assert_eq!(l[0], 0x3C00);
    assert_eq!(l[1], 0);
    assert_eq!(l[2], 0xC000);
    assert_eq!(l[3], 0);
}

#[test]
fn h_l_disjoint_halves() {
    let dwords: [u32; ROW_FP32_LANES] = core::array::from_fn(|i| (i as f32 + 1.0).to_bits());
    let scope = seeded_row(&dwords);
    let t0 = scope.tile(0).unwrap();

    for (h, l) in [
        (
            _tile_tcvtrowps2bf16h(&scope, t0, 0).unwrap(),
            _tile_tcvtrowps2bf16l(&scope, t0, 0).unwrap(),
        ),
        (
            _tile_tcvtrowps2phh(&scope, t0, 0).unwrap(),
            _tile_tcvtrowps2phl(&scope, t0, 0).unwrap(),
        ),
    ] {
        for lane in 0..ZMM_WORD_LANES {
            assert!(
                !(h[lane] != 0 && l[lane] != 0),
                "lane {lane} written by both H and L"
            );
            assert_ne!(
                h[lane] | l[lane],
                0,
                "lane {lane} left unwritten by H and L"
            );
        }
        for even in (0..ZMM_WORD_LANES).step_by(2) {
            assert_eq!(h[even], 0, "H must not write even lane {even}");
            assert_eq!(l[even + 1], 0, "L must not write odd lane {}", even + 1);
        }
    }
}

#[test]
fn convert_known_value_pins() {
    let d2ps = seeded_row(&[(-3i32) as u32, 7i32 as u32]);
    let d0 = d2ps.tile(0).unwrap();
    let ps = _tile_tcvtrowd2ps(&d2ps, d0, 0).unwrap();
    assert_eq!(ps[0], -3.0);
    assert_eq!(ps[1], 7.0);

    let bf = seeded_row(&[0x4049_8001, 0x3F80_8000, 0x3F81_8000]);
    let b0 = bf.tile(0).unwrap();
    let bh = _tile_tcvtrowps2bf16h(&bf, b0, 0).unwrap();
    let bl = _tile_tcvtrowps2bf16l(&bf, b0, 0).unwrap();
    assert_eq!(bl[0], 0x404A, "RNE rounds above-half UP, not truncation");
    assert_eq!(
        bl[2], 0x3F80,
        "tie to even (even kept) rounds down, not half-away"
    );
    assert_eq!(bl[4], 0x3F82, "tie to even (odd kept) rounds up");
    assert_eq!(bh[1], 0x404A);
    assert_eq!(bh[3], 0x3F80);
    assert_eq!(bh[5], 0x3F82);
    assert_eq!(bl[1], 0, "L writes the low (even) word only");
    assert_eq!(bh[0], 0, "H writes the high (odd) word only");

    let ph = seeded_row(&[0x3F80_1000, (-2.0f32).to_bits()]);
    let p0 = ph.tile(0).unwrap();
    let phh = _tile_tcvtrowps2phh(&ph, p0, 0).unwrap();
    let phl = _tile_tcvtrowps2phl(&ph, p0, 0).unwrap();
    assert_eq!(
        phl[0], 0x3C00,
        "FP16 tie to even rounds down, not half-away (0x3C01)"
    );
    assert_eq!(phl[2], 0xC000, "-2.0 -> FP16 0xC000");
    assert_eq!(
        phh[1], 0x3C00,
        "high half carries the same encoding in the odd lane"
    );
    assert_eq!(phh[3], 0xC000);
    assert_eq!(phh[0], 0, "H leaves the even (low) word zero");
    assert_eq!(phl[1], 0, "L leaves the odd (high) word zero");
}

#[test]
fn source_tile_unchanged_and_row_bound() {
    let scope = seeded_row(&[1.0f32.to_bits(), 2.0f32.to_bits()]);
    let t0 = scope.tile(0).unwrap();
    let before = scope.tile_bytes(t0).to_vec();

    let _ = _tile_tcvtrowd2ps(&scope, t0, 0).unwrap();
    let _ = _tile_tcvtrowps2bf16h(&scope, t0, 0).unwrap();
    let _ = _tile_tcvtrowps2phl(&scope, t0, 0).unwrap();
    assert_eq!(
        scope.tile_bytes(t0),
        &before[..],
        "converts do not mutate the tile"
    );

    assert_eq!(_tile_tcvtrowd2ps(&scope, t0, 1), None);
    assert_eq!(_tile_tcvtrowps2bf16h(&scope, t0, 1), None);
    assert_eq!(_tile_tcvtrowps2bf16l(&scope, t0, 1), None);
    assert_eq!(_tile_tcvtrowps2phh(&scope, t0, 1), None);
    assert_eq!(_tile_tcvtrowps2phl(&scope, t0, 1), None);
}

#[test]
fn end_to_end_convert_and_gate() {
    let src_f32 = [1.0f32, 2.0, -4.0];
    let scope = seeded_row(&src_f32.map(f32::to_bits));
    let t0 = scope.tile(0).unwrap();

    let ps = _tile_tcvtrowd2ps(&scope, t0, 0).unwrap();
    let h = _tile_tcvtrowps2bf16h(&scope, t0, 0).unwrap();
    let l = _tile_tcvtrowps2bf16l(&scope, t0, 0).unwrap();

    let h_slot0 = h[1];
    let l_slot0 = l[0];
    println!(
        "E2E d2ps[0..3]={:?} bf16_high_slot0=0x{h_slot0:04X} bf16_low_slot0=0x{l_slot0:04X}",
        &ps[..3]
    );
    println!(
        "E2E detect has_amx_avx512={} has_ace={}",
        has_amx_avx512(&CpuidSnapshot::default()),
        has_ace(&CpuidSnapshot::default()),
    );
    let expected_d2ps: [f32; 3] = src_f32.map(|f| f.to_bits() as i32 as f32);
    assert_eq!(ps[..3], expected_d2ps);
    assert_eq!(h_slot0, 0x3F80, "1.0 -> BF16 0x3F80 in the HIGH word");
    assert_eq!(l_slot0, 0x3F80, "1.0 -> BF16 0x3F80 in the LOW word");
    assert_eq!(h[0], 0, "H leaves the low word of slot 0 zero");
    assert_eq!(l[1], 0, "L leaves the high word of slot 0 zero");
}
