//! Block-scale register vectors.
use ace::bsr::{
    _tile_bsrinit, _tile_bsrmovf, _tile_bsrmovh, _tile_bsrmovl, BSR_SCALE_BLOCKS, NUM_BSR,
};
use ace::detect::CpuidSnapshot;
use ace::tile::{_tile_loadconfig, TileConfig, TileScope};

fn scope() -> TileScope {
    let cfg = TileConfig {
        palette_id: 2,
        rows: [1, 0, 0, 0, 0, 0, 0, 0],
        colsb: [4, 0, 0, 0, 0, 0, 0, 0],
    };
    _tile_loadconfig(&cfg).unwrap()
}

#[test]
fn bsrinit_seeds_exponents() {
    let mut scope = scope();
    let b0 = scope.bsr(0).unwrap();

    for block in 0..BSR_SCALE_BLOCKS {
        assert_eq!(scope.bsr_scale(b0, block), Some(0));
    }

    let exps: [u8; BSR_SCALE_BLOCKS] = [127, 128, 1, 254];
    _tile_bsrinit(&mut scope, b0, exps);
    for (block, &want) in exps.iter().enumerate() {
        assert_eq!(
            scope.bsr_scale(b0, block),
            Some(want),
            "seeded block {block} exponent reads back"
        );
    }

    _tile_bsrinit(&mut scope, b0, exps);
    for (block, &want) in exps.iter().enumerate() {
        assert_eq!(scope.bsr_scale(b0, block), Some(want));
    }
}

#[test]
fn bsrmov_full_high_low_round_trip() {
    let mut scope = scope();
    let b0 = scope.bsr(0).unwrap();

    assert_eq!(_tile_bsrmovf(&mut scope, b0, 0, 0xA5), Some(()));
    assert_eq!(scope.bsr_scale(b0, 0), Some(0xA5));

    assert_eq!(_tile_bsrmovh(&mut scope, b0, 0, 0x0C), Some(()));
    assert_eq!(
        scope.bsr_scale(b0, 0),
        Some(0xC5),
        "high nibble -> 0xC, low nibble 0x5 preserved"
    );

    assert_eq!(_tile_bsrmovl(&mut scope, b0, 0, 0x03), Some(()));
    assert_eq!(
        scope.bsr_scale(b0, 0),
        Some(0xC3),
        "low nibble -> 0x3, high nibble 0xC preserved"
    );

    assert_eq!(_tile_bsrmovh(&mut scope, b0, 0, 0xF1), Some(()));
    assert_eq!(
        scope.bsr_scale(b0, 0),
        Some(0x13),
        "H payload masked to 0x1"
    );

    let before: Vec<_> = (0..BSR_SCALE_BLOCKS)
        .map(|b| scope.bsr_scale(b0, b))
        .collect();
    assert_eq!(_tile_bsrmovf(&mut scope, b0, BSR_SCALE_BLOCKS, 0xFF), None);
    assert_eq!(_tile_bsrmovh(&mut scope, b0, BSR_SCALE_BLOCKS, 0xF), None);
    assert_eq!(_tile_bsrmovl(&mut scope, b0, BSR_SCALE_BLOCKS, 0xF), None);
    let after: Vec<_> = (0..BSR_SCALE_BLOCKS)
        .map(|b| scope.bsr_scale(b0, b))
        .collect();
    assert_eq!(before, after, "out-of-range move mutates nothing");
}

#[test]
fn only_addressed_bsr_changes() {
    let mut scope = scope();
    let b0 = scope.bsr(0).unwrap();
    let b1 = scope.bsr(1).unwrap();

    _tile_bsrinit(&mut scope, b0, [0x11; BSR_SCALE_BLOCKS]);
    _tile_bsrinit(&mut scope, b1, [0x22; BSR_SCALE_BLOCKS]);

    _tile_bsrmovf(&mut scope, b0, 1, 0x99).unwrap();
    assert_eq!(
        scope.bsr_scale(b0, 1),
        Some(0x99),
        "addressed block changed"
    );
    for block in [0, 2, 3] {
        assert_eq!(
            scope.bsr_scale(b0, block),
            Some(0x11),
            "b0 block {block} untouched by a move to block 1"
        );
    }
    for block in 0..BSR_SCALE_BLOCKS {
        assert_eq!(
            scope.bsr_scale(b1, block),
            Some(0x22),
            "b1 block {block} untouched by writes to b0"
        );
    }
}

#[test]
fn write_read_consistency_property() {
    let mut scope = scope();

    for reg_ix in 0..NUM_BSR {
        let id = scope.bsr(reg_ix).unwrap();
        for block in 0..BSR_SCALE_BLOCKS {
            let value = ((reg_ix * BSR_SCALE_BLOCKS + block) as u8)
                .wrapping_mul(7)
                .wrapping_add(1);
            _tile_bsrmovf(&mut scope, id, block, value).unwrap();
            assert_eq!(scope.bsr_scale(id, block), Some(value));
        }
    }

    for reg_ix in 0..NUM_BSR {
        let id = scope.bsr(reg_ix).unwrap();
        for block in 0..BSR_SCALE_BLOCKS {
            let expected = ((reg_ix * BSR_SCALE_BLOCKS + block) as u8)
                .wrapping_mul(7)
                .wrapping_add(1);
            let got = scope.bsr_scale(id, block).unwrap();
            assert_eq!(
                got, expected,
                "reg {reg_ix} block {block} kept its own scale"
            );
            let neighbour = ((reg_ix * BSR_SCALE_BLOCKS + block + 1) as u8)
                .wrapping_mul(7)
                .wrapping_add(1);
            if neighbour != expected {
                assert_ne!(
                    got, neighbour,
                    "reg {reg_ix} block {block} must not read a neighbour's scale"
                );
            }
        }
    }
}

#[test]
fn known_value_pins() {
    let mut scope = scope();
    let b0 = scope.bsr(0).unwrap();

    _tile_bsrinit(&mut scope, b0, [127, 0, 255, 64]);
    assert_eq!(scope.bsr_scale(b0, 0), Some(127));
    assert_eq!(scope.bsr_scale(b0, 1), Some(0));
    assert_eq!(scope.bsr_scale(b0, 2), Some(255));
    assert_eq!(scope.bsr_scale(b0, 3), Some(64));

    _tile_bsrmovh(&mut scope, b0, 1, 0x0A).unwrap();
    assert_eq!(
        scope.bsr_scale(b0, 1),
        Some(0xA0),
        "MOVH sets bits 7:4 only (0xA0), not the whole byte (0x0A)"
    );

    _tile_bsrmovl(&mut scope, b0, 2, 0x3).unwrap();
    assert_eq!(
        scope.bsr_scale(b0, 2),
        Some(0xF3),
        "MOVL sets bits 3:0 only (0xF3), high nibble 0xF preserved"
    );
}

#[test]
fn end_to_end_bsr_seed_move_read() {
    let mut scope = scope();
    let b0 = scope.bsr(0).unwrap();

    _tile_bsrinit(&mut scope, b0, [10, 20, 30, 40]);
    _tile_bsrmovf(&mut scope, b0, 0, 0x88).unwrap();
    _tile_bsrmovh(&mut scope, b0, 1, 0x0C).unwrap();
    _tile_bsrmovl(&mut scope, b0, 2, 0x0F).unwrap();

    let readback: [u8; BSR_SCALE_BLOCKS] =
        core::array::from_fn(|b| scope.bsr_scale(b0, b).unwrap());
    println!("E2E bsr file readback = {readback:?}");
    println!("E2E detect has_ace={}", ace::detect::has_ace(&CpuidSnapshot::default()));

    assert_eq!(readback, [0x88, 0xC4, 0x1F, 40]);
    assert_eq!(scope.bsr_reg(b0).scales(), &readback);
}

#[test]
fn high_then_low_nibble_moves_equal_one_full_move_in_either_order() {
    for start in [0x00u8, 0x5A, 0xFF] {
        for (high, low) in [(0x0Cu8, 0x03u8), (0xF1, 0x2E), (0x00, 0x0F)] {
            let mut a = scope();
            let mut b = scope();
            let mut c = scope();
            let ra = a.bsr(3).unwrap();
            let rb = b.bsr(3).unwrap();
            let rc = c.bsr(3).unwrap();
            for s in [&mut a, &mut b, &mut c] {
                let id = s.bsr(3).unwrap();
                _tile_bsrmovf(s, id, 2, start).unwrap();
            }
            _tile_bsrmovh(&mut a, ra, 2, high).unwrap();
            _tile_bsrmovl(&mut a, ra, 2, low).unwrap();
            _tile_bsrmovl(&mut b, rb, 2, low).unwrap();
            _tile_bsrmovh(&mut b, rb, 2, high).unwrap();
            _tile_bsrmovf(&mut c, rc, 2, ((high & 0xF) << 4) | (low & 0xF)).unwrap();
            assert_eq!(a.bsr_scale(ra, 2), c.bsr_scale(rc, 2));
            assert_eq!(b.bsr_scale(rb, 2), c.bsr_scale(rc, 2));
        }
    }
}
