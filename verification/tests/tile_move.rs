//! Tile row / column move vectors.
use ace::detect::{has_ace, has_amx_avx512, CpuidSnapshot};
use ace::tile::{_tile_loadconfig, TileConfig, TileScope};
use ace::tile_move::{_tile_movcol, _tile_movcol_write, _tile_movrow, _tile_movrow_write, ZMM_BYTES};

fn config_3x4() -> TileConfig {
    TileConfig {
        palette_id: 2,
        rows: [3, 0, 0, 0, 0, 0, 0, 0],
        colsb: [4, 0, 0, 0, 0, 0, 0, 0],
    }
}

fn seeded_3x4() -> TileScope {
    let mut scope = _tile_loadconfig(&config_3x4()).unwrap();
    let t0 = scope.tile(0).unwrap();
    let (rows, colsb) = scope.tile_shape(t0);
    for r in 0..rows as usize {
        for c in 0..colsb as usize {
            scope
                .set_tile_byte(t0, r * colsb as usize + c, 0x10 * (r as u8 + 1) + c as u8)
                .unwrap();
        }
    }
    scope
}

#[test]
fn movrow_moves_correct_row() {
    let scope = seeded_3x4();
    let t0 = scope.tile(0).unwrap();

    let mut expected = [0u8; ZMM_BYTES];
    expected[..4].copy_from_slice(&[0x20, 0x21, 0x22, 0x23]);
    assert_eq!(_tile_movrow(&scope, t0, 1), Some(expected));

    let mut col1 = [0u8; ZMM_BYTES];
    col1[..3].copy_from_slice(&[0x11, 0x21, 0x31]);
    assert_ne!(_tile_movrow(&scope, t0, 1), Some(col1));
}

#[test]
fn movcol_moves_correct_column() {
    let scope = seeded_3x4();
    let t0 = scope.tile(0).unwrap();

    let mut expected = [0u8; ZMM_BYTES];
    expected[..3].copy_from_slice(&[0x12, 0x22, 0x32]);
    assert_eq!(_tile_movcol(&scope, t0, 2), Some(expected));

    let mut row2 = [0u8; ZMM_BYTES];
    row2[..4].copy_from_slice(&[0x30, 0x31, 0x32, 0x33]);
    assert_ne!(_tile_movcol(&scope, t0, 2), Some(row2));
}

#[test]
fn movrow_read_back_round_trip() {
    let mut scope = seeded_3x4();
    let t0 = scope.tile(0).unwrap();

    let saved_row1 = _tile_movrow(&scope, t0, 1).unwrap();
    let saved_row0 = _tile_movrow(&scope, t0, 0).unwrap();
    let saved_row2 = _tile_movrow(&scope, t0, 2).unwrap();

    let mut scratch = [0u8; ZMM_BYTES];
    scratch[..4].copy_from_slice(&[0xAA, 0xBB, 0xCC, 0xDD]);
    _tile_movrow_write(&mut scope, t0, 1, scratch).unwrap();
    assert_eq!(_tile_movrow(&scope, t0, 1), Some(scratch));

    _tile_movrow_write(&mut scope, t0, 1, saved_row1).unwrap();

    assert_eq!(_tile_movrow(&scope, t0, 1), Some(saved_row1));
    assert_eq!(_tile_movrow(&scope, t0, 0), Some(saved_row0));
    assert_eq!(_tile_movrow(&scope, t0, 2), Some(saved_row2));
}

#[test]
fn move_known_value_pins() {
    let mut scope = seeded_3x4();
    let t0 = scope.tile(0).unwrap();

    let mut row0 = [0u8; ZMM_BYTES];
    row0[..4].copy_from_slice(&[0x10, 0x11, 0x12, 0x13]);
    assert_eq!(_tile_movrow(&scope, t0, 0), Some(row0));

    let mut col0 = [0u8; ZMM_BYTES];
    col0[..3].copy_from_slice(&[0x10, 0x20, 0x30]);
    assert_eq!(_tile_movcol(&scope, t0, 0), Some(col0));

    let mut newcol = [0u8; ZMM_BYTES];
    newcol[..3].copy_from_slice(&[0x01, 0x02, 0x03]);
    _tile_movcol_write(&mut scope, t0, 3, newcol).unwrap();
    assert_eq!(_tile_movcol(&scope, t0, 3), Some(newcol));
    let mut col2 = [0u8; ZMM_BYTES];
    col2[..3].copy_from_slice(&[0x12, 0x22, 0x32]);
    assert_eq!(_tile_movcol(&scope, t0, 2), Some(col2));
}

#[test]
fn out_of_range_index_rejected_no_state_change() {
    let mut scope = seeded_3x4();
    let t0 = scope.tile(0).unwrap();

    assert_eq!(_tile_movrow(&scope, t0, 3), None);
    assert_eq!(_tile_movcol(&scope, t0, 4), None);

    let before: Vec<_> = (0..3)
        .map(|r| _tile_movrow(&scope, t0, r).unwrap())
        .collect();
    assert_eq!(
        _tile_movrow_write(&mut scope, t0, 3, [0xFF; ZMM_BYTES]),
        None
    );
    assert_eq!(
        _tile_movcol_write(&mut scope, t0, 4, [0xFF; ZMM_BYTES]),
        None
    );
    let after: Vec<_> = (0..3)
        .map(|r| _tile_movrow(&scope, t0, r).unwrap())
        .collect();
    assert_eq!(before, after, "rejected writes leave tile state unchanged");
}

#[test]
fn end_to_end_move_and_gates() {
    let mut scope = seeded_3x4();
    let t0 = scope.tile(0).unwrap();

    let col0 = _tile_movcol(&scope, t0, 0).unwrap();
    _tile_movcol_write(&mut scope, t0, 3, col0).unwrap();
    let col3 = _tile_movcol(&scope, t0, 3).unwrap();
    let round_trips = col0 == col3;

    println!(
        "E2E movcol_read={:?} movcol_write_round_trip={round_trips}",
        &col0[..3],
    );
    println!(
        "E2E detect has_amx_avx512={} has_ace={}",
        has_amx_avx512(&CpuidSnapshot::default()),
        has_ace(&CpuidSnapshot::default()),
    );
    assert!(
        round_trips,
        "column written then read back matches the source"
    );
}
