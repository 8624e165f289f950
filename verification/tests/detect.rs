//! Capability decisions over CPUID snapshots.
use ace::detect::{
    ace_vsn, has_ace, has_amx_avx512, has_amx_tile, has_avx10_v1_aux, has_avx10_v2_aux,
    xcr0_tile_state_enabled, CpuidSnapshot, XCR0_TILE_STATE, XCR0_VECTOR_STATE,
};

/// A processor reporting full ACE v1 with AVX10.2 and the whole tile state enabled.
fn ace_host() -> CpuidSnapshot {
    CpuidSnapshot {
        max_leaf: 0x24,
        leaf1_ecx: 1 << 27,
        xcr0: XCR0_TILE_STATE,
        leaf7_0_edx: 1 << 24,
        leaf7_1_ecx: 1 << 11,
        leaf7_1_edx: 0,
        leaf1d_2_eax: 1,
        leaf24_0_ebx: (1 << 16) | 2,
        leaf24_1_ecx: 0b1100,
    }
}

/// A processor with AMX-TILE and AMX-AVX512 but no ACE.
fn amx_host() -> CpuidSnapshot {
    CpuidSnapshot {
        leaf7_1_ecx: 0,
        leaf7_1_edx: 1 << 21,
        leaf1d_2_eax: 0,
        ..ace_host()
    }
}

/// A processor with AVX10.1 and the vector state only.
fn avx10_host() -> CpuidSnapshot {
    CpuidSnapshot {
        max_leaf: 0x24,
        leaf1_ecx: 1 << 27,
        xcr0: XCR0_VECTOR_STATE,
        leaf24_0_ebx: (1 << 16) | 1,
        leaf24_1_ecx: 0b0100,
        ..CpuidSnapshot::default()
    }
}

#[test]
fn xcr0_tile_state_mask_bits() {
    let vector = XCR0_VECTOR_STATE;
    let tile = XCR0_TILE_STATE;
    for bit in [17u64, 18, 20] {
        assert_eq!(tile & (1 << bit), 1 << bit, "tile mask includes bit {bit}");
        assert_eq!(
            vector & (1 << bit),
            0,
            "vector mask must NOT include tile bit {bit}"
        );
    }
    assert_eq!(
        tile,
        vector | (1 << 20) | (1 << 18) | (1 << 17),
        "tile mask is the vector mask plus XCR0[20,18:17] only"
    );
    assert_eq!(
        tile & vector,
        vector,
        "tile mask is a strict superset of the vector mask"
    );
    assert_eq!(vector, (1 << 1) | (1 << 2) | (1 << 5) | (1 << 6) | (1 << 7));
}

#[test]
fn per_family_gate_helpers() {
    let none = CpuidSnapshot::default();
    assert!(
        !has_amx_tile(&none) && !has_amx_avx512(&none) && !has_ace(&none),
        "non-x86 helpers stub to false"
    );
    for cpu in [none, ace_host(), amx_host(), avx10_host()] {
        let amx_tile = has_amx_tile(&cpu);
        let amx_avx512 = has_amx_avx512(&cpu);
        let ace = has_ace(&cpu);
        if ace {
            assert!(
                amx_tile,
                "has_ace() implies has_amx_tile() (AMX-TILE ∧ ...)"
            );
            assert!(
                amx_avx512,
                "has_ace() implies the family-C gate (ACE_VSN >= 1)"
            );
        }
        assert_eq!(amx_tile, has_amx_tile(&cpu));
        assert_eq!(amx_avx512, has_amx_avx512(&cpu));
        assert_eq!(ace, has_ace(&cpu));
    }
}

#[test]
fn gates_on_sample_processors() {
    let ace_cpu = ace_host();
    assert!(has_amx_tile(&ace_cpu) && has_amx_avx512(&ace_cpu) && has_ace(&ace_cpu));
    assert!(has_avx10_v1_aux(&ace_cpu) && has_avx10_v2_aux(&ace_cpu));
    assert_eq!(ace_vsn(&ace_cpu), 1);

    let amx_cpu = amx_host();
    assert!(has_amx_tile(&amx_cpu) && has_amx_avx512(&amx_cpu) && !has_ace(&amx_cpu));

    let avx10_cpu = avx10_host();
    assert!(!xcr0_tile_state_enabled(&avx10_cpu));
    assert!(!has_amx_tile(&avx10_cpu) && !has_amx_avx512(&avx10_cpu) && !has_ace(&avx10_cpu));
    assert!(has_avx10_v1_aux(&avx10_cpu));
    assert!(!has_avx10_v2_aux(&avx10_cpu), "AVX10_V2_AUX bit clear");
}

#[test]
fn each_gate_input_is_required() {
    let base = ace_host();
    let no_osxsave = CpuidSnapshot { leaf1_ecx: 0, ..base };
    assert!(!has_amx_tile(&no_osxsave) && !has_ace(&no_osxsave) && !has_avx10_v1_aux(&no_osxsave));
    let no_bsr_state = CpuidSnapshot { xcr0: XCR0_TILE_STATE & !(1 << 20), ..base };
    assert!(!xcr0_tile_state_enabled(&no_bsr_state) && !has_amx_tile(&no_bsr_state));
    assert!(has_avx10_v1_aux(&no_bsr_state));
    let no_tile_bit = CpuidSnapshot { leaf7_0_edx: 0, ..base };
    assert!(!has_amx_tile(&no_tile_bit) && !has_ace(&no_tile_bit) && has_amx_avx512(&no_tile_bit));
    let old_leaf = CpuidSnapshot { max_leaf: 0x1c, ..base };
    assert_eq!(ace_vsn(&old_leaf), 0);
    assert!(!has_ace(&old_leaf) && !has_amx_avx512(&old_leaf));
    let no_ace_bit = CpuidSnapshot { leaf7_1_ecx: 0, ..base };
    assert!(!has_ace(&no_ace_bit) && has_amx_avx512(&no_ace_bit));
    let vsn_high_bits = CpuidSnapshot { leaf1d_2_eax: 0x100, ..base };
    assert_eq!(ace_vsn(&vsn_high_bits), 0);
    assert!(!has_ace(&vsn_high_bits));
}

#[test]
fn avx10_layered_check() {
    let v2_only = CpuidSnapshot {
        leaf24_0_ebx: (1 << 16) | 2,
        leaf24_1_ecx: 0,
        ..avx10_host()
    };
    assert!(has_avx10_v1_aux(&v2_only), "AVX10.2 alone passes the base check");
    assert!(!has_avx10_v2_aux(&v2_only));
    let v1_without_aux = CpuidSnapshot { leaf24_1_ecx: 0b1000, ..avx10_host() };
    assert!(!has_avx10_v1_aux(&v1_without_aux));
    assert!(!has_avx10_v2_aux(&v1_without_aux), "V2_AUX needs the base check too");
    let unsupported = CpuidSnapshot { leaf24_0_ebx: 2, ..avx10_host() };
    assert!(!has_avx10_v1_aux(&unsupported));
}

#[test]
fn ace_without_avx10_leaf_is_not_full_ace() {
    let cpu = CpuidSnapshot { max_leaf: 0x1d, ..ace_host() };
    assert!(!has_ace(&cpu));
    assert!(has_amx_tile(&cpu));
    assert!(!has_amx_avx512(&cpu));
}
