use amiga_disasm::{
    analyze, analyze_entries_with, derived_accesses, AccessKind, DerivedTarget, FlowOptions,
    Relocation, Relocations, ValueOptions,
};

#[test]
fn resolves_lea_copy_displacement_and_postincrement() {
    // LEA $1000,A0 ; MOVEA.L A0,A1 ; MOVE.W D0,(4,A1) ;
    // MOVE.B (A1)+,D1 ; MOVE.B (A1),D2 ; RTS
    let code = [
        0x41, 0xf9, 0, 0, 0x10, 0, 0x22, 0x48, 0x33, 0x40, 0, 4, 0x12, 0x19, 0x14, 0x11, 0x4e,
        0x75,
    ];
    let accesses = derived_accesses(&analyze(&code, 0), ValueOptions::default());
    assert!(
        accesses.iter().any(|access| {
            access.site == 8 && access.target == DerivedTarget::Exact(0x1004)
        })
    );
    assert!(
        accesses.iter().any(|access| {
            access.site == 12 && access.target == DerivedTarget::Exact(0x1000)
        })
    );
    assert!(
        accesses.iter().any(|access| {
            access.site == 14 && access.target == DerivedTarget::Exact(0x1001)
        })
    );
}

#[test]
fn clears_facts_at_branch_targets() {
    // LEA $1000,A0 ; BRA +2 ; NOP ; MOVE.B (A0),D0 ; RTS
    let code = [
        0x41, 0xf9, 0, 0, 0x10, 0, 0x60, 0x02, 0x4e, 0x71, 0x10, 0x10, 0x4e, 0x75,
    ];
    let accesses = derived_accesses(&analyze(&code, 0), ValueOptions::default());
    assert_eq!(accesses.len(), 1);
    assert_eq!(accesses[0].target, DerivedTarget::Unknown);
}

#[test]
fn byte_postincrement_keeps_a7_word_aligned() {
    // LEA $1000,A7 ; MOVE.B (A7)+,D0 ; MOVE.B (A7),D1 ; RTS
    let code = [
        0x4f, 0xf9, 0, 0, 0x10, 0, 0x10, 0x1f, 0x12, 0x17, 0x4e, 0x75,
    ];
    let accesses = derived_accesses(&analyze(&code, 0), ValueOptions::default());
    assert_eq!(accesses[0].target, DerivedTarget::Exact(0x1000));
    assert_eq!(accesses[1].target, DerivedTarget::Exact(0x1002));
}

#[test]
fn addq_of_eight_advances_an_address_register_by_eight() {
    // LEA $1000,A0 ; ADDQ.L #8,A0 ; MOVE.B (A0),D0 ; RTS
    let code = [
        0x41, 0xf9, 0, 0, 0x10, 0, // LEA $1000,A0
        0x50, 0x88, // ADDQ.L #8,A0 (quick field 0 == 8)
        0x10, 0x10, // MOVE.B (A0),D0
        0x4e, 0x75,
    ];
    let accesses = derived_accesses(&analyze(&code, 0), ValueOptions::default());
    assert!(
        accesses
            .iter()
            .any(|access| access.target == DerivedTarget::Exact(0x1008))
    );
}

#[test]
fn an_unrepresentable_signed_suba_delta_loses_the_address_without_panicking() {
    // LEA $1000,A0 ; SUBA.L #$80000000,A0 ; MOVE.B (A0),D0 ; RTS.
    // Negating i32::MIN is not representable in the tracker's signed
    // helper, so the conservative result is unknown.
    let code = [
        0x41, 0xf9, 0, 0, 0x10, 0, // LEA $1000,A0
        0x91, 0xfc, 0x80, 0, 0, 0, // SUBA.L #$80000000,A0
        0x10, 0x10, // MOVE.B (A0),D0
        0x4e, 0x75,
    ];
    let accesses = derived_accesses(&analyze(&code, 0), ValueOptions::default());
    assert_eq!(accesses[0].target, DerivedTarget::Unknown);
}

#[test]
fn lea_sign_extends_an_absolute_short_address() {
    // LEA $FFF0.W,A0 ; MOVE.B (A0),D0 ; RTS
    let code = [0x41, 0xf8, 0xff, 0xf0, 0x10, 0x10, 0x4e, 0x75];
    let accesses = derived_accesses(&analyze(&code, 0), ValueOptions::default());
    assert_eq!(accesses[0].target, DerivedTarget::Exact(0xffff_fff0));
}

#[test]
fn a_cross_hunk_lea_does_not_seed_a_derived_address() {
    // LEA $1000.L,A0 ; MOVE.B (A0),D0 ; RTS. The addend is in hunk 1,
    // whose runtime mapping this analysis does not know.
    let code = [0x41, 0xf9, 0, 0, 0x10, 0, 0x10, 0x10, 0x4e, 0x75];
    let analysis = analyze_entries_with(
        &code,
        &[0],
        &FlowOptions {
            relocations: Some(Relocations::new(
                0,
                &[Relocation {
                    patched: 2,
                    target_hunk: 1,
                    target_offset: 0x1000,
                }],
            )),
            ..FlowOptions::default()
        },
    );
    let accesses = derived_accesses(&analysis, ValueOptions::default());
    assert_eq!(accesses[0].target, DerivedTarget::Unknown);
}

#[test]
fn a_same_hunk_lea_uses_the_mapped_image_offset() {
    // LEA $4.L,A0 ; MOVE.B (A0),D0 ; RTS. Relocation turns the stored
    // addend into hunk offset 4, then the mapping places it at $10004.
    let code = [0x41, 0xf9, 0, 0, 0, 4, 0x10, 0x10, 0x4e, 0x75];
    let analysis = analyze_entries_with(
        &code,
        &[0],
        &FlowOptions {
            relocations: Some(Relocations::new(
                0,
                &[Relocation {
                    patched: 2,
                    target_hunk: 0,
                    target_offset: 4,
                }],
            )),
            ..FlowOptions::default()
        },
    );
    let accesses = derived_accesses(
        &analysis,
        ValueOptions {
            image_origin: Some(0x0001_0000),
        },
    );
    assert_eq!(accesses[0].target, DerivedTarget::Exact(0x0001_0004));
}

#[test]
fn an_addx_through_tracked_registers_resolves_both_of_its_operands() {
    // LEA $00DFF004,A1 ; LEA $00DFF09A,A2 ; ADDX.L -(A1),-(A2) ; RTS.
    //
    // The predecrement operands of `ADDX` used to reach this pass as no
    // access at all, so a routine accumulating into a custom-chip register
    // through them read as code that touches no memory. Both now resolve.
    let code = [
        0x43, 0xf9, 0x00, 0xdf, 0xf0, 0x04, // LEA $00DFF004,A1
        0x45, 0xf9, 0x00, 0xdf, 0xf0, 0x9a, // LEA $00DFF09A,A2
        0xd5, 0x89, // ADDX.L -(A1),-(A2)
        0x4e, 0x75,
    ];
    let accesses = derived_accesses(&analyze(&code, 0), ValueOptions::default());
    let addx: Vec<_> = accesses.iter().filter(|a| a.site == 12).collect();
    assert_eq!(addx.len(), 2, "both operands must be reported");
    assert_eq!(addx[0].register, 1);
    assert_eq!(addx[0].target, DerivedTarget::Exact(0x00df_f000));
    assert_eq!(addx[0].kind, AccessKind::Read);
    assert_eq!(addx[1].register, 2);
    assert_eq!(addx[1].target, DerivedTarget::Exact(0x00df_f096));
    assert_eq!(addx[1].kind, AccessKind::Modify);
}

/// The targets of the accesses at a site, in the order in which they are reported.
fn targets_at(code: &[u8], site: u32) -> Vec<DerivedTarget> {
    derived_accesses(&analyze(code, 0), ValueOptions::default())
        .iter()
        .filter(|access| access.site == site)
        .map(|access| access.target)
        .collect()
}

#[test]
fn a_word_movea_sign_extends_its_immediate() {
    for (high, low, expected) in [(0x80, 0x00, 0xffff_8000), (0x7f, 0xfe, 0x0000_7ffe)] {
        // MOVEA.W #imm,A0 ; MOVE.B (A0),D0 ; RTS
        let code = [0x30, 0x7c, high, low, 0x10, 0x10, 0x4e, 0x75];
        assert_eq!(targets_at(&code, 4), vec![DerivedTarget::Exact(expected)]);
    }
    // MOVEA.L #$00018000,A0 ; MOVE.B (A0),D0 ; RTS
    let code = [0x20, 0x7c, 0x00, 0x01, 0x80, 0x00, 0x10, 0x10, 0x4e, 0x75];
    assert_eq!(targets_at(&code, 6), vec![DerivedTarget::Exact(0x0001_8000)]);
}

#[test]
fn a_word_copy_of_an_address_register_sign_extends_its_low_word() {
    for (low, expected) in [(0x23, 0x0000_2340), (0x80, 0xffff_8040)] {
        // LEA $0001xx40,A0 ; MOVEA.W A0,A1 ; MOVE.B (A1),D0 ; RTS
        let code = [
            0x41, 0xf9, 0x00, 0x01, low, 0x40, 0x32, 0x48, 0x10, 0x11, 0x4e, 0x75,
        ];
        assert_eq!(targets_at(&code, 8), vec![DerivedTarget::Exact(expected)]);
    }
}

#[test]
fn an_operand_of_unnamed_size_steps_by_a_word() {
    // LEA $1000,A0 ; MULU (A0)+,D0 ; MOVE.B (A0),D1 ; RTS
    let code = [
        0x41, 0xf9, 0x00, 0x00, 0x10, 0x00, 0xc0, 0xd8, 0x12, 0x10, 0x4e, 0x75,
    ];
    assert_eq!(targets_at(&code, 6), vec![DerivedTarget::Exact(0x1000)]);
    assert_eq!(targets_at(&code, 8), vec![DerivedTarget::Exact(0x1002)]);
}

#[test]
fn a_move_reads_its_source_before_it_reaches_its_destination() {
    // LEA $1000,A0 ; MOVE.W (A0)+,(A0)+ ; MOVE.B (A0),D0 ; RTS
    let code = [
        0x41, 0xf9, 0x00, 0x00, 0x10, 0x00, 0x30, 0xd8, 0x10, 0x10, 0x4e, 0x75,
    ];
    let accesses = derived_accesses(&analyze(&code, 0), ValueOptions::default());
    let at: Vec<_> = accesses.iter().filter(|access| access.site == 6).collect();
    assert_eq!(at.len(), 2);
    assert_eq!(at[0].kind, AccessKind::Write);
    assert_eq!(at[0].target, DerivedTarget::Exact(0x1002));
    assert_eq!(at[1].kind, AccessKind::Read);
    assert_eq!(at[1].target, DerivedTarget::Exact(0x1000));
    assert_eq!(targets_at(&code, 8), vec![DerivedTarget::Exact(0x1004)]);
}

#[test]
fn a_movem_steps_by_every_register_that_it_transfers() {
    // LEA $1000,A0 ; MOVEM.L D0-D1,-(A0) ; MOVE.B (A0),D2 ; RTS
    let code = [
        0x41, 0xf9, 0x00, 0x00, 0x10, 0x00, 0x48, 0xe0, 0xc0, 0x00, 0x14, 0x10, 0x4e, 0x75,
    ];
    assert_eq!(targets_at(&code, 6), vec![DerivedTarget::Exact(0x0ffc)]);
    assert_eq!(targets_at(&code, 10), vec![DerivedTarget::Exact(0x0ff8)]);
    // LEA $1000,A0 ; MOVEM.W (A0)+,D0-D2 ; MOVE.B (A0),D3 ; RTS
    let code = [
        0x41, 0xf9, 0x00, 0x00, 0x10, 0x00, 0x4c, 0x98, 0x00, 0x07, 0x16, 0x10, 0x4e, 0x75,
    ];
    assert_eq!(targets_at(&code, 6), vec![DerivedTarget::Exact(0x1000)]);
    assert_eq!(targets_at(&code, 10), vec![DerivedTarget::Exact(0x1006)]);
}

#[test]
fn what_moves_the_stack_pointer_without_naming_it_loses_it() {
    // PEA ($2000).W ; LINK A6,#-8 ; UNLK A6
    for moves in [
        &[0x48, 0x78, 0x20, 0x00][..],
        &[0x4e, 0x56, 0xff, 0xf8],
        &[0x4e, 0x5e],
    ] {
        // LEA $1000,A7 ; LEA $2000,A0 ; ... ; MOVE.B (A7),D0 ; MOVE.B (A0),D1 ; RTS
        let mut code = vec![
            0x4f, 0xf9, 0x00, 0x00, 0x10, 0x00, 0x41, 0xf9, 0x00, 0x00, 0x20, 0x00,
        ];
        code.extend_from_slice(moves);
        let at = code.len() as u32;
        code.extend_from_slice(&[0x10, 0x17, 0x12, 0x10, 0x4e, 0x75]);
        assert_eq!(targets_at(&code, at), vec![DerivedTarget::Unknown]);
        assert_eq!(targets_at(&code, at + 2), vec![DerivedTarget::Exact(0x2000)]);
    }
}
