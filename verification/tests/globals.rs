use amiga_disasm::{
    absolute_accesses, analyze, analyze_entries_with, global_accesses, AbsoluteAccess, AccessKind,
    ControlFlowAnalysis, FlowOptions, GlobalAccess, Relocation, Relocations,
};
use amiga_disasm::globals::operand_accesses;
use amiga_disasm::m68k::{isa_of_opcode, read_instruction, AddressingMode, Isa};

fn with_relocation(
    code: &[u8],
    patched: u32,
    target_hunk: u32,
    target_offset: u32,
) -> ControlFlowAnalysis {
    analyze_entries_with(
        code,
        &[0],
        &FlowOptions {
            relocations: Some(Relocations::new(
                0,
                &[Relocation {
                    patched,
                    target_hunk,
                    target_offset,
                }],
            )),
            ..FlowOptions::default()
        },
    )
}

#[test]
fn classifies_write_read_and_address_of_a5_slots() {
    // MOVE.W D0,(4,A5) ; MOVE.L (8,A5),D1 ; LEA (12,A5),A0 ; RTS
    let code = [
        0x3b, 0x40, 0x00, 0x04, // MOVE.W D0,(4,A5)
        0x22, 0x2d, 0x00, 0x08, // MOVE.L (8,A5),D1
        0x41, 0xed, 0x00, 0x0c, // LEA (12,A5),A0
        0x4e, 0x75, // RTS
    ];
    let accesses = global_accesses(&analyze(&code, 0), 5, None);
    assert!(accesses.contains(&GlobalAccess {
        site: 0,
        offset: 4,
        size: Some(2),
        kind: AccessKind::Write,
        value: None,
        library_base: false,
    }));
    assert!(accesses.contains(&GlobalAccess {
        site: 4,
        offset: 8,
        size: Some(4),
        kind: AccessKind::Read,
        value: None,
        library_base: false,
    }));
    assert!(accesses.contains(&GlobalAccess {
        site: 8,
        offset: 12,
        size: None,
        kind: AccessKind::Address,
        value: None,
        library_base: false,
    }));
}

#[test]
fn clr_is_a_write_not_a_modify() {
    // CLR.W (4,A5) ; RTS
    let code = [0x42, 0x6d, 0x00, 0x04, 0x4e, 0x75];
    let accesses = global_accesses(&analyze(&code, 0), 5, None);
    assert_eq!(accesses[0].kind, AccessKind::Write);
}

#[test]
fn classifies_register_ea_arithmetic_in_both_directions() {
    // ADD.W (4,A5),D0 ; ADD.W D0,(8,A5) ; RTS
    let code = [
        0xd0, 0x6d, 0x00, 0x04, // source EA is read
        0xd1, 0x6d, 0x00, 0x08, // destination EA is modified
        0x4e, 0x75,
    ];
    let accesses = global_accesses(&analyze(&code, 0), 5, None);
    assert!(accesses.contains(&GlobalAccess {
        site: 0,
        offset: 4,
        size: Some(2),
        kind: AccessKind::Read,
        value: None,
        library_base: false,
    }));
    assert!(accesses.contains(&GlobalAccess {
        site: 4,
        offset: 8,
        size: Some(2),
        kind: AccessKind::Modify,
        value: None,
        library_base: false,
    }));
}

#[test]
fn selects_only_the_requested_base_register() {
    // MOVE.W D0,(4,A5) ; RTS
    let code = [0x3b, 0x40, 0x00, 0x04, 0x4e, 0x75];
    assert!(!global_accesses(&analyze(&code, 0), 5, None).is_empty()); // A5: found
    assert!(global_accesses(&analyze(&code, 0), 4, None).is_empty()); // A4: nothing
}

#[test]
fn finds_absolute_accesses_within_the_loaded_range() {
    // MOVE.W D0,$00010004 ; MOVE.L $00010008,D1 ; RTS
    let code = [
        0x33, 0xc0, 0x00, 0x01, 0x00, 0x04, // MOVE.W D0,$00010004
        0x22, 0x39, 0x00, 0x01, 0x00, 0x08, // MOVE.L $00010008,D1
        0x4e, 0x75, // RTS
    ];
    let accesses = absolute_accesses(&analyze(&code, 0), 0x0001_0000, 0x100);
    assert!(accesses.contains(&AbsoluteAccess {
        site: 0,
        address: 0x0001_0004,
        size: Some(2),
        kind: AccessKind::Write,
        value: None,
        library_base: false,
    }));
    assert!(accesses.contains(&AbsoluteAccess {
        site: 6,
        address: 0x0001_0008,
        size: Some(4),
        kind: AccessKind::Read,
        value: None,
        library_base: false,
    }));
}

#[test]
fn ignores_absolute_accesses_outside_the_loaded_range() {
    // MOVE.W D0,$00DFF096 (a custom-chip write, outside the image) ; RTS
    let code = [0x33, 0xc0, 0x00, 0xdf, 0xf0, 0x96, 0x4e, 0x75];
    assert!(absolute_accesses(&analyze(&code, 0), 0x0001_0000, 0x100).is_empty());
}

#[test]
fn a_cross_hunk_addend_inside_the_load_range_is_not_an_absolute_global() {
    // MOVE.L $10004.L,D0 ; RTS. The stored addend looks like a global in
    // this image, but the relocation proves that it belongs to hunk 1.
    let code = [0x20, 0x39, 0x00, 0x01, 0x00, 0x04, 0x4e, 0x75];
    let analysis = analyze_entries_with(
        &code,
        &[0],
        &FlowOptions {
            relocations: Some(Relocations::new(
                0,
                &[Relocation {
                    patched: 2,
                    target_hunk: 1,
                    target_offset: 0x0001_0004,
                }],
            )),
            ..FlowOptions::default()
        },
    );
    assert!(absolute_accesses(&analysis, 0x0001_0000, 0x100).is_empty());
}

#[test]
fn a_same_hunk_addend_is_mapped_from_its_image_offset() {
    // MOVE.L $4.L,D0 ; RTS. The loaded instruction reads $10004 because
    // the relocation patches offset 4 into this hunk's runtime mapping.
    let code = [0x20, 0x39, 0x00, 0x00, 0x00, 0x04, 0x4e, 0x75];
    let analysis = analyze_entries_with(
        &code,
        &[0],
        &FlowOptions {
            relocations: Some(Relocations::new(
                0,
                &[Relocation {
                    patched: 2,
                    target_hunk: 0,
                    target_offset: 4,
                }],
            )),
            ..FlowOptions::default()
        },
    );
    assert_eq!(
        absolute_accesses(&analysis, 0x0001_0000, 0x100),
        [AbsoluteAccess {
            site: 0,
            address: 0x0001_0004,
            size: Some(4),
            kind: AccessKind::Read,
            value: None,
            library_base: false,
        }]
    );
}

#[test]
fn reports_immediate_values_written_to_relative_and_absolute_slots() {
    // MOVE.L #$10020,(4,A5) ; MOVE.L #$10030,$10008 ; RTS
    let code = [
        0x2b, 0x7c, 0x00, 0x01, 0x00, 0x20, 0x00, 0x04, 0x23, 0xfc, 0x00, 0x01, 0x00, 0x30,
        0x00, 0x01, 0x00, 0x08, 0x4e, 0x75,
    ];
    let analysis = analyze(&code, 0);
    let relative = global_accesses(&analysis, 5, Some(0x0001_0000));
    assert_eq!(relative[0].value, Some(0x0001_0020));
    let absolute = absolute_accesses(&analysis, 0x0001_0000, 0x100);
    assert_eq!(absolute[0].value, Some(0x0001_0030));
}

#[test]
fn a_relocated_global_value_needs_a_same_hunk_runtime_mapping() {
    // MOVE.L #$20,(4,A5) ; RTS. The immediate longword starts at 2.
    let code = [0x2b, 0x7c, 0x00, 0x00, 0x00, 0x20, 0x00, 0x04, 0x4e, 0x75];
    let same_hunk = with_relocation(&code, 2, 0, 0x20);
    assert_eq!(
        global_accesses(&same_hunk, 5, Some(0x1000))[0].value,
        Some(0x1020)
    );
    assert_eq!(global_accesses(&same_hunk, 5, None)[0].value, None);

    let other_hunk = with_relocation(&code, 2, 1, 0x20);
    assert_eq!(global_accesses(&other_hunk, 5, Some(0x1000))[0].value, None);
}

#[test]
fn a_word_immediate_is_not_treated_as_a_relocated_pointer() {
    // MOVE.W #$20,(4,A5) ; RTS. A malformed longword relocation at the
    // immediate position must not rename a two-byte scalar.
    let code = [0x3b, 0x7c, 0x00, 0x20, 0x00, 0x04, 0x4e, 0x75];
    let analysis = with_relocation(&code, 2, 1, 0x20);
    assert_eq!(
        global_accesses(&analysis, 5, Some(0x1000))[0].value,
        Some(0x20)
    );
}

#[test]
fn two_identical_longwords_use_their_exact_relocation_positions() {
    // MOVE.L #$20,$20.L ; RTS. Relocating the immediate into another hunk
    // removes only the stored numeric value; the unrelocated destination
    // remains an absolute global at $20.
    let code = [
        0x23, 0xfc, 0x00, 0x00, 0x00, 0x20, 0x00, 0x00, 0x00, 0x20, 0x4e, 0x75,
    ];
    let immediate = with_relocation(&code, 2, 1, 0x20);
    assert_eq!(
        absolute_accesses(&immediate, 0, 0x100),
        [AbsoluteAccess {
            site: 0,
            address: 0x20,
            size: Some(4),
            kind: AccessKind::Write,
            value: None,
            library_base: false,
        }]
    );

    let destination = with_relocation(&code, 6, 1, 0x20);
    assert!(absolute_accesses(&destination, 0, 0x100).is_empty());
}

#[test]
fn equal_absolute_source_and_destination_resolve_independently() {
    // MOVE.L $20.L,$20.L ; RTS. Unlike the immediate-write case above,
    // both operands are arbitrary effective addresses.
    let code = [
        0x23, 0xf9, 0x00, 0x00, 0x00, 0x20, 0x00, 0x00, 0x00, 0x20, 0x4e, 0x75,
    ];
    let source = with_relocation(&code, 2, 1, 0x20);
    assert_eq!(
        absolute_accesses(&source, 0, 0x100),
        [AbsoluteAccess {
            site: 0,
            address: 0x20,
            size: Some(4),
            kind: AccessKind::Write,
            value: None,
            library_base: false,
        }]
    );

    let destination = with_relocation(&code, 6, 1, 0x20);
    assert_eq!(
        absolute_accesses(&destination, 0, 0x100),
        [AbsoluteAccess {
            site: 0,
            address: 0x20,
            size: Some(4),
            kind: AccessKind::Read,
            value: None,
            library_base: false,
        }]
    );
}

#[test]
fn flags_a_slot_loaded_as_a_library_base() {
    // MOVEA.L (8,A5),A6 ; JSR (-30,A6) ; RTS
    let code = [0x2c, 0x6d, 0x00, 0x08, 0x4e, 0xae, 0xff, 0xe2, 0x4e, 0x75];
    let accesses = global_accesses(&analyze(&code, 0), 5, None);
    assert_eq!(accesses.len(), 1);
    assert!(accesses[0].library_base);
    assert_eq!(accesses[0].kind, AccessKind::Read);
}

/// Every operand the classifier reports for the instruction at offset 0.
fn accesses_at_zero(code: &[u8]) -> Vec<(AddressingMode, Option<u8>, AccessKind)> {
    let analysis = analyze(code, 0);
    let decoded = analysis.instructions.get(0).unwrap();
    let found = operand_accesses(
        isa_of_opcode(decoded.instruction.opcode),
        decoded.instruction.operands,
    );
    [found.first, found.second]
        .into_iter()
        .flatten()
        .map(|access| (access.mode, access.size, access.kind))
        .collect()
}

#[test]
fn addx_memory_form_reads_its_source_and_modifies_its_destination() {
    // ADDX.L -(A1),-(A2) ; RTS. Multi-precision arithmetic: real memory
    // traffic that used to reach every caller as an instruction touching
    // nothing at all.
    assert_eq!(
        accesses_at_zero(&[0xd5, 0x89, 0x4e, 0x75]),
        vec![
            (AddressingMode::Ariwpr(1), Some(4), AccessKind::Read),
            (AddressingMode::Ariwpr(2), Some(4), AccessKind::Modify),
        ]
    );
}

#[test]
fn cmpm_reads_both_of_its_memory_operands() {
    // CMPM.W (A3)+,(A4)+ ; RTS — the buffer-compare idiom.
    assert_eq!(
        accesses_at_zero(&[0xb9, 0x4b, 0x4e, 0x75]),
        vec![
            (AddressingMode::Ariwpo(3), Some(2), AccessKind::Read),
            (AddressingMode::Ariwpo(4), Some(2), AccessKind::Read),
        ]
    );
}

#[test]
fn the_register_form_of_addx_touches_no_memory() {
    // ADDX.L D1,D2 ; RTS — same mnemonic, no operand addresses memory.
    assert!(accesses_at_zero(&[0xd5, 0x81, 0x4e, 0x75]).is_empty());
}

/// No instruction the decoder produces has an operand form that the classifier does not
/// know: a form other than its mnemonic's would contribute no access to every walk.
#[test]
fn every_decodable_instruction_is_classified() {
    let mut unclassified = Vec::new();
    for opcode in 0..=u16::MAX {
        let isa = isa_of_opcode(opcode);
        if isa == Isa::Unknown {
            continue;
        }
        // Extension words read as zero; only the operand *form* matters.
        let bytes = [(opcode >> 8) as u8, opcode as u8, 0, 0, 0, 0, 0, 0, 0, 0];
        let Some((instruction, _)) = read_instruction(&bytes, 0) else {
            continue;
        };
        if !isa.accepts(instruction.operands) {
            unclassified.push((opcode, isa));
        }
    }
    assert!(
        unclassified.is_empty(),
        "operand forms no walk would report: {unclassified:x?}"
    );
}
