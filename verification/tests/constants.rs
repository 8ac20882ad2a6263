use amiga_disasm::{
    analyze_entries, analyze_entries_with, constant_before, parse_register, ConstantValue,
    FlowOptions, RegisterKind, Relocation, Relocations, Unresolved, UnresolvedFlow, ValueOptions,
};
use amiga_disasm::constants::{ConstantAnalysis, TrackedValue};
use amiga_disasm::values::{MAX_VALUE_EVIDENCE, SymbolicLocation, SymbolicSubject, SymbolicValue};

/// Analyze `code` from offset 0 and ask for `(kind, register)` at `site`.
fn lookup(
    code: &[u8],
    site: u32,
    kind: RegisterKind,
    register: u8,
) -> Result<ConstantValue, Unresolved> {
    let analysis = analyze_entries(code, &[0]);
    constant_before(&analysis, ValueOptions::default(), site, kind, register)
}

fn value_at(
    code: &[u8],
    site: u32,
    kind: RegisterKind,
    register: u8,
    image_origin: Option<u32>,
) -> Result<TrackedValue, Unresolved> {
    value_with(code, site, kind, register, ValueOptions { image_origin })
}

fn value_with(
    code: &[u8],
    site: u32,
    kind: RegisterKind,
    register: u8,
    options: ValueOptions,
) -> Result<TrackedValue, Unresolved> {
    let analysis = analyze_entries(code, &[0]);
    ConstantAnalysis::new(&analysis, options).before_value(site, kind, register)
}

fn value_with_relocations(
    code: &[u8],
    site: u32,
    kind: RegisterKind,
    register: u8,
    options: ValueOptions,
    relocations: Relocations,
) -> Result<TrackedValue, Unresolved> {
    let analysis = analyze_entries_with(
        code,
        &[0],
        &FlowOptions {
            relocations: Some(relocations),
            ..FlowOptions::default()
        },
    );
    ConstantAnalysis::new(&analysis, options).before_value(site, kind, register)
}

#[test]
fn an_immediate_load_is_resolved_with_the_site_that_set_it() {
    // MOVE.L #32000,D0 ; MOVEQ #2,D1 ; RTS
    let code = [
        0x20, 0x3c, 0x00, 0x00, 0x7d, 0x00, // 0x00 MOVE.L #32000,D0
        0x72, 0x02, // 0x06 MOVEQ #2,D1
        0x4e, 0x75, // 0x08 RTS
    ];
    let d0 = lookup(&code, 8, RegisterKind::Data, 0).expect("D0 is known at the RTS");
    assert_eq!(d0.value, 32_000);
    assert_eq!(d0.site, 0, "the evidence is the instruction that set it");
    let d1 = lookup(&code, 8, RegisterKind::Data, 1).expect("D1 is known at the RTS");
    assert_eq!(d1.value, 2);
    assert_eq!(d1.site, 6);
}

#[test]
fn indexed_sources_preserve_base_signed_index_width_and_displacement() {
    for (code, expected_base, index_address, index_register, index_bytes, displacement) in [
        (
            [0x20, 0x30, 0x10, 0xfe, 0x4e, 0x75],
            SymbolicLocation::RegisterRelative {
                register: 0,
                displacement: 0,
            },
            false,
            1,
            2,
            -2,
        ),
        (
            [0x20, 0x3b, 0xa8, 0x06, 0x4e, 0x75],
            SymbolicLocation::ImageRelative {
                offset: 2,
                runtime_address: Some(0x1002),
            },
            true,
            2,
            4,
            6,
        ),
    ] {
        let TrackedValue::Symbolic(value) =
            value_at(&code, 4, RegisterKind::Data, 0, Some(0x1000)).unwrap()
        else {
            panic!("indexed memory is not an exact number");
        };
        assert_eq!(
            value.location,
            SymbolicLocation::Indexed {
                base: Box::new(expected_base),
                index_address,
                index_register,
                index_bytes,
                displacement,
                read_site: 0,
            }
        );
    }
}

#[test]
fn indexed_sources_survive_copy_and_wrapping_arithmetic() {
    // MOVE.L (-2,A0,D1.W),D0 ; MOVE.L D0,D2 ; SUBQ.L #1,D2 ; RTS.
    let code = [0x20, 0x30, 0x10, 0xfe, 0x24, 0x00, 0x53, 0x82, 0x4e, 0x75];
    let TrackedValue::Symbolic(value) = value_at(&code, 8, RegisterKind::Data, 2, None).unwrap()
    else {
        panic!("the copied read is symbolic");
    };
    assert_eq!(value.offset, u32::MAX);
    assert_eq!(value.evidence, vec![0, 4, 6]);
    assert!(matches!(
        value.location,
        SymbolicLocation::Indexed { read_site: 0, .. }
    ));
}

#[test]
fn different_indexed_read_sites_do_not_join_unknown_register_snapshots() {
    let code = [
        0x4a, 0x41, 0x67, 0x06, 0x20, 0x30, 0x10, 0xfe, 0x60, 0x04, 0x20, 0x30, 0x10, 0xfe,
        0x4e, 0x75,
    ];
    assert_eq!(
        value_at(&code, 14, RegisterKind::Data, 0, None),
        Err(Unresolved::Join)
    );
}

#[test]
fn scaled_full_and_truncated_index_extensions_do_not_establish_sources() {
    for extension in [0x1200_u16, 0x1100, 0x1400] {
        let [hi, lo] = extension.to_be_bytes();
        assert_eq!(
            value_at(
                &[0x20, 0x30, hi, lo, 0x4e, 0x75],
                4,
                RegisterKind::Data,
                0,
                None
            ),
            Err(Unresolved::WriteNotValued)
        );
    }
    for code in [
        &[0x20, 0x30][..],
        &[0x20, 0x30, 0x10][..],
        &[0x4c, 0xd8, 0x03][..],
    ] {
        assert!(value_at(code, 0, RegisterKind::Data, 0, None).is_err());
    }
}

#[test]
fn movem_long_uses_transfer_order_and_final_base_even_when_base_is_loaded() {
    // LEA $1000,A0 ; MOVEM.L (A0)+,D0/D2/A0/A1 ; RTS.
    let code = [
        0x41, 0xf9, 0x00, 0x00, 0x10, 0x00, 0x4c, 0xd8, 0x03, 0x05, 0x4e, 0x75,
    ];
    assert_eq!(
        lookup(&code, 10, RegisterKind::Address, 0).unwrap().value,
        0x1010
    );
    for (kind, register, byte_offset) in [
        (RegisterKind::Data, 0, 0),
        (RegisterKind::Data, 2, 4),
        (RegisterKind::Address, 1, 12),
    ] {
        let TrackedValue::Symbolic(value) = value_at(&code, 10, kind, register, None).unwrap()
        else {
            panic!("MOVEM slots are symbolic");
        };
        assert_eq!(value.subject, SymbolicSubject::Contents);
        assert_eq!(
            value.location,
            SymbolicLocation::MovemSlot {
                base: Box::new(SymbolicLocation::RegisterPostincrement {
                    register: 0,
                    site: 6
                }),
                byte_offset,
                read_site: 6,
            }
        );
    }
    assert_eq!(
        value_at(&code, 10, RegisterKind::Data, 1, None),
        Err(Unresolved::NoPredecessor)
    );
}

#[test]
fn movem_words_sign_extend_data_and_address_registers() {
    // MOVEM.W (A0),D0/A1 ; RTS.
    let code = [0x4c, 0x90, 0x02, 0x01, 0x4e, 0x75];
    for (kind, register, byte_offset) in
        [(RegisterKind::Data, 0, 0), (RegisterKind::Address, 1, 2)]
    {
        let TrackedValue::Symbolic(value) = value_at(&code, 4, kind, register, None).unwrap()
        else {
            panic!("MOVEM word reads are symbolic");
        };
        assert_eq!(value.subject, SymbolicSubject::SignExtendedWord);
        assert!(
            matches!(value.location, SymbolicLocation::MovemSlot { byte_offset: offset, .. } if offset == byte_offset)
        );
    }
}

#[test]
fn narrow_reads_preserve_old_high_bits_while_movea_sign_extends() {
    for (opcode, low_bytes) in [(0x10, 1), (0x30, 2)] {
        // MOVE.B/W (A0),D0 ; MOVE.L D0,D1 ; RTS.
        let code = [opcode, 0x10, 0x22, 0x00, 0x4e, 0x75];
        let TrackedValue::Symbolic(value) =
            value_at(&code, 4, RegisterKind::Data, 1, None).unwrap()
        else {
            panic!("narrow read is symbolic");
        };
        assert_eq!(
            value.subject,
            SymbolicSubject::PreserveHigh {
                register: 0,
                read_site: 0,
                low_bytes
            }
        );
        assert_eq!(value.evidence, vec![0, 2]);
    }
    let TrackedValue::Symbolic(value) =
        value_at(&[0x32, 0x50, 0x4e, 0x75], 2, RegisterKind::Address, 1, None).unwrap()
    else {
        panic!("MOVEA.W is symbolic");
    };
    assert_eq!(value.subject, SymbolicSubject::SignExtendedWord);
}

#[test]
fn copies_of_one_indexed_snapshot_survive_a_branch_join() {
    // Read ; TST.W D1 ; BEQ right ; MOVE.L D0,D2 ; BRA join ;
    // right: MOVE.L D0,D2 ; join: RTS.
    let code = [
        0x20, 0x30, 0x10, 0xfe, 0x4a, 0x41, 0x67, 0x04, 0x24, 0x00, 0x60, 0x02, 0x24, 0x00,
        0x4e, 0x75,
    ];
    let TrackedValue::Symbolic(value) =
        value_at(&code, 14, RegisterKind::Data, 2, None).unwrap()
    else {
        panic!("both copies describe the same read");
    };
    assert_eq!(value.evidence, vec![0, 8]);
}

#[test]
fn different_movem_or_narrow_read_sites_refuse_a_join() {
    for read in [
        vec![0x4c, 0x90, 0x00, 0x01],
        vec![0x30, 0x10],
        vec![0x10, 0x10],
    ] {
        let mut code = vec![0x4a, 0x41, 0x67, (read.len() + 2) as u8];
        code.extend_from_slice(&read);
        code.extend([0x60, read.len() as u8]);
        code.extend_from_slice(&read);
        let site = code.len() as u32;
        code.extend([0x4e, 0x75]);
        assert_eq!(
            value_at(&code, site, RegisterKind::Data, 0, None),
            Err(Unresolved::Join)
        );
    }
}

#[test]
fn new_symbolic_forms_keep_the_evidence_limit_and_call_clobber() {
    for read in [
        vec![0x20, 0x30, 0x10, 0xfe],
        vec![0x4c, 0x90, 0x00, 0x01],
        vec![0x30, 0x10],
    ] {
        let mut code = read.clone();
        for _ in 0..MAX_VALUE_EVIDENCE {
            code.extend([0x20, 0x00]);
        }
        let site = code.len() as u32;
        code.extend([0x4e, 0x75]);
        assert_eq!(
            value_at(&code, site, RegisterKind::Data, 0, None),
            Err(Unresolved::StepLimit)
        );
        let mut code = read;
        code.extend([0x4e, 0xae, 0xff, 0x3a]);
        let site = code.len() as u32;
        code.extend([0x4e, 0x75]);
        assert_eq!(
            value_at(&code, site, RegisterKind::Data, 0, None),
            Err(Unresolved::Call)
        );
    }
}

#[test]
fn a_long_register_copy_carries_the_exact_value_and_both_evidence_sites() {
    // MOVEQ #7,D3 ; MOVE.L D3,D0 ; RTS
    let code = [0x76, 0x07, 0x20, 0x03, 0x4e, 0x75];
    let value = lookup(&code, 4, RegisterKind::Data, 0).expect("D0 is known");
    assert_eq!(value.value, 7);
    assert_eq!(value.site, 2, "the copy is the immediate producer");
    assert_eq!(value.evidence, vec![0, 2]);
}

#[test]
fn a_long_address_register_copy_carries_an_exact_address() {
    // LEA $123456,A2 ; MOVEA.L A2,A1 ; RTS
    let code = [0x45, 0xf9, 0x00, 0x12, 0x34, 0x56, 0x22, 0x4a, 0x4e, 0x75];
    let value = lookup(&code, 8, RegisterKind::Address, 1).expect("A1 is known");
    assert_eq!(value.value, 0x12_3456);
    assert_eq!(value.site, 6);
    assert_eq!(value.evidence, vec![0, 6]);
}

#[test]
fn a_memory_read_survives_additive_transformation_and_register_copy() {
    // MOVE.L (8,A5),D1 ; ADDQ.L #1,D1 ; MOVE.L D1,D2 ; RTS
    let code = [0x22, 0x2d, 0x00, 0x08, 0x52, 0x81, 0x24, 0x01, 0x4e, 0x75];
    let TrackedValue::Symbolic(value) = value_at(&code, 8, RegisterKind::Data, 2, None)
        .expect("D2 should retain the expression")
    else {
        panic!("D2 should not become exact");
    };
    assert_eq!(
        value.location,
        SymbolicLocation::RegisterRelative {
            register: 5,
            displacement: 8,
        }
    );
    assert_eq!(value.offset, 1);
    assert_eq!(value.site, 6);
    assert_eq!(value.evidence, vec![0, 4, 6]);
}

#[test]
fn pc_relative_memory_keeps_image_and_runtime_coordinates() {
    // MOVE.L (6,PC),D0 ; RTS. The effective source offset is 8.
    let code = [0x20, 0x3a, 0x00, 0x06, 0x4e, 0x75];
    let TrackedValue::Symbolic(value) = value_at(&code, 4, RegisterKind::Data, 0, Some(0x1000))
        .expect("D0 should retain the PC-relative source")
    else {
        panic!("D0 should not become exact");
    };
    assert_eq!(
        value.location,
        SymbolicLocation::ImageRelative {
            offset: 8,
            runtime_address: Some(0x1008),
        }
    );
}

#[test]
fn non_additive_arithmetic_refuses_a_symbolic_memory_value() {
    // MOVE.L (8,A5),D1 ; ANDI.L #$ff,D1 ; RTS
    let code = [
        0x22, 0x2d, 0x00, 0x08, 0x02, 0x81, 0x00, 0x00, 0x00, 0xff, 0x4e, 0x75,
    ];
    assert_eq!(
        value_at(&code, 10, RegisterKind::Data, 1, None),
        Err(Unresolved::WriteNotValued)
    );
}

#[test]
fn pc_relative_lea_and_address_arithmetic_keep_an_exact_address() {
    // LEA (6,PC),A1 -> 8 ; ADDQ.W #8,A1 ; SUBQ.W #1,A1 ;
    // ADDA.W #-3,A1 ; SUBA.W #4,A1 ; RTS
    // Address-register quick arithmetic always updates the whole register,
    // even when its encoded size is word. ADDA/SUBA sign-extend word
    // immediates before applying them to the whole address register.
    let code = [
        0x43, 0xfa, 0x00, 0x06, // 0x00 LEA (6,PC),A1 = 8
        0x50, 0x49, // 0x04 ADDQ.W #8,A1
        0x53, 0x49, // 0x06 SUBQ.W #1,A1
        0xd2, 0xfc, 0xff, 0xfd, // 0x08 ADDA.W #-3,A1
        0x92, 0xfc, 0x00, 0x04, // 0x0c SUBA.W #4,A1
        0x4e, 0x75, // 0x10 RTS
    ];
    let value = lookup(&code, 16, RegisterKind::Address, 1).expect("A1 is known");
    assert_eq!(value.value, 8);
    assert_eq!(value.site, 12);
    assert_eq!(value.evidence, vec![0, 4, 6, 8, 12]);
}

#[test]
fn selected_long_data_arithmetic_is_exact_and_wraps_like_the_cpu() {
    let code = [
        0x20, 0x3c, 0xff, 0xff, 0xff, 0xf0, // 0x00 MOVE.L #$fffffff0,D0
        0x06, 0x80, 0x00, 0x00, 0x00, 0x20, // 0x06 ADDI.L #$20,D0 = $10
        0x04, 0x80, 0x00, 0x00, 0x00, 0x01, // 0x0c SUBI.L #1,D0 = $0f
        0x52, 0x80, // 0x12 ADDQ.L #1,D0 = $10
        0x53, 0x80, // 0x14 SUBQ.L #1,D0 = $0f
        0x00, 0x80, 0x00, 0x00, 0x01, 0x00, // 0x16 ORI.L #$100,D0 = $10f
        0x02, 0x80, 0x00, 0x00, 0x00, 0xff, // 0x1c ANDI.L #$ff,D0 = $0f
        0x0a, 0x80, 0x00, 0x00, 0x00, 0xff, // 0x22 EORI.L #$ff,D0 = $f0
        0x46, 0x80, // 0x28 NOT.L D0 = $ffffff0f
        0x44, 0x80, // 0x2a NEG.L D0 = $f1
        0x4e, 0x75, // 0x2c RTS
    ];
    let value = lookup(&code, 44, RegisterKind::Data, 0).expect("D0 is known");
    assert_eq!(value.value, 0xf1);
    assert_eq!(value.site, 42);
    assert_eq!(value.evidence, vec![0, 6, 12, 18, 20, 22, 28, 34, 40, 42]);
}

#[test]
fn clr_long_establishes_zero_without_an_input_value() {
    let code = [0x42, 0x80, 0x4e, 0x75]; // CLR.L D0 ; RTS
    let value = lookup(&code, 2, RegisterKind::Data, 0).expect("D0 is known");
    assert_eq!(value.value, 0);
    assert_eq!(value.evidence, vec![0]);
}

#[test]
fn arithmetic_on_an_unknown_input_stays_unknown() {
    // ADDI.L #1,D0 cannot invent the D0 value it adds to.
    let code = [0x06, 0x80, 0x00, 0x00, 0x00, 0x01, 0x4e, 0x75];
    assert_eq!(
        lookup(&code, 6, RegisterKind::Data, 0),
        Err(Unresolved::NoPredecessor)
    );
}

#[test]
fn arithmetic_preserves_the_reason_its_input_is_unknown() {
    // MOVEQ #7,D0 ; BSR.S sub ; ADDI.L #1,D0 ; RTS ; sub: RTS
    // The addition cannot recover what the callee left in D0, and should
    // retain that useful diagnosis instead of calling itself an unknown
    // write.
    let code = [
        0x70, 0x07, 0x61, 0x08, 0x06, 0x80, 0x00, 0x00, 0x00, 0x01, 0x4e, 0x75, 0x4e, 0x75,
    ];
    assert_eq!(
        lookup(&code, 10, RegisterKind::Data, 0),
        Err(Unresolved::Call)
    );
}

#[test]
fn equal_values_from_two_paths_survive_the_join_deterministically() {
    // TST.W D1 ; BEQ.S right ; MOVEQ #7,D0 ; BRA.S join ;
    // right: MOVEQ #7,D0 ; join: RTS
    let code = [
        0x4a, 0x41, 0x67, 0x04, 0x70, 0x07, 0x60, 0x02, 0x70, 0x07, 0x4e, 0x75,
    ];
    let value = lookup(&code, 10, RegisterKind::Data, 0).expect("both paths agree");
    assert_eq!(value.value, 7);
    assert_eq!(value.evidence, vec![4]);
}

#[test]
fn equal_symbolic_values_from_two_paths_survive_the_join() {
    // TST.W D1 ; BEQ.S right ; MOVE.L (8,A5),D0 ; BRA.S join ;
    // right: MOVE.L (8,A5),D0 ; join: RTS
    let code = [
        0x4a, 0x41, 0x67, 0x06, 0x20, 0x2d, 0x00, 0x08, 0x60, 0x04, 0x20, 0x2d, 0x00, 0x08,
        0x4e, 0x75,
    ];
    let TrackedValue::Symbolic(value) = value_at(&code, 14, RegisterKind::Data, 0, None)
        .expect("both paths retain the same expression")
    else {
        panic!("the expression should not become exact");
    };
    assert_eq!(
        value.location,
        SymbolicLocation::RegisterRelative {
            register: 5,
            displacement: 8,
        }
    );
    assert_eq!(value.evidence, vec![4]);
}

#[test]
fn an_unchanged_exact_value_converges_through_a_loop() {
    // MOVEQ #7,D0 ; loop: TST.W D1 ; BNE.S loop ; RTS
    let code = [0x70, 0x07, 0x4a, 0x41, 0x66, 0xfc, 0x4e, 0x75];
    let value = lookup(&code, 6, RegisterKind::Data, 0).expect("the loop preserves D0");
    assert_eq!(value.value, 7);
    assert_eq!(value.evidence, vec![0]);
}

#[test]
fn a_bit_set_is_a_write_the_walk_stops_at() {
    // MOVEQ #2,D1 ; BSET #16,D1 — the review's real-report case: reporting
    // `2` here renders MEMF_CHIP for a register holding
    // MEMF_CHIP|MEMF_CLEAR. Adding a flag bit this way is idiomatic 68k.
    let code = [
        0x72, 0x02, // MOVEQ #2,D1
        0x08, 0xc1, 0x00, 0x10, // BSET #16,D1
        0x4e, 0x75, // RTS
    ];
    assert_eq!(
        lookup(&code, 6, RegisterKind::Data, 1),
        Err(Unresolved::WriteNotValued)
    );
}

#[test]
fn every_register_writing_form_stops_the_walk() {
    // One case per operand form the classification had to decide about.
    // Each fixture sets the register, then mangles it; a value surviving
    // to the end would be the stale one.
    for (name, code, kind, register, site) in [
        (
            "EXT.L D0",
            vec![0x70, 0x7f, 0x48, 0xc0, 0x4e, 0x75],
            RegisterKind::Data,
            0,
            4,
        ),
        (
            "SWAP D1",
            vec![0x72, 0x02, 0x48, 0x41, 0x4e, 0x75],
            RegisterKind::Data,
            1,
            4,
        ),
        (
            "SEQ D0",
            vec![0x70, 0x01, 0x57, 0xc0, 0x4e, 0x75],
            RegisterKind::Data,
            0,
            4,
        ),
        (
            "ADDX.L D2,D1",
            vec![0x72, 0x02, 0xd3, 0x82, 0x4e, 0x75],
            RegisterKind::Data,
            1,
            4,
        ),
        (
            "TAS D0",
            vec![0x70, 0x01, 0x4a, 0xc0, 0x4e, 0x75],
            RegisterKind::Data,
            0,
            4,
        ),
        (
            "NBCD D0",
            vec![0x70, 0x01, 0x48, 0x00, 0x4e, 0x75],
            RegisterKind::Data,
            0,
            4,
        ),
        (
            "MOVE SR,D0",
            vec![0x70, 0x01, 0x40, 0xc0, 0x4e, 0x75],
            RegisterKind::Data,
            0,
            4,
        ),
        (
            "UNLK A1",
            vec![0x22, 0x7c, 0x00, 0x00, 0x10, 0x00, 0x4e, 0x59, 0x4e, 0x75],
            RegisterKind::Address,
            1,
            8,
        ),
    ] {
        assert_eq!(
            lookup(&code, site, kind, register),
            Err(Unresolved::WriteNotValued),
            "{name}: a value survived a write to its own register"
        );
    }
}

#[test]
fn a_function_entry_is_not_walked_through() {
    // Falling into an address that is also a seeded entry means control
    // can arrive from anywhere; what precedes it in address order is not
    // what precedes it in execution.
    let code = [
        0x72, 0x02, // 0x00 MOVEQ #2,D1
        0x4e, 0x71, // 0x02 NOP        <- also an entry
        0x4e, 0x75, // 0x04 RTS
    ];
    let analysis = analyze_entries(&code, &[0, 2]);
    assert_eq!(
        constant_before(&analysis, ValueOptions::default(), 4, RegisterKind::Data, 1),
        Err(Unresolved::FunctionEntry),
        "the walk crossed a function entry"
    );
}

#[test]
fn an_unresolved_jump_in_the_function_refuses_every_value_in_it() {
    // JMP (A0) could land anywhere in this function, including between a
    // write and the site that reads it, and the flow graph cannot say
    // where. Refusing the whole function is the only answer it supports.
    let code = [
        0x72, 0x02, // 0x00 MOVEQ #2,D1
        0x4a, 0x40, // 0x02 TST.W D0
        0x67, 0x02, // 0x04 BEQ.S 0x08
        0x4e, 0xd0, // 0x06 JMP (A0)   <- unresolved
        0x4e, 0x71, // 0x08 NOP
        0x4e, 0x75, // 0x0a RTS
    ];
    let analysis = analyze_entries(&code, &[0]);
    assert!(!analysis.unresolved.is_empty(), "the fixture resolved");
    assert_eq!(
        constant_before(
            &analysis,
            ValueOptions::default(),
            0x0a,
            RegisterKind::Data,
            1
        ),
        Err(Unresolved::UnresolvedFlow),
        "a value was reported inside a function with unresolved flow"
    );
}

#[test]
fn an_unresolved_indirect_call_uses_its_fallthrough_and_call_clobber() {
    // MOVEQ #7,D0 ; JSR (A0) ; MOVEQ #2,D1 ; RTS. The callee target is
    // unknown, but JSR still returns to the following instruction.
    let code = [0x70, 0x07, 0x4e, 0x90, 0x72, 0x02, 0x4e, 0x75];
    let analysis = analyze_entries(&code, &[0]);
    assert!(!analysis.unresolved.is_empty(), "the fixture resolved");

    let before_call =
        constant_before(&analysis, ValueOptions::default(), 2, RegisterKind::Data, 0)
            .expect("the unresolved call should not poison earlier state");
    assert_eq!(before_call.value, 7);
    assert_eq!(
        constant_before(&analysis, ValueOptions::default(), 4, RegisterKind::Data, 0),
        Err(Unresolved::Call),
        "the unknown callee did not clobber its fallthrough state"
    );
    let after_call =
        constant_before(&analysis, ValueOptions::default(), 6, RegisterKind::Data, 1)
            .expect("a value established after the call should be visible");
    assert_eq!(after_call.value, 2);
}

#[test]
fn an_indirect_call_that_can_enter_its_owner_refuses_the_owner_walk() {
    // MOVEQ #1,D0 ; LEA handler(PC),A0 ; JSR (A0) ; MOVEQ #2,D0 ;
    // handler: NOP ; RTS. The graph reaches handler only through the
    // fallthrough carrying 2, but the unresolved call can enter it with 1.
    let code = [
        0x70, 0x01, // 0x00 MOVEQ #1,D0
        0x41, 0xfa, 0x00, 0x06, // 0x02 LEA (6,PC),A0 -> 0x0a
        0x4e, 0x90, // 0x06 JSR (A0)
        0x70, 0x02, // 0x08 MOVEQ #2,D0
        0x4e, 0x71, // 0x0a NOP (handler)
        0x4e, 0x75, // 0x0c RTS
    ];
    let analysis = analyze_entries(&code, &[0]);
    assert!(analysis.unresolved.contains(&UnresolvedFlow {
        owner: 0,
        address: 6
    }));
    assert_eq!(
        constant_before(
            &analysis,
            ValueOptions::default(),
            0x0c,
            RegisterKind::Data,
            0,
        ),
        Err(Unresolved::UnresolvedFlow),
        "the missing call edge let the fallthrough value look exact"
    );
}

#[test]
fn an_unresolved_call_in_one_owner_does_not_poison_its_shared_tail() {
    // Entry 0: MOVEQ #7,D0 ; shared: NOP ; RTS.
    // Entry 6: MOVEQ #7,D0 ; BEQ.S shared ; JSR (A0) ; RTS.
    // The second owner contains an unresolved call on its fallthrough path,
    // but both owners agree on D0 along the branch into the shared tail.
    let code = [
        0x70, 0x07, 0x4e, 0x71, 0x4e, 0x75, 0x70, 0x07, 0x67, 0xf8, 0x4e, 0x90, 0x4e, 0x75,
    ];
    let analysis = analyze_entries(&code, &[0, 6]);
    assert!(
        analysis
            .unresolved
            .items
            .iter()
            .any(|flow| flow.owner == 6 && flow.address == 10),
        "the second owner did not retain its unresolved call"
    );
    let shared = constant_before(&analysis, ValueOptions::default(), 4, RegisterKind::Data, 0)
        .expect("the shared owners establish the same value");
    assert_eq!(shared.value, 7);
    assert_eq!(shared.evidence, vec![0]);
}

#[test]
fn a_partial_write_does_not_establish_the_register() {
    // MOVE.W #1,D0 sets the low word only. Reporting `1` would answer for
    // 32 bits a write that touched 16.
    let code = [0x30, 0x3c, 0x00, 0x01, 0x4e, 0x75];
    assert_eq!(
        lookup(&code, 4, RegisterKind::Data, 0),
        Err(Unresolved::WriteNotValued)
    );
}

#[test]
fn an_exchange_invalidates_both_of_its_registers() {
    // MOVEQ #7,D0 ; EXG D0,D1 — after the swap D0 holds what D1 held, and
    // reporting 7 would be reporting the value the swap moved away.
    let code = [0x70, 0x07, 0xc1, 0x41, 0x4e, 0x75];
    assert_eq!(
        lookup(&code, 4, RegisterKind::Data, 0),
        Err(Unresolved::WriteNotValued)
    );
    assert_eq!(
        lookup(&code, 4, RegisterKind::Data, 1),
        Err(Unresolved::WriteNotValued)
    );
}

#[test]
fn a_postincrement_invalidates_the_register_it_walks() {
    // MOVEA.L #$1000,A1 ; MOVE.B (A1)+,D0 — A1 is $1001 at the RTS, and
    // the increment belongs to the addressing mode rather than to the
    // instruction's destination.
    let code = [
        0x22, 0x7c, 0x00, 0x00, 0x10, 0x00, // MOVEA.L #$1000,A1
        0x10, 0x19, // MOVE.B (A1)+,D0
        0x4e, 0x75, // RTS
    ];
    assert_eq!(
        lookup(&code, 8, RegisterKind::Address, 1),
        Err(Unresolved::WriteNotValued)
    );
    // The value it loaded is not knowable either, but D0 is not the point:
    // the point is that A1 stopped being $1000.
}

#[test]
fn a_long_postincrement_read_keeps_its_source_and_invalidates_its_base() {
    // MOVE.L (A0)+,D0 ; RTS. D0 names the longword consumed at this site,
    // while A0 itself has changed and cannot retain a stale exact value.
    let code = [0x20, 0x18, 0x4e, 0x75];
    assert_eq!(
        value_at(&code, 2, RegisterKind::Data, 0, None),
        Ok(TrackedValue::Symbolic(SymbolicValue {
            subject: SymbolicSubject::Contents,
            location: SymbolicLocation::RegisterPostincrement {
                register: 0,
                site: 0,
            },
            offset: 0,
            site: 0,
            evidence: vec![0],
        }))
    );
    assert_eq!(
        value_at(&code, 2, RegisterKind::Address, 0, None),
        Err(Unresolved::WriteNotValued)
    );
}

#[test]
fn a_long_predecrement_read_keeps_its_source_and_invalidates_its_base() {
    // MOVE.L -(A0),D0 ; RTS. The source is the longword at A0-4, while A0
    // itself changes and cannot retain a stale value.
    let code = [0x20, 0x20, 0x4e, 0x75];
    assert_eq!(
        value_at(&code, 2, RegisterKind::Data, 0, None),
        Ok(TrackedValue::Symbolic(SymbolicValue {
            subject: SymbolicSubject::Contents,
            location: SymbolicLocation::RegisterPredecrement {
                register: 0,
                site: 0,
            },
            offset: 0,
            site: 0,
            evidence: vec![0],
        }))
    );
    assert_eq!(
        value_at(&code, 2, RegisterKind::Address, 0, None),
        Err(Unresolved::WriteNotValued)
    );
}

#[test]
fn a_predecrement_symbolic_read_survives_a_register_copy() {
    // MOVE.L -(A0),D0 ; MOVE.L D0,D1 ; RTS
    let code = [0x20, 0x20, 0x22, 0x00, 0x4e, 0x75];
    let TrackedValue::Symbolic(value) =
        value_at(&code, 4, RegisterKind::Data, 1, None).expect("D1 keeps the source")
    else {
        panic!("the copied source should remain symbolic");
    };
    assert_eq!(
        value.location,
        SymbolicLocation::RegisterPredecrement {
            register: 0,
            site: 0,
        }
    );
    assert_eq!(value.site, 2);
    assert_eq!(value.evidence, vec![0, 2]);
}

#[test]
fn predecrement_reads_at_different_sites_do_not_join() {
    // TST.W D1 ; BEQ read2 ; read1: MOVE.L -(A0),D0 ; BRA join ;
    // read2: MOVE.L -(A0),D0 ; join: RTS.
    let code = [
        0x4a, 0x41, 0x67, 0x04, 0x20, 0x20, 0x60, 0x02, 0x20, 0x20, 0x4e, 0x75,
    ];
    assert_eq!(
        value_at(&code, 10, RegisterKind::Data, 0, None),
        Err(Unresolved::Join)
    );
}

#[test]
fn a_narrow_predecrement_load_names_the_preserved_high_bits() {
    // MOVE.W -(A0),D0 ; RTS leaves half of D0 caller-owned.
    let TrackedValue::Symbolic(value) =
        value_at(&[0x30, 0x20, 0x4e, 0x75], 2, RegisterKind::Data, 0, None).unwrap()
    else {
        panic!("the narrow read is symbolic");
    };
    assert_eq!(
        value.subject,
        SymbolicSubject::PreserveHigh {
            register: 0,
            read_site: 0,
            low_bytes: 2,
        }
    );
    // A truncated MOVE opcode establishes no source at all.
    assert_eq!(
        value_at(&[0x20], 0, RegisterKind::Data, 0, None),
        Err(Unresolved::NotDecoded)
    );
}

#[test]
fn postincrement_reads_at_different_sites_do_not_join() {
    // TST.W D1 ; BEQ read2 ; read1: MOVE.L (A0)+,D0 ; BRA join ;
    // read2: MOVE.L (A0)+,D0 ; join: RTS.
    let code = [
        0x4a, 0x41, 0x67, 0x04, 0x20, 0x18, 0x60, 0x02, 0x20, 0x18, 0x4e, 0x75,
    ];
    assert_eq!(
        value_at(&code, 10, RegisterKind::Data, 0, None),
        Err(Unresolved::Join)
    );
}

#[test]
fn a_predecrement_invalidates_its_register_too() {
    // MOVEA.L #$1000,A1 ; MOVE.B D0,-(A1)
    let code = [
        0x22, 0x7c, 0x00, 0x00, 0x10, 0x00, // MOVEA.L #$1000,A1
        0x13, 0x00, // MOVE.B D0,-(A1)
        0x4e, 0x75, // RTS
    ];
    assert_eq!(
        lookup(&code, 8, RegisterKind::Address, 1),
        Err(Unresolved::WriteNotValued)
    );
}

#[test]
fn a_negative_moveq_keeps_its_sign_extension() {
    // MOVEQ #-1,D0 leaves 0xffffffff, and reporting 0xff would be a
    // different claim about the register.
    let code = [0x70, 0xff, 0x4e, 0x75];
    let value = lookup(&code, 2, RegisterKind::Data, 0).expect("D0 is known");
    assert_eq!(value.value, 0xffff_ffff);
}

#[test]
fn a_later_unknowable_write_hides_an_earlier_constant() {
    // MOVE.L #1,D0 ; MOVE.L (A0),D0 ; RTS — the second write is what
    // reaches the end, and its value is not knowable here.
    let code = [
        0x20, 0x3c, 0x00, 0x00, 0x00, 0x01, // 0x00 MOVE.L #1,D0
        0x20, 0x10, // 0x06 MOVE.L (A0),D0
        0x4e, 0x75, // 0x08 RTS
    ];
    assert_eq!(
        lookup(&code, 8, RegisterKind::Data, 0),
        Err(Unresolved::WriteNotValued),
        "a register copy is a write this tracker cannot value, not a skip"
    );
}

#[test]
fn a_call_stops_the_walk_because_a_callee_may_clobber_anything() {
    // MOVEQ #7,D0 ; BSR.S sub ; RTS ; sub: RTS
    let code = [
        0x70, 0x07, // 0x00 MOVEQ #7,D0
        0x61, 0x02, // 0x02 BSR.S 0x06
        0x4e, 0x75, // 0x04 RTS
        0x4e, 0x75, // 0x06 RTS
    ];
    assert_eq!(
        lookup(&code, 4, RegisterKind::Data, 0),
        Err(Unresolved::Call),
        "a value from before a call was reported as still live"
    );
}

#[test]
fn a_join_stops_the_walk_because_the_value_depends_on_the_path() {
    // The two paths establish different values, so the join must retain
    // neither rather than picking whichever block the worklist saw first.
    let code = [
        0x4a, 0x40, // 0x00 TST.W D0
        0x67, 0x04, // 0x02 BEQ.S 0x08
        0x70, 0x01, // 0x04 MOVEQ #1,D0
        0x60, 0x02, // 0x06 BRA.S 0x0a
        0x70, 0x02, // 0x08 MOVEQ #2,D0
        0x4e, 0x75, // 0x0a RTS
    ];
    let analysis = analyze_entries(&code, &[0]);
    assert_eq!(
        constant_before(
            &analysis,
            ValueOptions::default(),
            10,
            RegisterKind::Data,
            0
        ),
        Err(Unresolved::Join),
        "one path's value survived an incompatible join"
    );
}

#[test]
fn a_symbolic_path_cannot_become_exact_at_a_join() {
    // TST.W D1 ; BEQ.S symbolic ; MOVEQ #7,D0 ; BRA.S join ;
    // symbolic: MOVE.L (A0),D0 ; join: RTS
    let code = [
        0x4a, 0x41, 0x67, 0x04, 0x70, 0x07, 0x60, 0x02, 0x20, 0x10, 0x4e, 0x75,
    ];
    let analysis = analyze_entries(&code, &[0]);
    assert_eq!(
        constant_before(
            &analysis,
            ValueOptions::default(),
            10,
            RegisterKind::Data,
            0
        ),
        Err(Unresolved::Join)
    );
}

#[test]
fn a_site_with_nothing_before_it_says_so() {
    // The first instruction of an entry has no recorded predecessor, which
    // is a different answer from "something before it was unreadable".
    let code = [0x70, 0x07, 0x4e, 0x75];
    assert_eq!(
        lookup(&code, 0, RegisterKind::Data, 0),
        Err(Unresolved::NoPredecessor)
    );
}

#[test]
fn an_offset_that_is_not_an_instruction_says_so() {
    // Offset 1 is the second byte of MOVEQ, not a site at all. Answering
    // anything about it would be answering about code nobody decoded.
    let code = [0x70, 0x07, 0x4e, 0x75];
    assert_eq!(
        lookup(&code, 1, RegisterKind::Data, 0),
        Err(Unresolved::NotDecoded)
    );
}

#[test]
fn a_long_copy_chain_stops_at_the_evidence_cap() {
    // Each copy is evidence for the resulting value. The chain is bounded
    // independently of the worklist so a hostile copy train cannot make
    // one report fact grow without limit.
    let mut code = vec![0x70, 0x07]; // MOVEQ #7,D0
    for index in 0..MAX_VALUE_EVIDENCE {
        code.extend_from_slice(if index % 2 == 0 {
            &[0x22, 0x00] // MOVE.L D0,D1
        } else {
            &[0x20, 0x01] // MOVE.L D1,D0
        });
    }
    let site = u32::try_from(code.len()).expect("fixture fits in u32");
    code.extend_from_slice(&[0x4e, 0x75]); // RTS
    let register = if MAX_VALUE_EVIDENCE % 2 == 0 {
        0
    } else {
        1
    };
    assert_eq!(
        lookup(&code, site, RegisterKind::Data, register),
        Err(Unresolved::StepLimit)
    );
}

#[test]
fn every_reason_has_a_distinct_label() {
    let mut labels: Vec<&str> = Unresolved::all().iter().map(|kind| kind.label()).collect();
    let count = labels.len();
    labels.sort_unstable();
    labels.dedup();
    assert_eq!(labels.len(), count, "two reasons share a label");
}

#[test]
fn the_label_matches_the_serialized_tag() {
    // The text renderers print `label()` and consumers read the JSON tag;
    // if they drift, two names exist for the same reason.
    let tags = [
        "not_decoded",
        "unresolved_flow",
        "join",
        "no_predecessor",
        "function_entry",
        "call",
        "write_not_valued",
        "step_limit",
        "unknown_register",
    ];
    let reasons = Unresolved::all();
    assert_eq!(reasons.len(), tags.len());
    for (reason, tag) in reasons.iter().zip(tags) {
        assert_eq!(reason.label(), tag);
    }
}

/// `LEA $1c.L,A0 ; RTS` — one address-bearing longword operand at offset 2.
const LEA_ABSOLUTE: [u8; 8] = [0x41, 0xf9, 0x00, 0x00, 0x00, 0x1c, 0x4e, 0x75];

/// `MOVE.L $1c.L,D0 ; RTS` — the same operand as a memory source.
const LOAD_ABSOLUTE: [u8; 8] = [0x20, 0x39, 0x00, 0x00, 0x00, 0x1c, 0x4e, 0x75];

fn relocations(hunk: u32, records: &[(u32, u32, u32)]) -> Relocations {
    Relocations::new(
        hunk,
        records
            .iter()
            .map(
                |&(patched, target_hunk, target_offset)| Relocation {
                    patched,
                    target_hunk,
                    target_offset,
                },
            )
            .collect::<Vec<_>>()
            .as_slice(),
    )
}

#[test]
fn an_address_relocated_into_another_hunk_is_never_a_number() {
    let relocations = relocations(0, &[(2, 1, 0x1c)]);
    let value = value_with_relocations(
        &LEA_ABSOLUTE,
        6,
        RegisterKind::Address,
        0,
        ValueOptions {
            image_origin: Some(0x2_1000),
        },
        relocations,
    )
    .expect("the relocation names the address");
    let TrackedValue::Symbolic(symbolic) = value else {
        panic!("a cross-hunk address was flattened into a number");
    };
    assert_eq!(symbolic.subject, SymbolicSubject::Address);
    assert_eq!(
        symbolic.location,
        SymbolicLocation::HunkRelative {
            hunk: 1,
            offset: 0x1c
        }
    );
    assert_eq!(symbolic.offset, 0);
    assert_eq!(symbolic.evidence, vec![0]);
}

#[test]
fn an_address_relocated_into_this_hunk_is_the_mapped_runtime_address() {
    // The stored longword is an offset, so a mapped image turns it into an
    // address; without the record the same bytes read as the address
    // itself, which is the misreading this exists to prevent.
    let relocations = relocations(0, &[(2, 0, 0x1c)]);
    let options = ValueOptions {
        image_origin: Some(0x2_1000),
    };
    let relocated = value_with_relocations(
        &LEA_ABSOLUTE,
        6,
        RegisterKind::Address,
        0,
        options,
        relocations,
    )
    .expect("a same-hunk relocation still yields a number");
    assert_eq!(
        relocated,
        TrackedValue::Exact(ConstantValue {
            value: 0x2_101c,
            site: 0,
            evidence: vec![0],
        })
    );
    let unrelocated = value_with(
        &LEA_ABSOLUTE,
        6,
        RegisterKind::Address,
        0,
        ValueOptions {
            image_origin: Some(0x2_1000),
        },
    )
    .expect("an encoded absolute address is a number");
    assert_eq!(
        unrelocated,
        TrackedValue::Exact(ConstantValue {
            value: 0x1c,
            site: 0,
            evidence: vec![0],
        })
    );
}

#[test]
fn a_hunk_offset_without_a_mapped_origin_stays_in_the_analysis_coordinate() {
    let relocations = relocations(0, &[(2, 0, 0x1c)]);
    let value = value_with_relocations(
        &LEA_ABSOLUTE,
        6,
        RegisterKind::Address,
        0,
        ValueOptions { image_origin: None },
        relocations,
    )
    .expect("the offset is the coordinate this analysis speaks");
    assert_eq!(
        value,
        TrackedValue::Exact(ConstantValue {
            value: 0x1c,
            site: 0,
            evidence: vec![0],
        })
    );
}

#[test]
fn an_overflowing_same_hunk_runtime_mapping_is_refused() {
    let relocations = relocations(0, &[(2, 0, 0x1c)]);
    assert_eq!(
        value_with_relocations(
            &LEA_ABSOLUTE,
            6,
            RegisterKind::Address,
            0,
            ValueOptions {
                image_origin: Some(0xffff_fff0),
            },
            relocations,
        ),
        Err(Unresolved::WriteNotValued)
    );
}

#[test]
fn an_overflowing_symbolic_runtime_mapping_keeps_only_the_image_offset() {
    let relocations = relocations(0, &[(2, 0, 0x1c)]);
    let value = value_with_relocations(
        &LOAD_ABSOLUTE,
        6,
        RegisterKind::Data,
        0,
        ValueOptions {
            image_origin: Some(0xffff_fff0),
        },
        relocations,
    )
    .expect("the hunk-relative source remains describable");
    let TrackedValue::Symbolic(symbolic) = value else {
        panic!("a memory read was given a numeric value");
    };
    assert_eq!(
        symbolic.location,
        SymbolicLocation::ImageRelative {
            offset: 0x1c,
            runtime_address: None,
        }
    );
}

#[test]
fn an_underflowing_pc_relative_address_is_refused() {
    // LEA (-4,PC),A0 has a PC base of 2 and therefore cannot be expressed
    // in the analysis' unsigned image coordinate.
    let code = [0x41, 0xfa, 0xff, 0xfc, 0x4e, 0x75];
    assert_eq!(
        value_at(&code, 4, RegisterKind::Address, 0, Some(0x1000)),
        Err(Unresolved::WriteNotValued)
    );
}

#[test]
fn movem_and_narrow_absolute_reads_use_the_operand_relocation() {
    for (code, patch, movem) in [
        (
            vec![0x4c, 0xf9, 0x00, 0x01, 0x00, 0x00, 0x00, 0x1c, 0x4e, 0x75],
            4,
            true,
        ),
        (
            vec![0x30, 0x39, 0x00, 0x00, 0x00, 0x1c, 0x4e, 0x75],
            2,
            false,
        ),
    ] {
        let site = code.len() as u32 - 2;
        let value = value_with_relocations(
            &code,
            site,
            RegisterKind::Data,
            0,
            ValueOptions::default(),
            relocations(0, &[(patch, 1, 0x1c)]),
        )
        .unwrap();
        let TrackedValue::Symbolic(value) = value else {
            panic!("relocated read is symbolic");
        };
        let expected = SymbolicLocation::HunkRelative {
            hunk: 1,
            offset: 0x1c,
        };
        if movem {
            assert_eq!(
                value.location,
                SymbolicLocation::MovemSlot {
                    base: Box::new(expected),
                    byte_offset: 0,
                    read_site: 0,
                }
            );
        } else {
            assert_eq!(value.location, expected);
            assert!(matches!(
                value.subject,
                SymbolicSubject::PreserveHigh { low_bytes: 2, .. }
            ));
        }
    }
}

#[test]
fn a_relocated_memory_source_names_its_hunk_rather_than_an_absolute_address() {
    for (record, expected) in [
        (
            (2, 1, 0x1c),
            SymbolicLocation::HunkRelative {
                hunk: 1,
                offset: 0x1c,
            },
        ),
        (
            (2, 0, 0x1c),
            SymbolicLocation::ImageRelative {
                offset: 0x1c,
                runtime_address: Some(0x2_101c),
            },
        ),
    ] {
        let relocations = relocations(0, &[record]);
        let value = value_with_relocations(
            &LOAD_ABSOLUTE,
            6,
            RegisterKind::Data,
            0,
            ValueOptions {
                image_origin: Some(0x2_1000),
            },
            relocations,
        )
        .expect("the source is describable");
        let TrackedValue::Symbolic(symbolic) = value else {
            panic!("a memory read was given a numeric value");
        };
        assert_eq!(symbolic.subject, SymbolicSubject::Contents);
        assert_eq!(symbolic.location, expected);
    }
}

#[test]
fn an_unpatched_absolute_source_is_still_absolute() {
    let relocations = relocations(0, &[]);
    let value = value_with_relocations(
        &LOAD_ABSOLUTE,
        6,
        RegisterKind::Data,
        0,
        ValueOptions {
            image_origin: Some(0x2_1000),
        },
        relocations,
    )
    .expect("the source is describable");
    let TrackedValue::Symbolic(symbolic) = value else {
        panic!("a memory read was given a numeric value");
    };
    assert_eq!(
        symbolic.location,
        SymbolicLocation::Absolute { address: 0x1c }
    );
}

#[test]
fn a_relocated_immediate_is_an_address_rather_than_an_amount() {
    // MOVEQ #1,D0 ; ADDI.L #$1c,D0 ; RTS — with the addend patched, `$1c`
    // names a hunk, so adding it would produce a number meaning nothing.
    let code = [
        0x70, 0x01, // 0x00 MOVEQ #1,D0
        0x06, 0x80, 0x00, 0x00, 0x00, 0x1c, // 0x02 ADDI.L #$1c,D0
        0x4e, 0x75, // 0x08 RTS
    ];
    let relocations = relocations(0, &[(4, 1, 0x1c)]);
    assert_eq!(
        value_with_relocations(
            &code,
            8,
            RegisterKind::Data,
            0,
            ValueOptions { image_origin: None },
            relocations,
        ),
        Err(Unresolved::WriteNotValued)
    );
    assert_eq!(
        value_with(&code, 8, RegisterKind::Data, 0, ValueOptions::default()),
        Ok(TrackedValue::Exact(ConstantValue {
            value: 0x1d,
            site: 2,
            evidence: vec![0, 2],
        })),
        "without the record the same bytes are an ordinary addition"
    );
}

#[test]
fn a_record_that_does_not_describe_the_operand_leaves_it_encoded() {
    // Two malformed shapes, both of which must fall back to the encoded
    // reading rather than assert an address the image does not support:
    // a record patching the opcode word, and one whose target offset
    // contradicts the longword actually stored there.
    for record in [(0, 1, 0x1c), (2, 1, 0x99)] {
        let relocations = relocations(0, &[record]);
        assert_eq!(
            value_with_relocations(
                &LEA_ABSOLUTE,
                6,
                RegisterKind::Address,
                0,
                ValueOptions { image_origin: None },
                relocations,
            ),
            Ok(TrackedValue::Exact(ConstantValue {
                value: 0x1c,
                site: 0,
                evidence: vec![0],
            })),
            "{record:?} was allowed to rename an operand it does not cover"
        );
    }
}

#[test]
fn an_address_and_the_contents_at_it_do_not_join() {
    // Both paths reach A0 with the same location, but one carries the
    // pointer and the other the longword stored there.
    let code = [
        0x67, 0x08, // 0x00 BEQ.B 0x0a
        0x20, 0x79, 0x00, 0x00, 0x00, 0x1c, // 0x02 MOVEA.L $1c.L,A0
        0x60, 0x06, // 0x08 BRA.B 0x10
        0x41, 0xf9, 0x00, 0x00, 0x00, 0x1c, // 0x0a LEA $1c.L,A0
        0x4e, 0x75, // 0x10 RTS
    ];
    let relocations = relocations(0, &[(4, 1, 0x1c), (0x0c, 1, 0x1c)]);
    assert_eq!(
        value_with_relocations(
            &code,
            0x10,
            RegisterKind::Address,
            0,
            ValueOptions { image_origin: None },
            relocations,
        ),
        Err(Unresolved::Join)
    );
}

#[test]
fn a_register_name_parses_only_in_its_own_space() {
    assert_eq!(parse_register("d0"), Some((RegisterKind::Data, 0)));
    assert_eq!(parse_register("A6"), Some((RegisterKind::Address, 6)));
    assert_eq!(parse_register(" d1 "), Some((RegisterKind::Data, 1)));
    for bad in ["d8", "a9", "x0", "d", "d10", "sp"] {
        assert_eq!(parse_register(bad), None, "{bad:?} parsed");
    }
}
