use std::cell::Cell;
use std::collections::BTreeSet;

use amiga_disasm::{
    analyze, analyze_entries, analyze_entries_cancellable, analyze_entries_with, constant_before,
    fixed_point_scales, run, ControlFlowAnalysis, FlowKind, FlowOptions, Memory, Rebase,
    RegisterKind, Relocation, Relocations, RunOptions, StopReason, UnresolvedFlow, ValueOptions,
};
use amiga_disasm::collections::AddressMap;
use amiga_disasm::control_flow::{
    analyze_entries_once, Cancel, Cancelled, ITEMS_PER_CHECKPOINT,
};

fn put(code: &mut [u8], offset: usize, bytes: &[u8]) {
    code[offset..offset + bytes.len()].copy_from_slice(bytes);
}

fn word_table(table: usize) -> Vec<u8> {
    let mut code = vec![0; (table + 4).max(32)];
    put(
        &mut code,
        0,
        &[
            0x0c,
            0x40,
            0x00,
            0x01, // CMPI.W #1,D0
            0x62,
            0x0a, // BHI default (16)
            0xd0,
            0x40, // ADD.W D0,D0
            0x32,
            0x3b,
            0x00,
            u8::try_from(table - 10).unwrap(), // MOVE.W table(PC,D0.W),D1
            0x4e,
            0xfb,
            0x10,
            u8::try_from(table - 14).unwrap(), // JMP table(PC,D1.W)
            0x4e,
            0x75, // default: RTS
        ],
    );
    for (index, target) in [24, 28].into_iter().enumerate() {
        let displacement = i16::try_from(target - i32::try_from(table).unwrap()).unwrap();
        put(&mut code, table + index * 2, &displacement.to_be_bytes());
    }
    put(&mut code, 24, &[0x74, 0x01, 0x4e, 0x75]); // case 0: MOVEQ #1,D2 ; RTS
    put(&mut code, 28, &[0x74, 0x02, 0x4e, 0x75]); // case 1: MOVEQ #2,D2 ; RTS
    code
}

fn pointer_table(origin: u32) -> Vec<u8> {
    let mut code = vec![0; 36];
    put(
        &mut code,
        0,
        &[
            0x0c, 0x40, 0x00, 0x01, // CMPI.W #1,D0
            0x62, 0x0a, // BHI default (16)
            0xe5, 0x48, // LSL.W #2,D0
            0x20, 0x7b, 0x00, 0x0a, // MOVEA.L table(PC,D0.W),A0
            0x4e, 0xd0, // JMP (A0)
            0x4e, 0x71, // unreached padding
            0x4e, 0x75, // default: RTS
        ],
    );
    put(&mut code, 20, &(origin + 28).to_be_bytes());
    put(&mut code, 24, &(origin + 32).to_be_bytes());
    put(&mut code, 28, &[0x74, 0x01, 0x4e, 0x75]);
    put(&mut code, 32, &[0x74, 0x02, 0x4e, 0x75]);
    code
}

fn branch_targets(analysis: &ControlFlowAnalysis, site: u32) -> BTreeSet<u32> {
    analysis
        .flows
        .items
        .iter()
        .filter(|flow| flow.site == site && flow.kind == FlowKind::Branch)
        .map(|flow| flow.target)
        .collect()
}

fn assert_unresolved(code: &[u8]) {
    let analysis = analyze(code, 0);
    assert!(
        analysis.unresolved.contains(&UnresolvedFlow {
            owner: 0,
            address: 12
        }),
        "{analysis:?}"
    );
    assert!(branch_targets(&analysis, 12).is_empty());
}

#[test]
fn recovers_relative_words_with_positive_and_negative_offsets() {
    for table in [20, 32] {
        let analysis = analyze(&word_table(table), 0);
        assert!(analysis.unresolved.is_empty(), "{analysis:?}");
        assert_eq!(branch_targets(&analysis, 12), BTreeSet::from([24, 28]));
        assert_eq!(analysis.instructions.get(24).unwrap().encoded, [0x74, 0x01]);
        assert_eq!(analysis.instructions.get(28).unwrap().encoded, [0x74, 0x02]);
        assert_eq!(analysis.instructions.get(28).unwrap().owners.items, Vec::from([0]));
        assert!(
            !analysis
                .instructions
                .contains_key(u32::try_from(table).unwrap())
        );
    }
}

#[test]
fn recovers_word_tables_using_an_address_register_base() {
    // LEA table(PC),A0 before the guard, then (A0,D0.W)/(A0,D1.W).
    let code = [
        0x41, 0xfa, 0x00, 0x16, 0x0c, 0x40, 0x00, 0x01, 0x62, 0x0a, 0xd0, 0x40, 0x32, 0x30,
        0x00, 0x00, 0x4e, 0xf0, 0x10, 0x00, 0x4e, 0x75, 0, 0, 0x00, 0x04, 0x00, 0x08, 0x74,
        0x01, 0x4e, 0x75, 0x74, 0x02, 0x4e, 0x75,
    ];
    let analysis = analyze(&code, 0);
    assert!(analysis.unresolved.is_empty(), "{analysis:?}");
    assert_eq!(branch_targets(&analysis, 16), BTreeSet::from([28, 32]));
    // An independent entry after LEA cannot inherit its table base.
    let analysis = analyze_entries(&code, &[0, 4]);
    assert!(branch_targets(&analysis, 16).is_empty());
    assert!(!analysis.unresolved.is_empty());
}

#[test]
fn recovers_absolute_pointer_tables_in_plain_and_rebased_images() {
    for origin in [0, 0x10000] {
        let analysis = analyze_entries_with(
            &pointer_table(origin),
            &[0],
            &FlowOptions {
                rebase: (origin != 0).then_some(Rebase::new(origin)),
                relocations: None,
            },
        );
        assert!(analysis.unresolved.is_empty(), "{analysis:?}");
        assert_eq!(branch_targets(&analysis, 12), BTreeSet::from([28, 32]));
        assert_eq!(analysis.instructions.get(32).unwrap().encoded, [0x74, 0x02]);
        assert_eq!(analysis.functions.items, Vec::from([0]));
    }
}

#[test]
fn pointer_relocations_override_rebase_and_cross_hunk_entries_are_refused() {
    for other_hunk in [false, true] {
        let analysis = analyze_entries_with(
            &pointer_table(0),
            &[0],
            &FlowOptions {
                rebase: Some(Rebase::new(0x10000)),
                relocations: Some(Relocations::new(
                    0,
                    &[
                        Relocation {
                            patched: 20,
                            target_hunk: 0,
                            target_offset: 28,
                        },
                        Relocation {
                            patched: 24,
                            target_hunk: u32::from(other_hunk),
                            target_offset: 32,
                        },
                    ],
                )),
            },
        );
        if other_hunk {
            assert!(branch_targets(&analysis, 12).is_empty());
            assert!(!analysis.unresolved.is_empty());
        } else {
            assert!(analysis.unresolved.is_empty(), "{analysis:?}");
            assert_eq!(branch_targets(&analysis, 12), BTreeSet::from([28, 32]));
        }
    }
}

#[test]
fn accepts_double_add_scaling_and_long_indices() {
    let mut code = pointer_table(0);
    // Replace LSL.W with two ADD.W instructions; move table/body offsets.
    code.splice(6..8, [0xd0, 0x40, 0xd0, 0x40]);
    code[5] += 2;
    put(&mut code, 22, &30_u32.to_be_bytes());
    put(&mut code, 26, &34_u32.to_be_bytes());
    let analysis = analyze(&code, 0);
    assert!(analysis.unresolved.is_empty(), "{analysis:?}");
    assert_eq!(branch_targets(&analysis, 14), BTreeSet::from([30, 34]));

    let mut code = pointer_table(0);
    // Widen CMPI, LSL and the lookup index together.
    code.splice(0..4, [0x0c, 0x80, 0, 0, 0, 1]);
    code[9] = 0x88;
    code[12] = 0x08;
    put(&mut code, 22, &30_u32.to_be_bytes());
    put(&mut code, 26, &34_u32.to_be_bytes());
    let analysis = analyze(&code, 0);
    assert!(analysis.unresolved.is_empty(), "{analysis:?}");
    assert_eq!(branch_targets(&analysis, 14), BTreeSet::from([30, 34]));
}

#[test]
fn rejects_missing_or_signed_guards_wrong_registers_and_wrong_scaling() {
    for (offset, replacement) in [
        (0, &[0x4e, 0x71, 0x4e, 0x71][..]), // no comparison
        (4, &[0x6e]),                       // BGT is signed; negative indices remain possible
        (1, &[0x41]),                       // compares D1 rather than D0
        (6, &[0x52, 0x40]),                 // ADDQ is not index scaling
        (7, &[0x80]),                       // long scaling after a word comparison
        (10, &[0x08]),                      // long index after a word comparison
        (10, &[0x02]),                      // 68020 scale bits
        (14, &[0x18]),                      // long jump index after a word table load
    ] {
        let mut code = word_table(20);
        put(&mut code, offset, replacement);
        assert_unresolved(&code);
    }
}

#[test]
fn rejects_bad_entries_and_does_not_accept_a_valid_prefix() {
    for bad in [1_i16, 0, -14, 0x7fff, i16::MIN] {
        let mut code = word_table(20);
        // First entry is valid. Second is odd, inside table/dispatch, or outside image.
        put(&mut code, 22, &bad.to_be_bytes());
        assert_unresolved(&code);
    }
    for bad in [0xffff_ffff_u32, 29, 20, 6, 0x10000] {
        let mut code = pointer_table(0);
        put(&mut code, 24, &bad.to_be_bytes());
        assert_unresolved(&code);
    }
    let mut code = word_table(32);
    code.truncate(35); // partial final table entry
    assert_unresolved(&code);
    let mut code = pointer_table(0);
    code.truncate(33); // final target has only one byte of its opcode
    assert_unresolved(&code);
    let mut code = word_table(20);
    put(&mut code, 28, &[0xff, 0xff]); // unknown target instruction
    assert_unresolved(&code);
}

#[test]
fn guard_count_is_complete_and_bounded() {
    let mut code = word_table(20);
    code[3] = 0; // exactly one possible index
    let analysis = analyze(&code, 0);
    assert!(analysis.unresolved.is_empty());
    assert_eq!(branch_targets(&analysis, 12), BTreeSet::from([24]));
    code[2] = 1; // 257 entries exceed the explicit budget
    assert_unresolved(&code);
    code[2] = 0xff;
    code[3] = 0xff;
    assert_unresolved(&code);
}

#[test]
fn rejects_a_guard_bypass_discovered_through_a_table_target() {
    let mut code = word_table(20);
    // A case jumps into the scaling step, bypassing CMP/BHI. This edge is
    // discovered only after table recovery, and must revoke that recovery.
    put(&mut code, 24, &[0x60, 0xec]); // BRA 6
    assert_unresolved(&code);
    let analysis = analyze(&code, 0);
    assert!(!analysis.instructions.contains_key(24));
}

#[test]
fn rejects_known_alternate_entries_and_overlapping_code() {
    let code = word_table(20);
    for extra in [6, 8, 12, 20] {
        let analysis = analyze_entries(&code, &[0, extra]);
        assert!(
            branch_targets(&analysis, 12).is_empty(),
            "entry {extra}: {analysis:?}"
        );
        assert!(!analysis.unresolved.is_empty());
    }
}

#[test]
fn malformed_data_dispatch_cannot_fall_back_to_nearby_bra_stubs() {
    let mut code = word_table(20);
    code.resize(40, 0);
    put(&mut code, 0, &[0x4e, 0x71, 0x4e, 0x71]); // no guard comparison
    put(&mut code, 24, &[0x60, 0x00, 0x00, 0x08]); // plausible unrelated BRA.W
    assert_unresolved(&code);
}
#[test]
fn recovered_edges_agree_with_bounded_execution() {
    let origin = 0x1000;
    for code in [word_table(20), word_table(32), pointer_table(origin)] {
        let analysis = analyze_entries_with(
            &code,
            &[0],
            &FlowOptions {
                rebase: Some(Rebase::new(origin)),
                relocations: None,
            },
        );
        let targets = branch_targets(&analysis, 12);
        assert_eq!(targets.len(), 2);
        // Word comparison/indexing must ignore arbitrary upper D0 bits,
        // and BHI must exclude negative words as well as index 2.
        for (input, expected) in [(0, 1), (1, 2), (0xabcd_0001, 2), (2, 0), (0xffff, 0)] {
            let mut memory = Memory::new();
            memory.map(origin, 0x1000).unwrap();
            memory.load(origin, &code).unwrap();
            let mut options = RunOptions::new(origin + 0x1000, 0xffff_fffc);
            options.max_steps = 32;
            options.data[0] = input;
            let result = run(&mut memory, origin, &options);
            assert_eq!(result.stop, StopReason::Returned, "{input:x}: {result:?}");
            assert_eq!(result.registers.d[2], expected);
            if expected != 0 {
                assert!(
                    result
                        .steps
                        .iter()
                        .any(|step| targets.contains(&(step.address - origin)))
                );
            }
        }
    }
}

#[test]
fn table_recovery_restores_constant_and_scale_propagation() {
    let mut code = word_table(20);
    // Establish a constant before the guarded dispatch. PC-relative table
    // bytes remain unchanged when the entire routine shifts together.
    code.splice(0..0, [0x78, 0x07]); // MOVEQ #7,D4
    let analysis = analyze(&code, 0);
    for target in [26, 30] {
        assert_eq!(
            constant_before(
                &analysis,
                ValueOptions::default(),
                target,
                RegisterKind::Data,
                4
            )
            .unwrap()
            .value,
            7
        );
    }
    let mut code = word_table(20);
    put(&mut code, 24, &[0x24, 0x03]); // MOVE.L D3,D2
    put(&mut code, 28, &[0x24, 0x03]);
    code.splice(0..0, [0xc7, 0xc1, 0xe0, 0x83]); // MULS ; ASR #8
    let analysis = analyze(&code, 0);
    let scales = fixed_point_scales(&analysis);
    for target in [28, 32] {
        assert!(
            scales.iter().any(|scale| scale.site == target
                && scale.register == 2
                && scale.fractional_bits == 8),
            "{scales:?}"
        );
    }
}

#[test]
fn accepts_the_full_entry_budget_and_deduplicates_edges_without_truncation() {
    let mut code = word_table(20);
    code.resize(548, 0);
    code[3] = 255;
    for index in 0..256 {
        put(&mut code, 20 + index * 2, &520_i16.to_be_bytes());
    }
    put(&mut code, 540, &[0x74, 0x01, 0x4e, 0x75]);
    let analysis = analyze(&code, 0);
    assert!(analysis.unresolved.is_empty(), "{analysis:?}");
    assert_eq!(branch_targets(&analysis, 12), BTreeSet::from([540]));
    // The last entry still matters even though every earlier target is identical.
    put(&mut code, 530, &i16::MAX.to_be_bytes());
    assert_unresolved(&code);
}

#[test]
fn rejects_a_branch_into_an_instruction_extension_word() {
    let mut code = word_table(20);
    // First case begins with MOVE.L #imm,D2, so the second target (28)
    // would enter its immediate. Only the expanded traversal reveals this.
    code.resize(34, 0);
    put(&mut code, 24, &[0x24, 0x3c, 0, 0, 0x4e, 0x75, 0x4e, 0x75]);
    assert_unresolved(&code);
}
fn nested_tables(count: usize) -> Vec<u8> {
    let mut code = Vec::new();
    for index in 0..count {
        let mut part = word_table(20);
        if index + 1 < count {
            put(&mut part, 24, &[0x60, 0x00, 0x00, 0x06]); // BRA.W next dispatch
        }
        code.extend_from_slice(&part);
    }
    code
}

#[test]
fn nested_tables_are_discovered_and_excessive_depth_stays_unresolved() {
    let analysis = analyze(&nested_tables(2), 0);
    assert!(analysis.unresolved.is_empty());
    assert_eq!(branch_targets(&analysis, 12), BTreeSet::from([24, 28]));
    assert_eq!(branch_targets(&analysis, 44), BTreeSet::from([56, 60]));
    let analysis = analyze(&nested_tables(9), 0);
    assert!(analysis.unresolved.contains(&UnresolvedFlow {
        owner: 0,
        address: 12
    }));
    assert!(branch_targets(&analysis, 12).is_empty());
    assert!(!analysis.instructions.contains_key(32));
}

#[test]
fn a_nested_case_cannot_bypass_an_earlier_tables_guard() {
    let mut code = nested_tables(2);
    put(&mut code, 56, &[0x60, 0x00, 0xff, 0xcc]); // BRA.W 6
    let analysis = analyze(&code, 0);
    assert!(analysis.unresolved.contains(&UnresolvedFlow {
        owner: 0,
        address: 12
    }));
    assert!(branch_targets(&analysis, 12).is_empty());
    assert!(!analysis.instructions.contains_key(32));
}

#[test]
fn discovery_observes_cancellation_without_returning_partial_edges() {
    struct CancelDiscovery(Cell<usize>);
    impl Cancel for CancelDiscovery {
        fn may_fire(&self) -> bool {
            true
        }
        fn is_up(&self) -> bool {
            false
        }
        fn is_cancelled(&self) -> bool {
            let calls = self.0.get();
            self.0.set(calls + 1);
            calls >= 1
        }
    }
    let result = analyze_entries_cancellable(
        &word_table(20),
        &[0],
        &FlowOptions::default(),
        &CancelDiscovery(Cell::new(0)),
    );
    assert!(matches!(result, Err(Cancelled)));
}

#[test]
fn resolves_absolute_lea_bases_through_rebase_and_relocations() {
    for relocated in [false, true] {
        let mut code = vec![
            0x41, 0xf9, 0, 0, 0, 26, // LEA table.L,A0
            0x0c, 0x40, 0, 1, 0x62, 0x0a, 0xd0, 0x40, 0x32, 0x30, 0, 0, 0x4e, 0xf0, 0x10, 0,
            0x4e, 0x75, 0, 0, // default/pad
            0, 4, 0, 8, 0x74, 1, 0x4e, 0x75, 0x74, 2, 0x4e, 0x75,
        ];
        if !relocated {
            put(&mut code, 2, &0x1001a_u32.to_be_bytes());
        }
        let analysis = analyze_entries_with(
            &code,
            &[0],
            &FlowOptions {
                rebase: Some(Rebase::new(0x10000)),
                relocations: if relocated {
                    Some(Relocations::new(
                        0,
                        &[Relocation {
                            patched: 2,
                            target_hunk: 0,
                            target_offset: 26,
                        }],
                    ))
                } else {
                    None
                },
            },
        );
        assert!(analysis.unresolved.is_empty(), "{analysis:?}");
        assert_eq!(branch_targets(&analysis, 18), BTreeSet::from([30, 34]));
    }
}

/// A signal that fired before the traversal began.
struct Raised;

impl Cancel for Raised {
    fn may_fire(&self) -> bool {
        true
    }
    fn is_up(&self) -> bool {
        true
    }
    fn is_cancelled(&self) -> bool {
        true
    }
}

#[test]
fn a_signal_that_is_up_stops_every_analysis() {
    let options = FlowOptions::default();
    for code in [vec![], vec![0x4e, 0x75], word_table(20)] {
        assert!(matches!(
            analyze_entries_cancellable(&code, &[0], &options, &Raised),
            Err(Cancelled)
        ));
    }
    assert!(matches!(
        analyze_entries_cancellable(&[0x4e, 0x75], &[], &options, &Raised),
        Err(Cancelled)
    ));
}

#[test]
fn one_traversal_looks_at_the_signal_at_its_checkpoints_only() {
    let options = FlowOptions::default();
    let tables = AddressMap::new();
    // ILLEGAL throughout, so that every entry is one item.
    let code: Vec<u8> = [0x4a, 0xfc].repeat(0x800);
    let few: Vec<u32> = (0..ITEMS_PER_CHECKPOINT as u32 - 1).map(|i| i * 2).collect();
    let many: Vec<u32> = (0..ITEMS_PER_CHECKPOINT as u32).map(|i| i * 2).collect();
    assert!(analyze_entries_once(&code, &few, &options, &tables, &Raised).is_ok());
    assert!(matches!(
        analyze_entries_once(&code, &many, &options, &tables, &Raised),
        Err(Cancelled)
    ));
}
