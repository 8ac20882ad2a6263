use std::collections::BTreeSet;

use amiga_disasm::{
    analyze, analyze_entries, analyze_entries_with, ExternalFlow, ExternalKind, FlowEdge, FlowKind,
    FlowOptions, Rebase, Relocation, Relocations, UnresolvedFlow,
};
use amiga_disasm::decoded::MAX_INSTRUCTION_OWNERS;
use amiga_disasm::m68k::{isa_of_opcode, Isa};

#[test]
fn follows_calls_branches_and_fallthrough() {
    let code = [
        0x61, 0x00, 0x00, 0x04, 0x4e, 0x75, 0x60, 0x02, 0x4e, 0x71, 0x4e, 0x75, 0, 0, 0, 0,
    ];
    let analysis = analyze(&code, 0);
    assert!(analysis.functions.contains(&0));
    assert!(analysis.functions.contains(&6));
    assert!(analysis.instructions.contains_key(4));
    assert!(analysis.instructions.contains_key(6));
    assert!(analysis.instructions.contains_key(10));
    assert_eq!(analysis.calls.len(), 1);
    assert!(analysis.flows.contains(&FlowEdge {
        owner: 0,
        site: 0,
        target: 6,
        kind: FlowKind::Call,
    }));
    assert!(analysis.flows.contains(&FlowEdge {
        owner: 0,
        site: 0,
        target: 4,
        kind: FlowKind::Fallthrough,
    }));
}

#[test]
fn an_undecodable_word_stops_the_walk_and_is_reported() {
    // NOP ; $4EC0 (a JMP encoding with an invalid mode — no such
    // instruction) ; RTS. The walk must stop at the bad word rather than
    // decode the bytes after it as code on an unknown instruction length.
    let code = [0x4e, 0x71, 0x4e, 0xc0, 0x4e, 0x75];
    let analysis = analyze(&code, 0);
    assert_eq!(isa_of_opcode(0x4ec0), Isa::Unknown);
    assert!(analysis.instructions.contains_key(0));
    assert!(
        analysis.unresolved.contains(&UnresolvedFlow {
            owner: 0,
            address: 2
        }),
        "the undecodable word must be reported, not silently skipped"
    );
    assert!(
        !analysis.instructions.contains_key(4),
        "nothing after an undecodable word is code this walk established"
    );
}

#[test]
fn movec_has_its_extension_word_and_falls_through() {
    // MOVEC VBR,D0 ; RTS. MOVEC starts with an opcode the pinned MC68000
    // decoder cannot name, but Motorola defines it as a four-byte,
    // straight-line MC68010+ instruction.
    let code = [0x4e, 0x7a, 0x08, 0x01, 0x4e, 0x75];
    let analysis = analyze(&code, 0);
    let movec = analysis.instructions.get(0).expect("MOVEC decoded");
    assert_eq!(movec.end, 4);
    assert_eq!(movec.encoded, code[..4]);
    assert_eq!(movec.text(), "MOVEC VBR,D0");
    assert!(analysis.instructions.contains_key(4));
    assert!(analysis.unresolved.is_empty());
}

#[test]
fn movec_with_an_undefined_control_register_still_stops() {
    let code = [0x4e, 0x7a, 0x00, 0x03, 0x4e, 0x75];
    let analysis = analyze(&code, 0);
    assert!(analysis.unresolved.contains(&UnresolvedFlow {
        owner: 0,
        address: 0,
    }));
    assert!(!analysis.instructions.contains_key(4));
}

#[test]
fn analyzes_multiple_external_entry_points() {
    let code = [0x4e, 0x75, 0x4e, 0x71, 0x4e, 0x75, 0x4e, 0x71];
    let analysis = analyze_entries(&code, &[0, 4]);
    assert_eq!(analysis.functions.items, Vec::from([0, 4]));
    assert!(analysis.instructions.contains_key(0));
    assert!(analysis.instructions.contains_key(4));
    assert!(!analysis.instructions.contains_key(2));
}

/// Two entries joining at 0x08: entry 0 branches there, entry 4 falls into
/// it. The shared block runs NOP, BSR, JMP (A0).
fn joined_entries() -> [u8; 16] {
    [
        0x60, 0x00, 0x00, 0x06, // 0x00 entry A: BRA.W 0x08
        0x4e, 0x71, // 0x04 entry B: NOP
        0x4e, 0x71, // 0x06 NOP
        0x4e, 0x71, // 0x08 shared: NOP
        0x61, 0x02, // 0x0a BSR.S 0x0e
        0x4e, 0xd0, // 0x0c JMP (A0) (unresolved)
        0x4e, 0x75, // 0x0e sub: RTS
    ]
}

#[test]
fn ownership_reaches_the_whole_shared_block_not_just_its_first_instruction() {
    // Entry 4's traversal decodes the shared block first. Entry 0 arrives
    // at 0x08 afterwards and must own the rest of the block too, or every
    // consumer of ownership — callees, per-function summaries, join
    // checks — attributes shared code to whichever entry happened to run
    // first.
    let analysis = analyze_entries(&joined_entries(), &[0, 4]);
    let both = vec![0, 4];
    for address in [0x08, 0x0a, 0x0c] {
        assert_eq!(
            analysis.instructions.get(address).unwrap().owners.items, both,
            "instruction {address:#x} of the shared block"
        );
    }
    // Instructions before the join stay owned by the entry that reaches
    // them: propagation must not make ownership universal.
    assert_eq!(
        analysis.instructions.get(0x00).unwrap().owners.items,
        Vec::from([0]),
        "entry A's own instruction"
    );
    assert_eq!(
        analysis.instructions.get(0x06).unwrap().owners.items,
        Vec::from([4]),
        "entry B's own instruction"
    );
    // Nothing was refused, so the count matches the set exactly.
    for address in [0x00, 0x06, 0x08, 0x0a, 0x0c] {
        let decoded = analysis.instructions.get(address).unwrap();
        assert_eq!(decoded.owner_total, decoded.owners.len());
    }
}

#[test]
fn ownership_propagation_stops_at_the_cap_and_says_so() {
    // Every entry is a `BRA.W` into one shared tail, so the tail would
    // otherwise be walked once per entry. The cap bounds that, and
    // `owner_total` keeps the truncation visible instead of silent.
    let count = MAX_INSTRUCTION_OWNERS + 5;
    let tail = u32::try_from(4 * count).unwrap_or_else(|error| panic!("{error:?}"));
    let mut code = Vec::new();
    for index in 0..count {
        let site = u32::try_from(4 * index).unwrap_or_else(|error| panic!("{error:?}"));
        let displacement = i16::try_from(i64::from(tail) - i64::from(site) - 2)
            .unwrap_or_else(|error| panic!("{error:?}"));
        code.extend_from_slice(&[0x60, 0x00]);
        code.extend_from_slice(&displacement.to_be_bytes());
    }
    code.extend_from_slice(&[0x4e, 0x71, 0x4e, 0x75]); // NOP ; RTS
    let entries: Vec<u32> = (0..count)
        .map(|index| u32::try_from(4 * index).unwrap_or_else(|error| panic!("{error:?}")))
        .collect();

    let analysis = analyze_entries(&code, &entries);

    let head = analysis.instructions.get(tail).unwrap();
    assert_eq!(head.owners.len(), MAX_INSTRUCTION_OWNERS);
    assert_eq!(head.owner_total, count, "refused owners are still counted");
    // The listed owners are the lowest entries, in offset order.
    assert_eq!(
        head.owners.items.iter().copied().collect::<Vec<u32>>(),
        entries[..MAX_INSTRUCTION_OWNERS]
    );
    // A refused owner stops walking, so it never reaches the RTS either.
    let rts = analysis.instructions.get((tail + 2)).unwrap();
    assert_eq!(rts.owners.len(), MAX_INSTRUCTION_OWNERS);
    assert!(
        rts.owner_total <= count,
        "beyond the cap the count is a lower bound, never an overcount"
    );
}

#[test]
fn every_owner_of_a_shared_block_records_its_calls_and_unresolved_exits() {
    let analysis = analyze_entries(&joined_entries(), &[0, 4]);
    // The call in the shared block belongs to both entries.
    assert_eq!(
        analysis
            .calls
            .items
            .iter()
            .filter(|call| call.call_site == 0x0a)
            .map(|call| call.caller)
            .collect::<BTreeSet<_>>(),
        BTreeSet::from([0, 4])
    );
    // So does the unresolved exit that ends it.
    assert_eq!(
        analysis
            .unresolved
            .items
            .iter()
            .filter(|flow| flow.address == 0x0c)
            .map(|flow| flow.owner)
            .collect::<BTreeSet<_>>(),
        BTreeSet::from([0, 4])
    );
    // One call and one unresolved site all the same: the statistics count
    // distinct sites, not one per owner.
    let call_sites: BTreeSet<u32> =
        analysis.calls.items.iter().map(|call| call.call_site).collect();
    assert_eq!(call_sites.len(), 1);
    let unresolved_sites: BTreeSet<u32> =
        analysis.unresolved.items.iter().map(|flow| flow.address).collect();
    assert_eq!(unresolved_sites.len(), 1);
}

#[test]
fn recovers_pc_indexed_branch_tables() {
    let code = [
        0x4e, 0xfb, 0x00, 0x02, 0x60, 0x00, 0x00, 0x06, 0x60, 0x00, 0x00, 0x06, 0x4e, 0x71,
        0x4e, 0x75, 0x4e, 0x75, 0, 0, 0, 0, 0, 0, 0, 0,
    ];
    let analysis = analyze(&code, 0);
    assert!(analysis.instructions.contains_key(12));
    assert!(analysis.instructions.contains_key(16));
    assert!(analysis.unresolved.is_empty());
    assert_eq!(analysis.functions.items, Vec::from([0]));
}

#[test]
fn promotes_a_forward_direct_jump_to_an_unseeded_prologue() {
    // JMP $8.L ; NOP ; target: MOVEM.L D0,-(A7) ;
    // MOVEM.L (A7)+,D0 ; RTS
    let code = [
        0x4e, 0xf9, 0, 0, 0, 8, 0x4e, 0x71, 0x48, 0xe7, 0x80, 0x00, 0x4c, 0xdf, 0x00, 0x01,
        0x4e, 0x75,
    ];
    let analysis = analyze(&code, 0);
    assert_eq!(analysis.functions.items, Vec::from([0, 8]));
    assert_eq!(analysis.instructions.get(8).unwrap().owners.items, Vec::from([0, 8]));
    assert!(analysis.flows.contains(&FlowEdge {
        owner: 0,
        site: 0,
        target: 8,
        kind: FlowKind::Branch,
    }));
}

#[test]
fn a_shared_epilogue_is_not_promoted_to_a_function() {
    // BEQ target ; JMP target ; NOP ; NOP ; target: RTS. Two distinct
    // incoming transfers make this a shared block, not an inferred entry.
    let code = [
        0x67, 0x0a, 0x4e, 0xf9, 0, 0, 0, 12, 0x4e, 0x71, 0x4e, 0x71, 0x4e, 0x75,
    ];
    let analysis = analyze(&code, 0);
    assert_eq!(analysis.functions.items, Vec::from([0]));
    assert_eq!(analysis.instructions.get(12).unwrap().owners.items, Vec::from([0]));
}

#[test]
fn a_backward_direct_jump_stays_an_intrafunction_branch() {
    // target: MOVEM.L D0,-(A7) ; MOVEM.L (A7)+,D0 ; RTS ; JMP target.
    let code = [
        0x48, 0xe7, 0x80, 0x00, 0x4c, 0xdf, 0x00, 0x01, 0x4e, 0x75, 0x4e, 0xf9, 0, 0, 0, 0,
    ];
    let analysis = analyze(&code, 10);
    assert_eq!(analysis.functions.items, Vec::from([10]));
}

#[test]
fn a_frameless_forward_jump_without_boundary_evidence_stays_ambiguous() {
    // JMP $8.L ; NOP ; target: MOVEQ #1,D0 ; RTS. The target may be an
    // ordinary block, so a return reachable from it is not enough.
    let code = [0x4e, 0xf9, 0, 0, 0, 8, 0x4e, 0x71, 0x70, 0x01, 0x4e, 0x75];
    let analysis = analyze(&code, 0);
    assert_eq!(analysis.functions.items, Vec::from([0]));
}

#[test]
fn recovers_pc_indexed_call_tables() {
    let code = [
        0x4e, 0xbb, 0x00, 0x02, 0x4e, 0x75, 0x60, 0x00, 0x00, 0x06, 0x60, 0x00, 0x00, 0x06,
        0x4e, 0x71, 0x4e, 0x75, 0x4e, 0x75, 0, 0, 0, 0, 0, 0, 0, 0,
    ];
    let analysis = analyze(&code, 0);
    assert!(analysis.functions.contains(&14));
    assert!(analysis.functions.contains(&18));
    assert_eq!(analysis.calls.len(), 2);
}

#[test]
fn classifies_lvo_form_jumps_as_library_calls_not_unresolved() {
    // JSR (-552,A6) ; JMP (A0) — the LVO call is convention-explained,
    // the register-indirect jump stays a real unresolved warning.
    let code = [0x4e, 0xae, 0xfd, 0xd8, 0x4e, 0xd0];
    let analysis = analyze(&code, 0);
    assert_eq!(analysis.library_calls.items, Vec::from([0]));
    assert_eq!(analysis.unresolved.len(), 1);
    assert!(
        analysis
            .unresolved
            .items
            .iter()
            .all(|unresolved| unresolved.address == 4)
    );
    // A library-form tail jump is classified the same way.
    let tail = [0x4e, 0xee, 0xff, 0xe2]; // JMP (-30,A6)
    let analysis = analyze(&tail, 0);
    assert_eq!(analysis.library_calls.items, Vec::from([0]));
    assert!(analysis.unresolved.is_empty());
}

#[test]
fn negative_displacement_off_non_a6_registers_stays_unresolved() {
    // The ABI puts the library base in A6; a negative displacement off the
    // stack pointer or a small-data base is a computed jump, not a
    // convention-explained call.
    for code in [
        [0x4e, 0xaf, 0xff, 0xf8], // JSR (-8,A7)
        [0x4e, 0xad, 0xff, 0xfc], // JSR (-4,A5)
    ] {
        let analysis = analyze(&code, 0);
        assert!(analysis.library_calls.is_empty());
        assert_eq!(analysis.unresolved.len(), 1);
    }
}

#[test]
fn rebase_follows_an_absolute_target_into_the_hunk() {
    // JSR $00001008 ; RTS ; RTS, with the hunk loaded at absolute $1000.
    let code = [0x4e, 0xb9, 0x00, 0x00, 0x10, 0x08, 0x4e, 0x75, 0x4e, 0x75];
    // Without a rebase the absolute target is an out-of-range "offset".
    assert!(!analyze(&code, 0).instructions.contains_key(8));
    // With a rebase, $1008 maps to offset 8 and traversal reaches it.
    let options = FlowOptions {
        rebase: Some(Rebase::new(0x1000)),
        ..Default::default()
    };
    let rebased = analyze_entries_with(&code, &[0], &options);
    assert!(rebased.instructions.contains_key(8));
    assert!(rebased.functions.contains(&8));
}

/// `JSR $0.L ; RTS ; RTS`, whose absolute operand sits at offset 2.
fn cross_hunk_call() -> [u8; 10] {
    [0x4e, 0xb9, 0x00, 0x00, 0x00, 0x00, 0x4e, 0x75, 0x4e, 0x75]
}

#[test]
fn a_relocated_call_into_another_hunk_is_external_not_an_in_hunk_edge() {
    let code = cross_hunk_call();
    // Without the relocations the stored addend reads as "offset zero of
    // this hunk", which is exactly the misreading this option fixes.
    let blind = analyze(&code, 0);
    assert!(blind.calls.items.iter().any(|call| call.callee == 0));
    assert!(blind.external.is_empty());

    let options = FlowOptions {
        relocations: Some(Relocations::new(
            0,
            &[Relocation {
                patched: 2,
                target_hunk: 1,
                target_offset: 0,
            }],
        )),
        ..Default::default()
    };
    let analysis = analyze_entries_with(&code, &[0], &options);
    // No invented call edge, no invented function, no bogus caller list.
    assert!(analysis.calls.is_empty());
    assert_eq!(analysis.functions.items, Vec::from([0]));
    assert!(
        !analysis
            .flows
            .items
            .iter()
            .any(|flow| flow.kind == FlowKind::Call)
    );
    // The transfer is resolved, just not here.
    assert_eq!(
        analysis.external.items,
        Vec::from([ExternalFlow {
            site: 0,
            kind: ExternalKind::Call,
            relocation: 2,
            target_hunk: 1,
            target_offset: 0,
        }])
    );
    // It is not a warning either: the record says where it goes.
    assert!(analysis.unresolved.is_empty());
    // Execution still continues after the call.
    assert!(analysis.instructions.contains_key(6));
}

#[test]
fn a_relocated_jump_into_another_hunk_is_an_external_tail_transfer() {
    // JMP $0.L, relocated into hunk 1.
    let code = [0x4e, 0xf9, 0x00, 0x00, 0x00, 0x00];
    let options = FlowOptions {
        relocations: Some(Relocations::new(
            0,
            &[Relocation {
                patched: 2,
                target_hunk: 1,
                target_offset: 0,
            }],
        )),
        ..Default::default()
    };
    let analysis = analyze_entries_with(&code, &[0], &options);
    assert!(analysis.unresolved.is_empty());
    assert_eq!(
        analysis
            .external
            .items
            .iter()
            .map(|external| external.kind)
            .collect::<Vec<_>>(),
        vec![ExternalKind::Jump]
    );
}

#[test]
fn a_relocation_inside_the_analyzed_hunk_is_still_followed() {
    // JSR $8.L relocated within hunk 0: the addend is the target offset,
    // so traversal continues into it exactly as before.
    let code = [
        0x4e, 0xb9, 0x00, 0x00, 0x00, 0x08, 0x4e, 0x75, 0x4e, 0x71, 0x4e, 0x75,
    ];
    let options = FlowOptions {
        relocations: Some(Relocations::new(
            0,
            &[Relocation {
                patched: 2,
                target_hunk: 0,
                target_offset: 8,
            }],
        )),
        ..Default::default()
    };
    let analysis = analyze_entries_with(&code, &[0], &options);
    assert!(analysis.external.is_empty());
    assert!(analysis.functions.contains(&8));
    assert!(analysis.instructions.contains_key(8));
}

#[test]
fn a_relocation_naming_an_offset_outside_the_hunk_warns_instead_of_inventing_an_entry() {
    // JSR $FFFF0000.L relocated within hunk 0: the record names an offset
    // this hunk does not contain, so there is no code to call there.
    let code = [0x4e, 0xb9, 0xff, 0xff, 0x00, 0x00, 0x4e, 0x75];
    let options = FlowOptions {
        relocations: Some(Relocations::new(
            0,
            &[Relocation {
                patched: 2,
                target_hunk: 0,
                target_offset: 0xffff_0000,
            }],
        )),
        ..Default::default()
    };
    let analysis = analyze_entries_with(&code, &[0], &options);
    // No invented function entry and no call edge outside the hunk.
    assert_eq!(analysis.functions.items, Vec::from([0]));
    assert!(analysis.calls.is_empty());
    assert!(analysis.external.is_empty());
    // Tolerated corruption is reported, not silently dropped.
    assert_eq!(
        analysis.unresolved.items,
        Vec::from([UnresolvedFlow {
            owner: 0,
            address: 0
        }])
    );
}

#[test]
fn an_unrelocated_operand_keeps_its_plain_reading() {
    // The same encoding with the relocation naming a different addend must
    // not be attributed to this operand.
    let code = cross_hunk_call();
    let options = FlowOptions {
        relocations: Some(Relocations::new(
            0,
            &[Relocation {
                patched: 2,
                target_hunk: 1,
                target_offset: 0x20,
            }],
        )),
        ..Default::default()
    };
    let analysis = analyze_entries_with(&code, &[0], &options);
    assert!(analysis.external.is_empty());
    assert!(analysis.calls.items.iter().any(|call| call.callee == 0));
}

#[test]
fn a_relocation_outside_the_operand_bytes_is_not_attributed_to_it() {
    // A record patching the longword that *starts* at the last two bytes
    // of the instruction does not fit inside it and must be ignored.
    let code = cross_hunk_call();
    let options = FlowOptions {
        relocations: Some(Relocations::new(
            0,
            &[Relocation {
                patched: 4,
                target_hunk: 1,
                target_offset: 0,
            }],
        )),
        ..Default::default()
    };
    let analysis = analyze_entries_with(&code, &[0], &options);
    assert!(analysis.external.is_empty());
}

#[test]
fn external_kind_labels_match_the_serde_names() {
    for (kind, name) in [(ExternalKind::Call, "call"), (ExternalKind::Jump, "jump")] {
        assert_eq!(kind.label(), name);
    }
}
