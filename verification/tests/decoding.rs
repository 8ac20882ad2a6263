use amiga_disasm::abi::{argument_type, render};
use amiga_disasm::collections::{AddressMap, AddressPair, OrderedSet};
use amiga_disasm::data::{scan, TargetConflict};
use amiga_disasm::decoded::{operand_longword_position, OperandRole};
use amiga_disasm::effects::{lanes_for_registers, registers_for_lanes, reversed_list};
use amiga_disasm::m68k::{
    isa_of_opcode, read_instruction, AddressingMode, Isa, Operands, Size,
};
use amiga_disasm::relocation::operand_range;
use amiga_disasm::{
    analyze, analyze_entries, callgraph_from_edges, constant_before, derived_accesses,
    fixed_point_scales, function_signatures, register_accesses, CallGraphEdge, DerivedTarget, FunctionReturn, Rebase, RegisterKind, Relocation, Relocations, Unresolved,
    ValueOptions,
};

#[test]
fn opcodes_have_their_mnemonics() {
    assert_eq!(isa_of_opcode(0x4e75), Isa::Rts);
    assert_eq!(isa_of_opcode(0x4e71), Isa::Nop);
    assert_eq!(isa_of_opcode(0x7005), Isa::Moveq);
    assert_eq!(isa_of_opcode(0x4e40), Isa::Trap);
    assert_eq!(isa_of_opcode(0x203c), Isa::Move);
    assert_eq!(isa_of_opcode(0x4e7a), Isa::Unknown);
}

#[test]
fn an_instruction_is_read_with_its_extension_words() {
    // MOVE.L #32000,D0
    let image = [0x20, 0x3c, 0x00, 0x00, 0x7d, 0x00, 0, 0, 0, 0, 0, 0];
    let (instruction, end) = read_instruction(&image, 0).unwrap();
    assert_eq!(end, 6);
    assert_eq!(instruction.opcode, 0x203c);
    assert_eq!(instruction.pc, 0);
    assert_eq!(
        instruction.operands,
        Operands::SizeEffectiveAddressEffectiveAddress(
            Size::Long,
            AddressingMode::Drd(0),
            AddressingMode::Immediate(32_000),
        )
    );
    // An odd address holds no instruction.
    assert!(read_instruction(&image, 1).is_none());
}

#[test]
fn text_names_the_instruction() {
    let analysis = analyze(&[0x4e, 0x71, 0x70, 0x05, 0x4e, 0x75], 0);
    let text = |address| analysis.instructions.get(address).unwrap().text();
    assert!(text(0).starts_with("NOP"));
    assert!(text(2).starts_with("MOVEQ"));
    assert!(text(4).starts_with("RTS"));
}

#[test]
fn the_longwords_of_two_operands_stand_apart() {
    // MOVE.L $20.L,$24.L ; RTS
    let code = [
        0x23, 0xf9, 0x00, 0x00, 0x00, 0x20, 0x00, 0x00, 0x00, 0x24, 0x4e, 0x75,
    ];
    let analysis = analyze(&code, 0);
    let decoded = analysis.instructions.get(0).unwrap();
    assert_eq!(
        operand_longword_position(decoded, OperandRole::Source),
        Some(2)
    );
    assert_eq!(
        operand_longword_position(decoded, OperandRole::Destination),
        Some(6)
    );
    assert_eq!(decoded.end, 10);
}

#[test]
fn a_relocation_covers_only_operand_bytes_that_store_its_addend() {
    let record = Relocation {
        patched: 2,
        target_hunk: 1,
        target_offset: 0x1c,
    };
    let relocations = Relocations::new(0, &[record]);
    assert_eq!(relocations.hunk(), 0);
    assert_eq!(relocations.covering(0, 6, 0x1c), Some(record));
    assert_eq!(relocations.covering(0, 6, 0x1d), None);
    assert_eq!(relocations.covering(0, 4, 0x1c), None);
    assert_eq!(relocations.covering(2, 8, 0x1c), None);
    assert_eq!(relocations.at(2, 0x1c), Some(record));
    assert_eq!(relocations.at(4, 0x1c), None);
    assert_eq!(operand_range(0, 6), Some((2, 2)));
    assert_eq!(operand_range(0, 4), None);
}

#[test]
fn a_rebase_maps_only_addresses_of_the_image() {
    let rebase = Rebase::new(0x1000);
    assert_eq!(rebase.to_offset(0x1008, 16), Some(8));
    assert_eq!(rebase.to_offset(0xfff, 16), None);
    assert_eq!(rebase.to_offset(0x1010, 16), None);
}

#[test]
fn a_register_list_is_mirrored() {
    assert_eq!(reversed_list(0x0001), 0x8000);
    assert_eq!(reversed_list(0xc080), 0x0103);
    assert_eq!(reversed_list(reversed_list(0x1234)), 0x1234);
}

#[test]
fn lanes_and_registers_name_each_other() {
    assert_eq!(lanes_for_registers(0b1), 0xf);
    assert_eq!(lanes_for_registers(0b101), 0xf0f);
    assert_eq!(registers_for_lanes(0xf0f), 0b101);
    // One lane is enough to name its register.
    assert_eq!(registers_for_lanes(0x10), 0b10);
}

#[test]
fn an_ordered_set_lists_each_item_once_in_order() {
    let mut set: OrderedSet<u32> = OrderedSet::from_slice(&[5, 1, 5, 3]);
    assert_eq!(set.items, vec![1, 3, 5]);
    assert!(!set.insert(3));
    assert!(set.insert(4));
    assert_eq!(set.items, vec![1, 3, 4, 5]);
    assert_eq!(set.pop_first(), Some(1));
    assert_eq!(set.pop_last(), Some(5));
    assert_eq!(set.len(), 2);
}

#[test]
fn an_address_map_keeps_the_last_value() {
    let mut map: AddressMap<u8> = AddressMap::new();
    map.insert(4, 1);
    map.insert(2, 2);
    map.insert(4, 3);
    assert_eq!((map.len(), map.get(4), map.get(2)), (2, Some(&3), Some(&2)));
    map.remove(4);
    assert_eq!(map.get(4), None);
    assert!(map.contains_key(2));
}

#[test]
fn every_bit_of_a_flags_word_is_shown() {
    let kind = argument_type("exec.library", -198, "d1");
    assert_eq!(render(kind, 0), "0");
    assert_eq!(render(kind, (1 << 1) | (1 << 5) | (1 << 6)), "MEMF_CHIP|96");
}

#[test]
fn call_sites_of_one_pair_are_one_edge() {
    let graph = callgraph_from_edges(
        &[0, 8, 16],
        &[
            AddressPair { first: 0, second: 8 },
            AddressPair { first: 8, second: 8 },
            AddressPair { first: 0, second: 8 },
        ],
    );
    assert_eq!(
        graph.edges,
        vec![
            CallGraphEdge {
                caller: 0,
                callee: 8,
                calls: 2,
            },
            CallGraphEdge {
                caller: 8,
                callee: 8,
                calls: 1,
            },
        ]
    );
    let degrees: Vec<(u32, usize, usize)> = graph
        .nodes
        .iter()
        .map(|node| (node.function, node.in_degree as usize, node.out_degree as usize))
        .collect();
    assert_eq!(degrees, vec![(0, 0, 1), (8, 2, 1), (16, 0, 0)]);
}

#[test]
fn data_regions_do_not_overlap() {
    let mut code = vec![0x41, 0xfa, 0x00, 0x02, 0x4e, 0x75];
    code.extend_from_slice(b"alpha\0beta\0gamma\0");
    let found = scan(&code, &analyze(&code, 0), &OrderedSet::from_slice(&[6, 9, 12, 17]));
    assert_eq!(found.regions.len(), 4);
    for pair in found.regions.windows(2) {
        assert!(pair[0].end <= pair[1].start);
    }
    for region in &found.regions {
        assert!(region.start < region.end && region.end as usize <= code.len());
    }
}

#[test]
fn a_value_that_two_paths_disagree_on_is_refused() {
    // TST.W D1 ; BEQ.S right ; MOVEQ #1,D0 ; BRA.S join ; right: MOVEQ #2,D0 ; join: RTS
    let code = [
        0x4a, 0x41, 0x67, 0x04, 0x70, 0x01, 0x60, 0x02, 0x70, 0x02, 0x4e, 0x75,
    ];
    let analysis = analyze_entries(&code, &[0]);
    assert_eq!(
        constant_before(&analysis, ValueOptions::default(), 10, RegisterKind::Data, 0),
        Err(Unresolved::Join)
    );
    assert_eq!(
        constant_before(&analysis, ValueOptions::default(), 6, RegisterKind::Data, 0)
            .unwrap()
            .value,
        1
    );
}

#[test]
fn a_routine_that_never_returns_says_so() {
    // BRA.S *
    let signatures = function_signatures(&analyze(&[0x60, 0xfe], 0));
    assert_eq!(signatures.len(), 1);
    assert_eq!(signatures[0].returns, FunctionReturn::Never);
    // RTE and RTS on two paths.
    let mixed = function_signatures(&analyze(
        &[0x4a, 0x40, 0x67, 0x02, 0x4e, 0x75, 0x4e, 0x73],
        0,
    ));
    assert_eq!(mixed[0].returns, FunctionReturn::Mixed);
}

#[test]
fn every_operand_form_that_steps_a_register_loses_its_value() {
    for (name, instruction) in [
        ("ADDA.L (A1)+,A2", [0xd5, 0xd9]),
        ("CMPA.W -(A1),A2", [0xb4, 0xe1]),
        ("SEQ (A1)+", [0x57, 0xd9]),
        ("TAS -(A1)", [0x4a, 0xe1]),
        ("MOVE (A1)+,CCR", [0x44, 0xd9]),
        ("CLR.W (A1)+", [0x42, 0x59]),
    ] {
        // LEA $1000,A1 ; the instruction ; RTS
        let mut code = vec![0x43, 0xf9, 0x00, 0x00, 0x10, 0x00];
        code.extend_from_slice(&instruction);
        code.extend_from_slice(&[0x4e, 0x75]);
        let analysis = analyze_entries(&code, &[0]);
        let before = |site| {
            constant_before(&analysis, ValueOptions::default(), site, RegisterKind::Address, 1)
        };
        assert_eq!(before(6).unwrap().value, 0x1000, "{name}");
        assert_eq!(before(8), Err(Unresolved::WriteNotValued), "{name}");
    }
}

#[test]
fn only_lea_and_movea_load_the_custom_base() {
    // MULS.W $DFF000,D6 ; MOVE.W #$8000,($96,A6) ; RTS
    let code = [
        0xcd, 0xf9, 0x00, 0xdf, 0xf0, 0x00, 0x3d, 0x7c, 0x80, 0x00, 0x00, 0x96, 0x4e, 0x75,
    ];
    assert!(register_accesses(&analyze(&code, 0), 0x00df_f000).is_empty());
    // LEA $DFF000,A6 ; MOVE.W #$8000,($96,A6) ; RTS
    let code = [
        0x4d, 0xf9, 0x00, 0xdf, 0xf0, 0x00, 0x3d, 0x7c, 0x80, 0x00, 0x00, 0x96, 0x4e, 0x75,
    ];
    let accesses = register_accesses(&analyze(&code, 0), 0x00df_f000);
    assert_eq!(accesses.len(), 1);
    assert_eq!(accesses[0].offset, 0x96);
}

#[test]
fn a_derived_address_ends_where_a_branch_arrives() {
    // LEA $1000,A0 ; TST.W D0 ; BEQ.S +2 ; MOVE.B (A0),D1 ; MOVE.B (A0),D0 ; RTS
    let code = [
        0x41, 0xf9, 0x00, 0x00, 0x10, 0x00, 0x4a, 0x40, 0x67, 0x02, 0x12, 0x10, 0x10, 0x10, 0x4e,
        0x75,
    ];
    let accesses = derived_accesses(&analyze(&code, 0), ValueOptions::default());
    assert_eq!(accesses.len(), 2);
    assert_eq!((accesses[0].site, accesses[0].target), (10, DerivedTarget::Exact(0x1000)));
    assert_eq!((accesses[1].site, accesses[1].target), (12, DerivedTarget::Unknown));
}

#[test]
fn a_reference_into_overlapping_code_is_disputed() {
    // MOVE.L #$4E750000,D0 ; RTS, entered at its immediate too, which reads as RTS.
    let code = [0x20, 0x3c, 0x4e, 0x75, 0x00, 0x00, 0x4e, 0x75];
    let analysis = analyze_entries(&code, &[0, 2]);
    let found = scan(&code, &analysis, &OrderedSet::from_slice(&[4]));
    assert!(found.regions.is_empty());
    assert_eq!(found.disputed.len(), 1);
    assert_eq!(found.disputed[0].conflict, TargetConflict::IntoInstruction);
    assert_eq!(found.disputed[0].instruction, Some(0));
}

#[test]
fn a_pointer_is_an_input_that_forms_an_address() {
    // MOVE.L A0,D0 ; RTS
    let copied = function_signatures(&analyze(&[0x20, 0x08, 0x4e, 0x75], 0));
    assert_eq!(copied[0].prototype("f"), "f(A0) -> D0");
    // MOVE.L A0,D0 ; MOVE.L (A0),D1 ; RTS
    let followed = function_signatures(&analyze(&[0x20, 0x08, 0x22, 0x10, 0x4e, 0x75], 0));
    assert_eq!(followed[0].prototype("f"), "f(A0: ptr) -> D0, D1");
}

#[test]
fn every_edge_leaves_code_and_leads_to_code_or_a_warning() {
    let code = [
        0x61, 0x04, // 0: BSR.S 6
        0x67, 0x06, // 2: BEQ.S 10
        0x4e, 0x75, // 4: RTS
        0x70, 0x01, // 6: MOVEQ #1,D0
        0x4e, 0x75, // 8: RTS
        0xff, 0xff, // 10: no instruction
    ];
    let analysis = analyze(&code, 0);
    for flow in &analysis.flows.items {
        let site = analysis.instructions.get(flow.site).unwrap();
        assert!(site.owners.contains(&flow.owner));
        assert_eq!(site.encoded, code[flow.site as usize..site.end as usize]);
        assert!(analysis.instructions.contains_key(flow.target));
    }
    for call in &analysis.calls.items {
        assert!(analysis.functions.contains(&call.callee));
    }
    assert_eq!(analysis.calls.len(), 1);
    assert_eq!(analysis.unresolved.items.len(), 1);
    assert_eq!(analysis.unresolved.items[0].address, 10);
    assert!(analysis.external.is_empty());
}

#[test]
fn library_calls_are_no_register_accesses() {
    // LEA $DFF000,A6 ; JSR (-30,A6) ; RTS
    let code = [
        0x4d, 0xf9, 0x00, 0xdf, 0xf0, 0x00, 0x4e, 0xae, 0xff, 0xe2, 0x4e, 0x75,
    ];
    assert!(register_accesses(&analyze(&code, 0), 0x00df_f000).is_empty());
}

#[test]
fn joined_values_keep_the_shortest_evidence() {
    // BEQ.S 8 ; MOVEQ #5,D1 ; MOVE.L D1,D0 ; BRA.S 10 ; 8: MOVEQ #5,D0 ; 10: RTS
    let code = [
        0x67, 0x06, 0x72, 0x05, 0x20, 0x01, 0x60, 0x02, 0x70, 0x05, 0x4e, 0x75,
    ];
    let found = constant_before(
        &analyze(&code, 0),
        ValueOptions::default(),
        10,
        RegisterKind::Data,
        0,
    )
    .unwrap();
    assert_eq!((found.value, found.site), (5, 8));
    assert_eq!(found.evidence, [8]);
}

#[test]
fn a_preserved_register_is_neither_clobbered_nor_an_output() {
    // MOVE.L D2,-(A7) ; MOVEQ #1,D2 ; MOVEQ #2,D0 ; MOVE.L (A7)+,D2 ; RTS
    let code = [
        0x2f, 0x02, 0x74, 0x01, 0x70, 0x02, 0x24, 0x1f, 0x4e, 0x75,
    ];
    let signatures = function_signatures(&analyze(&code, 0));
    let kept: Vec<String> = signatures[0].preserved.iter().map(|r| r.label()).collect();
    let lost: Vec<String> = signatures[0].clobbered.iter().map(|r| r.label()).collect();
    assert!(kept.contains(&"D2".to_owned()));
    assert_eq!(lost, ["D0"]);
    assert_eq!(signatures[0].prototype("f"), "f() -> D0");
}

#[test]
fn a_written_register_loses_its_scale() {
    // MULS D1,D0 ; ASR.L #8,D0 ; ADDQ.L #1,D0 ; MOVE.L D0,D2 ; RTS
    let code = [
        0xc1, 0xc1, 0xe0, 0x80, 0x52, 0x80, 0x24, 0x00, 0x4e, 0x75,
    ];
    let scales = fixed_point_scales(&analyze(&code, 0));
    assert_eq!(scales.len(), 1);
    assert_eq!((scales[0].site, scales[0].register), (2, 0));
    assert_eq!(scales[0].fractional_bits, 8);
}
