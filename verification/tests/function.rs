use amiga_disasm::{
    analyze, analyze_entries, function_signatures, AccessKind, DecodedInstruction, FrameStyle,
    FunctionInput, FunctionOutput, FunctionRegister, FunctionReturn, FunctionSignature,
    RegisterKind, RegisterLanes, StackSlot, StackSlotKind,
};
use amiga_disasm::collections::AddressMap;
use amiga_disasm::dataflow::ForwardResult;
use amiga_disasm::m68k::Size;
use amiga_disasm::stack::{
    finish_stack_analysis, signed_immediate, stack_slots, StackDepth, StackObservations,
    StackPosition,
};

fn signature(code: &[u8]) -> FunctionSignature {
    function_signatures(&analyze(code, 0))
        .into_iter()
        .next()
        .expect("the entry has a signature")
}

#[test]
fn link_frame_finds_register_inputs_outputs_and_stack_slots() {
    // LINK A6,#-16 ; MOVE.L (8,A6),D0 ; MOVE.L D1,(-4,A6) ; UNLK A6 ; RTS
    let code = [
        0x4e, 0x56, 0xff, 0xf0, 0x20, 0x2e, 0x00, 0x08, 0x2d, 0x41, 0xff, 0xfc, 0x4e, 0x5e,
        0x4e, 0x75,
    ];
    let signature = signature(&code);
    assert_eq!(
        signature.frame,
        FrameStyle::Link {
            register: 6,
            local_bytes: 16,
        }
    );
    assert!(signature.inputs.iter().any(|input| {
        input.register
            == FunctionRegister {
                kind: RegisterKind::Data,
                index: 1,
            }
    }));
    assert_eq!(
        signature.outputs,
        [FunctionOutput {
            register: FunctionRegister {
                kind: RegisterKind::Data,
                index: 0,
            },
            lanes: RegisterLanes::long(),
        }]
    );
    assert!(signature.stack_slots.contains(&StackSlot {
        kind: StackSlotKind::Argument,
        offset: 4,
        size: Some(4),
        access: AccessKind::Read,
    }));
    assert!(signature.stack_slots.contains(&StackSlot {
        kind: StackSlotKind::Local,
        offset: -4,
        size: Some(4),
        access: AccessKind::Write,
    }));
    assert!(signature.preserved.contains(&FunctionRegister {
        kind: RegisterKind::Address,
        index: 6,
    }));
    assert_eq!(signature.returns, FunctionReturn::Rts);
}

#[test]
fn link_frame_excludes_the_saved_frame_pointer_and_keeps_the_deepest_local() {
    // LINK A6,#-8 ; MOVE.L D0,(0,A7) ; MOVE.L D1,(8,A7) ; UNLK A6 ; RTS
    let code = [
        0x4e, 0x56, 0xff, 0xf8, 0x2f, 0x40, 0x00, 0x00, 0x2f, 0x41, 0x00, 0x08, 0x4e, 0x5e,
        0x4e, 0x75,
    ];
    let signature = signature(&code);
    assert_eq!(
        signature.frame,
        FrameStyle::Link {
            register: 6,
            local_bytes: 8,
        }
    );
    assert_eq!(
        signature.stack_slots,
        [StackSlot {
            kind: StackSlotKind::Local,
            offset: -8,
            size: Some(4),
            access: AccessKind::Write,
        }]
    );
}

#[test]
fn link_frame_deduplicates_an_argument_reached_through_a6_and_a7() {
    // LINK A6,#0 ; MOVE.L (8,A6),D0 ; MOVE.L (8,A7),D1 ; UNLK A6 ; RTS
    let code = [
        0x4e, 0x56, 0x00, 0x00, 0x20, 0x2e, 0x00, 0x08, 0x22, 0x2f, 0x00, 0x08, 0x4e, 0x5e,
        0x4e, 0x75,
    ];
    let signature = signature(&code);
    assert_eq!(
        signature.stack_slots,
        [StackSlot {
            kind: StackSlotKind::Argument,
            offset: 4,
            size: Some(4),
            access: AccessKind::Read,
        }]
    );
}

#[test]
fn explicit_stack_pointer_frame_maps_locals_and_arguments() {
    // SUBA.W #16,A7 ; MOVE.L (20,A7),D0 ; MOVE.L D1,(4,A7) ;
    // ADDA.W #16,A7 ; RTS
    let code = [
        0x9e, 0xfc, 0x00, 0x10, 0x20, 0x2f, 0x00, 0x14, 0x2f, 0x41, 0x00, 0x04, 0xde, 0xfc,
        0x00, 0x10, 0x4e, 0x75,
    ];
    let signature = signature(&code);
    assert_eq!(
        signature.frame,
        FrameStyle::StackPointer { local_bytes: 16 }
    );
    assert!(signature.stack_slots.contains(&StackSlot {
        kind: StackSlotKind::Argument,
        offset: 4,
        size: Some(4),
        access: AccessKind::Read,
    }));
    assert!(signature.stack_slots.contains(&StackSlot {
        kind: StackSlotKind::Local,
        offset: 4,
        size: Some(4),
        access: AccessKind::Write,
    }));
}

#[test]
fn compound_stack_pointer_frame_tracks_each_adjustment() {
    // SUBA.W #8,A7 ; SUBA.W #8,A7 ; MOVE.L (20,A7),D0 ;
    // MOVE.L D1,(4,A7) ; ADDA.W #8,A7 ; ADDA.W #8,A7 ; RTS
    let code = [
        0x9e, 0xfc, 0x00, 0x08, 0x9e, 0xfc, 0x00, 0x08, 0x20, 0x2f, 0x00, 0x14, 0x2f, 0x41,
        0x00, 0x04, 0xde, 0xfc, 0x00, 0x08, 0xde, 0xfc, 0x00, 0x08, 0x4e, 0x75,
    ];
    let signature = signature(&code);
    assert_eq!(
        signature.frame,
        FrameStyle::StackPointer { local_bytes: 16 }
    );
    assert!(signature.stack_slots.contains(&StackSlot {
        kind: StackSlotKind::Argument,
        offset: 4,
        size: Some(4),
        access: AccessKind::Read,
    }));
    assert!(signature.stack_slots.contains(&StackSlot {
        kind: StackSlotKind::Local,
        offset: 4,
        size: Some(4),
        access: AccessKind::Write,
    }));
}

#[test]
fn negative_adda_word_immediate_allocates_a_stack_pointer_frame() {
    // ADDA.W #-8,A7 ; MOVE.L (12,A7),D0 ; ADDA.W #8,A7 ; RTS
    let code = [
        0xde, 0xfc, 0xff, 0xf8, 0x20, 0x2f, 0x00, 0x0c, 0xde, 0xfc, 0x00, 0x08, 0x4e, 0x75,
    ];
    let signature = signature(&code);
    assert_eq!(signature.frame, FrameStyle::StackPointer { local_bytes: 8 });
    assert_eq!(
        signature.stack_slots,
        [StackSlot {
            kind: StackSlotKind::Argument,
            offset: 4,
            size: Some(4),
            access: AccessKind::Read,
        }]
    );
}

#[test]
fn negative_long_immediates_can_allocate_and_deallocate_a7() {
    // ADDA.L #-8,A7 ; MOVE.L (12,A7),D0 ; SUBA.L #-8,A7 ; RTS
    let code = [
        0xdf, 0xfc, 0xff, 0xff, 0xff, 0xf8, 0x20, 0x2f, 0x00, 0x0c, 0x9f, 0xfc, 0xff, 0xff,
        0xff, 0xf8, 0x4e, 0x75,
    ];
    let signature = signature(&code);
    assert_eq!(signature.frame, FrameStyle::StackPointer { local_bytes: 8 });
    assert_eq!(
        signature.stack_slots,
        [StackSlot {
            kind: StackSlotKind::Argument,
            offset: 4,
            size: Some(4),
            access: AccessKind::Read,
        }]
    );
    assert_eq!(signed_immediate(Size::Long, 0x8000_0000), Some(i32::MIN));
}

#[test]
fn lea_stack_allocation_does_not_register_its_own_operand_as_a_local() {
    // LEA (-8,A7),A7 ; MOVE.L (12,A7),D0 ; LEA (8,A7),A7 ; RTS
    let code = [
        0x4f, 0xef, 0xff, 0xf8, 0x20, 0x2f, 0x00, 0x0c, 0x4f, 0xef, 0x00, 0x08, 0x4e, 0x75,
    ];
    let signature = signature(&code);
    assert_eq!(signature.frame, FrameStyle::StackPointer { local_bytes: 8 });
    assert_eq!(
        signature.stack_slots,
        [StackSlot {
            kind: StackSlotKind::Argument,
            offset: 4,
            size: Some(4),
            access: AccessKind::Read,
        }]
    );
}

#[test]
fn overflowing_signed_stack_delta_is_conservatively_unknown() {
    // ADDA.L #$80000000,A7 ; RTS
    assert_eq!(
        signature(&[0xdf, 0xfc, 0x80, 0x00, 0x00, 0x00, 0x4e, 0x75]).frame,
        FrameStyle::Unknown
    );
}

#[test]
fn statically_sized_single_operand_predecrements_preserve_the_frame() {
    for (name, instruction) in [
        ("MOVE SR,-(A7)", [0x40, 0xe7]),
        ("MOVE -(A7),CCR", [0x44, 0xe7]),
        ("TAS -(A7)", [0x4a, 0xe7]),
        ("NBCD -(A7)", [0x48, 0x27]),
    ] {
        let code = [instruction[0], instruction[1], 0x54, 0x4f, 0x4e, 0x75];
        assert_eq!(signature(&code).frame, FrameStyle::Frameless, "{name}");
    }
}

#[test]
fn balanced_paths_with_different_allocations_are_path_dependent() {
    // TST.W D0 ; BEQ.S larger ; SUBA.W #8,A7 ; ADDA.W #8,A7 ;
    // BRA.W done ; larger: SUBA.W #16,A7 ; ADDA.W #16,A7 ;
    // BRA.S done ; NOP ; done: RTS
    let code = [
        0x4a, 0x40, 0x67, 0x0c, 0x9e, 0xfc, 0x00, 0x08, 0xde, 0xfc, 0x00, 0x08, 0x60, 0x00,
        0x00, 0x0e, 0x9e, 0xfc, 0x00, 0x10, 0xde, 0xfc, 0x00, 0x10, 0x60, 0x02, 0x4e, 0x71,
        0x4e, 0x75,
    ];
    assert_eq!(
        signature(&code).frame,
        FrameStyle::PathDependent {
            maximum_local_bytes: 16,
        }
    );
}

#[test]
fn dynamic_stack_pointer_write_makes_the_frame_unknown() {
    // MOVEA.L A0,A7 ; RTS
    assert_eq!(
        signature(&[0x2e, 0x48, 0x4e, 0x75]).frame,
        FrameStyle::Unknown
    );
}

#[test]
fn movec_to_a7_makes_the_frame_unknown_but_movec_from_a7_does_not() {
    // MOVEC VBR,A7 ; MOVE.L (4,A7),D0 ; RTS
    let destination = signature(&[0x4e, 0x7a, 0xf8, 0x01, 0x20, 0x2f, 0x00, 0x04, 0x4e, 0x75]);
    assert_eq!(destination.frame, FrameStyle::Unknown);
    assert!(destination.stack_slots.is_empty());

    // MOVEC A7,VBR ; MOVE.L (4,A7),D0 ; RTS
    let source = signature(&[0x4e, 0x7b, 0xf8, 0x01, 0x20, 0x2f, 0x00, 0x04, 0x4e, 0x75]);
    assert_eq!(source.frame, FrameStyle::Frameless);
    assert_eq!(
        source.stack_slots,
        [StackSlot {
            kind: StackSlotKind::Argument,
            offset: 4,
            size: Some(4),
            access: AccessKind::Read,
        }]
    );
}

#[test]
fn a_pop_that_loads_a7_is_not_mistaken_for_a_static_adjustment() {
    // MOVEA.L (A7)+,A7 ; RTS
    assert_eq!(
        signature(&[0x2e, 0x5f, 0x4e, 0x75]).frame,
        FrameStyle::Unknown
    );
}

#[test]
fn transient_push_and_pop_preserve_entry_relative_arguments() {
    // MOVE.L D0,-(A7) ; MOVE.L (8,A7),D1 ; MOVE.L (A7)+,D0 ; RTS
    let signature = signature(&[0x2f, 0x00, 0x22, 0x2f, 0x00, 0x08, 0x20, 0x1f, 0x4e, 0x75]);
    assert_eq!(signature.frame, FrameStyle::Frameless);
    assert!(signature.stack_slots.contains(&StackSlot {
        kind: StackSlotKind::Argument,
        offset: 4,
        size: Some(4),
        access: AccessKind::Read,
    }));
}

#[test]
fn a_call_is_stack_neutral_and_an_argument_cleanup_balances_its_push() {
    // MOVE.L D0,-(A7) ; BSR.S helper ; ADDQ.L #4,A7 ; RTS ; helper: RTS
    let code = [0x2f, 0x00, 0x61, 0x04, 0x58, 0x8f, 0x4e, 0x75, 0x4e, 0x75];
    assert_eq!(signature(&code).frame, FrameStyle::Frameless);
}

#[test]
fn balanced_stack_loop_converges_without_inventing_a_frame() {
    // MOVE.L D0,-(A7) ; MOVE.L (A7)+,D0 ; DBF D1,loop ; RTS
    let code = [0x2f, 0x00, 0x20, 0x1f, 0x51, 0xc9, 0xff, 0xf8, 0x4e, 0x75];
    assert_eq!(signature(&code).frame, FrameStyle::Frameless);
}

#[test]
fn unbalanced_stack_loop_is_unknown_at_return() {
    // SUBQ.L #4,A7 ; DBF D0,loop ; RTS
    let code = [0x59, 0x8f, 0x51, 0xc8, 0xff, 0xfa, 0x4e, 0x75];
    assert_eq!(signature(&code).frame, FrameStyle::Unknown);
}

#[test]
fn truncated_stack_adjustment_is_conservatively_unknown() {
    // Truncated SUBA.W #imm,A7.
    let signature = signature(&[0x9e, 0xfc]);
    assert_eq!(signature.frame, FrameStyle::Unknown);
    assert!(signature.stack_slots.is_empty());
}

#[test]
fn an_exhausted_stack_walk_discards_every_partial_slot_state() {
    // Model a bounded walk that stopped after learning a plausible argument
    // depth. No fact derived from that non-fixpoint state may escape.
    let code = [0x20, 0x2f, 0x00, 0x04, 0x4e, 0x75];
    let analysis = analyze(&code, 0);
    let owned: Vec<&DecodedInstruction> = [0, 4]
        .into_iter()
        .map(|address| analysis.instructions.get(address).unwrap())
        .collect();
    let mut before = AddressMap::new();
    before.insert(
        0,
        StackDepth::Exact(StackPosition {
            depth: 0,
            locals: 0,
            peak_locals: 0,
            path_dependent_frame: false,
            link: None,
        }),
    );
    let partial = ForwardResult {
        before,
        exhausted: true,
    };
    let observations = StackObservations {
        maximum_local_bytes: 0,
        path_dependent: false,
        unknown: false,
    };
    let stack = finish_stack_analysis(&owned, partial, observations);
    assert_eq!(stack.frame, FrameStyle::Unknown);
    assert!(stack.before.is_empty());
    assert!(stack_slots(&owned, stack.frame, &stack.before).is_empty());
}

#[test]
fn frameless_leaf_renders_a_register_oriented_prototype() {
    // MOVE.L (A0),D0 ; ADD.L D1,D0 ; RTS
    let code = [0x20, 0x10, 0xd0, 0x81, 0x4e, 0x75];
    let signature = signature(&code);
    assert_eq!(signature.frame, FrameStyle::Frameless);
    assert!(signature.leaf);
    assert_eq!(
        signature.prototype("copy_word"),
        "copy_word(D1, A0: ptr) -> D0"
    );
}

#[test]
fn immediate_word_write_is_not_a_false_low_word_input() {
    // MOVE.W #1079,D0 ; DBF D0,DBF ; RTS
    let code = [0x30, 0x3c, 0x04, 0x37, 0x51, 0xc8, 0xff, 0xfc, 0x4e, 0x75];
    let signature = signature(&code);
    assert!(signature.inputs.is_empty());
    assert_eq!(
        signature.outputs,
        [FunctionOutput {
            register: FunctionRegister {
                kind: RegisterKind::Data,
                index: 0,
            },
            lanes: RegisterLanes::word(),
        }]
    );
    assert_eq!(signature.prototype("fill"), "fill() -> D0.w");
}

#[test]
fn long_read_after_word_write_needs_only_the_untouched_upper_lanes() {
    // MOVE.W #1,D0 ; MOVE.L D0,D1 ; RTS
    let code = [0x30, 0x3c, 0x00, 0x01, 0x22, 0x00, 0x4e, 0x75];
    let signature = signature(&code);
    assert_eq!(
        signature.inputs,
        [FunctionInput {
            register: FunctionRegister {
                kind: RegisterKind::Data,
                index: 0,
            },
            lanes: RegisterLanes(0b1100),
            pointer: false,
        }]
    );
    assert_eq!(
        signature.prototype("extend"),
        "extend(D0[lanes=0xc]) -> D0.w, D1"
    );
}

#[test]
fn immediate_byte_write_leaves_only_the_upper_three_lanes_caller_owned() {
    // MOVE.B #1,D0 ; MOVE.L D0,D1 ; RTS
    let code = [0x10, 0x3c, 0x00, 0x01, 0x22, 0x00, 0x4e, 0x75];
    let signature = signature(&code);
    assert_eq!(signature.inputs[0].lanes.bits(), 0b1110);
    assert_eq!(signature.outputs[0].lanes, RegisterLanes::byte());
}

#[test]
fn static_bit_operations_touch_only_the_selected_data_register_lane() {
    for (name, opcode, prototype) in [
        ("BTST", [0x08, 0x00], "f(D0.b)"),
        ("BCHG", [0x08, 0x40], "f(D0.b) -> D0.b"),
        ("BCLR", [0x08, 0x80], "f(D0.b) -> D0.b"),
        ("BSET", [0x08, 0xc0], "f(D0.b) -> D0.b"),
    ] {
        let code = [opcode[0], opcode[1], 0x00, 0x01, 0x4e, 0x75];
        assert_eq!(signature(&code).prototype("f"), prototype, "{name}");
    }
}

#[test]
fn dynamic_bit_operations_read_the_count_and_the_whole_data_register() {
    for (name, opcode, prototype) in [
        ("BTST", [0x03, 0x00], "f(D0, D1)"),
        ("BCHG", [0x03, 0x40], "f(D0, D1) -> D0"),
        ("BCLR", [0x03, 0x80], "f(D0, D1) -> D0"),
        ("BSET", [0x03, 0xc0], "f(D0, D1) -> D0"),
    ] {
        let code = [opcode[0], opcode[1], 0x4e, 0x75];
        assert_eq!(signature(&code).prototype("f"), prototype, "{name}");
    }
}

#[test]
fn bit_operations_read_the_count_register_only_in_the_dynamic_memory_form() {
    // BSET #1,(A0) ; RTS
    assert_eq!(
        signature(&[0x08, 0xd0, 0x00, 0x01, 0x4e, 0x75]).prototype("f"),
        "f(A0: ptr)"
    );
    // BSET D1,(A0) ; RTS
    assert_eq!(
        signature(&[0x03, 0xd0, 0x4e, 0x75]).prototype("f"),
        "f(D1, A0: ptr)"
    );
}

#[test]
fn extend_arithmetic_writes_only_its_data_register_destination() {
    for (name, opcode, prototype) in [
        ("ABCD", [0xc1, 0x01], "f(D0.b, D1.b) -> D0.b"),
        ("SBCD", [0x81, 0x01], "f(D0.b, D1.b) -> D0.b"),
        ("ADDX.L", [0xd1, 0x81], "f(D0, D1) -> D0"),
        ("SUBX.L", [0x91, 0x81], "f(D0, D1) -> D0"),
    ] {
        let code = [opcode[0], opcode[1], 0x4e, 0x75];
        assert_eq!(signature(&code).prototype("f"), prototype, "{name}");
    }
}

#[test]
fn predecrement_extend_arithmetic_updates_both_address_registers() {
    for (name, opcode) in [
        ("ABCD", [0xc1, 0x09]),
        ("SBCD", [0x81, 0x09]),
        ("ADDX.L", [0xd1, 0x89]),
        ("SUBX.L", [0x91, 0x89]),
    ] {
        let code = [opcode[0], opcode[1], 0x4e, 0x75];
        assert_eq!(
            signature(&code).prototype("f"),
            "f(A0: ptr, A1: ptr) -> A0, A1",
            "{name}"
        );
    }
}

#[test]
fn rte_marks_an_interrupt_handler_and_saved_registers_survive() {
    // MOVEM.L D0-D1/A0,-(A7) ; MOVEQ #1,D0 ;
    // MOVEM.L (A7)+,D0-D1/A0 ; RTE
    let code = [
        0x48, 0xe7, 0xc0, 0x80, 0x70, 0x01, 0x4c, 0xdf, 0x01, 0x03, 0x4e, 0x73,
    ];
    let signature = signature(&code);
    assert_eq!(signature.returns, FunctionReturn::Rte);
    assert!(signature.leaf);
    assert!(signature.inputs.is_empty());
    for register in [
        FunctionRegister {
            kind: RegisterKind::Data,
            index: 0,
        },
        FunctionRegister {
            kind: RegisterKind::Data,
            index: 1,
        },
        FunctionRegister {
            kind: RegisterKind::Address,
            index: 0,
        },
    ] {
        assert!(signature.preserved.contains(&register), "{signature:?}");
        assert!(!signature.clobbered.contains(&register));
        assert!(
            !signature
                .inputs
                .iter()
                .any(|input| input.register == register)
        );
    }
}

#[test]
fn a_jump_to_another_entry_is_a_tail_call_not_a_leaf() {
    // JMP $8.L ; padding ; target: MOVE.L (A0),D0 ; RTS
    let code = [
        0x4e, 0xf9, 0x00, 0x00, 0x00, 0x08, 0x4e, 0x71, 0x20, 0x10, 0x4e, 0x75,
    ];
    let analysis = analyze_entries(&code, &[0, 8]);
    let signatures = function_signatures(&analysis);
    let signature = signatures
        .iter()
        .find(|signature| signature.entry == 0)
        .expect("the jumping function is present");
    assert!(signature.tail_call);
    assert!(!signature.leaf);
    assert!(!signature.complete);
    assert!(signature.inputs.is_empty());
    assert!(signature.outputs.is_empty());
    assert_eq!(signature.returns, FunctionReturn::Never);
    let target = signatures
        .iter()
        .find(|signature| signature.entry == 8)
        .expect("the target function is present");
    assert_eq!(target.prototype("target"), "target(A0: ptr) -> D0");
}

#[test]
fn an_evidence_backed_unseeded_jump_target_becomes_a_tail_callee() {
    // JMP $8.L ; NOP ; target: MOVEM.L D0,-(A7) ;
    // MOVEM.L (A7)+,D0 ; RTS
    let code = [
        0x4e, 0xf9, 0, 0, 0, 8, 0x4e, 0x71, 0x48, 0xe7, 0x80, 0x00, 0x4c, 0xdf, 0x00, 0x01,
        0x4e, 0x75,
    ];
    let analysis = analyze(&code, 0);
    let signatures = function_signatures(&analysis);
    let wrapper = signatures
        .iter()
        .find(|signature| signature.entry == 0)
        .expect("the wrapper is present");
    assert!(wrapper.tail_call);
    assert!(!wrapper.leaf);
    assert!(signatures.iter().any(|signature| signature.entry == 8));
}

#[test]
fn a_definition_on_only_one_return_path_is_not_an_output() {
    // TST.W D2 ; BEQ return ; MOVEQ #1,D0 ; return: RTS
    let code = [0x4a, 0x42, 0x67, 0x02, 0x70, 0x01, 0x4e, 0x75];
    let signature = signature(&code);
    assert!(signature.outputs.is_empty());
    assert!(signature.inputs.iter().any(|input| {
        input.register
            == FunctionRegister {
                kind: RegisterKind::Data,
                index: 2,
            }
    }));
}

#[test]
fn an_unknown_call_result_on_one_path_is_not_an_output() {
    // TST.W D2 ; BEQ call ; MOVEQ #1,D0 ; BRA return ;
    // call: BSR helper ; return: RTS ; helper: RTS
    let code = [
        0x4a, 0x42, 0x67, 0x04, 0x70, 0x01, 0x60, 0x02, 0x61, 0x02, 0x4e, 0x75, 0x4e, 0x75,
    ];
    let signature = function_signatures(&analyze_entries(&code, &[0, 12]))
        .into_iter()
        .find(|signature| signature.entry == 0)
        .expect("the caller is present");
    assert!(signature.complete);
    assert!(signature.outputs.is_empty());
}

#[test]
fn a_save_restored_on_only_one_path_does_not_prove_preservation() {
    // MOVEM.L D2,-(A7) ; MOVEQ #1,D2 ; TST.W D0 ; BEQ return ;
    // MOVEM.L (A7)+,D2 ; return: RTS
    let code = [
        0x48, 0xe7, 0x20, 0x00, 0x74, 0x01, 0x4a, 0x40, 0x67, 0x04, 0x4c, 0xdf, 0x00, 0x04,
        0x4e, 0x75,
    ];
    let signature = signature(&code);
    let d2 = FunctionRegister {
        kind: RegisterKind::Data,
        index: 2,
    };
    assert!(!signature.preserved.contains(&d2));
    assert!(signature.clobbered.contains(&d2));
    assert!(signature.inputs.iter().any(|input| input.register == d2));
}

#[test]
fn a_preserved_register_used_after_its_save_remains_an_input() {
    // MOVEM.L D2,-(A7) ; ADD.L D2,D0 ; MOVEM.L (A7)+,D2 ; RTS
    let code = [
        0x48, 0xe7, 0x20, 0x00, 0xd0, 0x82, 0x4c, 0xdf, 0x00, 0x04, 0x4e, 0x75,
    ];
    let signature = signature(&code);
    let d2 = FunctionRegister {
        kind: RegisterKind::Data,
        index: 2,
    };
    assert!(signature.preserved.contains(&d2));
    assert!(signature.inputs.iter().any(|input| input.register == d2));
}

#[test]
fn a_trap_is_not_a_leaf_and_conservatively_clobbers_registers() {
    // TRAP #0 ; RTS
    let signature = signature(&[0x4e, 0x40, 0x4e, 0x75]);
    assert!(signature.complete);
    assert!(!signature.leaf);
    assert!(signature.preserved.is_empty());
    assert_eq!(signature.clobbered.len(), 15);
}

#[test]
fn unresolved_non_call_flow_clears_register_claims() {
    // MOVE.L (A0),D0 ; JMP (A1)
    let code = [0x20, 0x10, 0x4e, 0xd1];
    let signature = signature(&code);
    assert!(!signature.complete);
    assert!(signature.inputs.is_empty());
    assert!(signature.outputs.is_empty());
    assert!(signature.clobbered.is_empty());
    assert!(signature.preserved.is_empty());
}
