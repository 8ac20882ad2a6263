use amiga_disasm::{
    analyze, analyze_entries, clamp_hints, fixed_point_hints, fixed_point_scales, ClampHint,
    ClampKind, FixedPointKind, FixedPointScale,
};

#[test]
fn flags_a_multiply_normalised_by_a_right_shift() {
    // MULS.W D1,D3 ; ASR.L #8,D3 ; RTS
    let code = [0xc7, 0xc1, 0xe0, 0x83, 0x4e, 0x75];
    let hints = fixed_point_hints(&analyze(&code, 0));
    assert_eq!(hints.len(), 1);
    assert_eq!(hints[0].kind, FixedPointKind::ScaledMultiply);
    assert_eq!(hints[0].register, 3);
    assert_eq!(hints[0].site, 0);
    assert_eq!(hints[0].shift_site, 2);
    assert_eq!(hints[0].fractional_bits, Some(8));
}

#[test]
fn flags_a_divide_prescaled_by_a_left_shift() {
    // ASL.L #4,D2 ; DIVS.W D1,D2 ; RTS
    let code = [0xe9, 0x82, 0x85, 0xc1, 0x4e, 0x75];
    let hints = fixed_point_hints(&analyze(&code, 0));
    assert_eq!(hints.len(), 1);
    assert_eq!(hints[0].kind, FixedPointKind::ScaledDivide);
    assert_eq!(hints[0].register, 2);
    assert_eq!(hints[0].site, 2);
    assert_eq!(hints[0].shift_site, 0);
    assert_eq!(hints[0].fractional_bits, Some(4));
}

#[test]
fn ignores_a_multiply_with_no_normalising_shift() {
    // MULS.W D1,D3 ; RTS
    let code = [0xc7, 0xc1, 0x4e, 0x75];
    assert!(fixed_point_hints(&analyze(&code, 0)).is_empty());
}

#[test]
fn ignores_a_right_shift_on_a_different_register() {
    // MULS.W D1,D3 ; ASR.L #8,D2 ; RTS  (shift renormalises D2, not the product D3)
    let code = [0xc7, 0xc1, 0xe0, 0x82, 0x4e, 0x75];
    assert!(fixed_point_hints(&analyze(&code, 0)).is_empty());
}

#[test]
fn idioms_refuse_intervening_register_writes_in_both_directions() {
    for clobber in [
        &[0x76, 0x00][..],         // MOVEQ #0,D3
        &[0x48, 0xc3],             // EXT.L D3 (scale-preserving, but changes the value)
        &[0xd6, 0x43],             // ADD.W D3,D3
        &[0x4c, 0xd8, 0x00, 0x08], // MOVEM.L (A0)+,D3
        &[0x4e, 0x7a, 0x38, 0x01], // MOVEC VBR,D3
        &[0x4e, 0x40],             // TRAP #0
    ] {
        for (first, last) in [
            ([0xc7, 0xc1], [0xe0, 0x83]), // MULS ; ASR
            ([0xe9, 0x83], [0x87, 0xc1]), // ASL ; DIVS
        ] {
            let mut code = first.to_vec();
            code.extend_from_slice(clobber);
            code.extend_from_slice(&last);
            code.extend_from_slice(&[0x4e, 0x75]);
            assert!(
                fixed_point_hints(&analyze(&code, 0)).is_empty(),
                "{code:02x?}"
            );
        }
    }
}

#[test]
fn idioms_allow_unrelated_writes_and_read_only_intermediates() {
    // MULS D1,D3 ; MOVEQ #0,D2 ; TST.L D3 ; ASR.L #8,D3 ; RTS
    let code = [0xc7, 0xc1, 0x74, 0x00, 0x4a, 0x83, 0xe0, 0x83, 0x4e, 0x75];
    assert_eq!(fixed_point_hints(&analyze(&code, 0)).len(), 1);
}

#[test]
fn idioms_do_not_cross_branches_gaps_joins_or_function_entries() {
    for code in [
        // MULS ; BEQ shift ; NOP ; shift: ASR ; RTS
        &[0xc7, 0xc1, 0x67, 0x02, 0x4e, 0x71, 0xe0, 0x83, 0x4e, 0x75][..],
        // MULS ; BRA shift ; data ; shift: ASR ; RTS
        &[0xc7, 0xc1, 0x60, 0x02, 0xff, 0xff, 0xe0, 0x83, 0x4e, 0x75],
        // BEQ shift ; MULS ; shift: ASR ; RTS
        &[0x67, 0x02, 0xc7, 0xc1, 0xe0, 0x83, 0x4e, 0x75],
        // ASL ; BEQ divide ; NOP ; divide: DIVS ; RTS
        &[0xe9, 0x83, 0x67, 0x02, 0x4e, 0x71, 0x87, 0xc1, 0x4e, 0x75],
    ] {
        assert!(
            fixed_point_hints(&analyze(code, 0)).is_empty(),
            "{code:02x?}"
        );
    }
    let code = [0xc7, 0xc1, 0xe0, 0x83, 0x4e, 0x75];
    assert!(fixed_point_hints(&analyze_entries(&code, &[0, 2])).is_empty());
}

#[test]
fn scales_follow_non_linear_blocks_including_backward_edges() {
    // BRA seed ; copy: MOVE.L D3,D2 ; RTS ; seed: MULS ; ASR ; BRA copy
    let code = [
        0x60, 0x04, 0x24, 0x03, 0x4e, 0x75, 0xc7, 0xc1, 0xe0, 0x83, 0x60, 0xf6,
    ];
    assert!(
        fixed_point_scales(&analyze(&code, 0)).contains(&FixedPointScale {
            site: 2,
            register: 2,
            fractional_bits: 8,
        })
    );
}

#[test]
fn scale_joins_require_agreement_from_every_predecessor() {
    for (right_shift, expected) in [(0xe0, Some(8)), (0xe2, None)] {
        // BEQ right ; MULS ; ASR #8 ; BRA join ;
        // right: MULS ; ASR #8/#1 ; join: MOVE.L D3,D2 ; RTS
        let code = [
            0x67,
            0x06,
            0xc7,
            0xc1,
            0xe0,
            0x83,
            0x60,
            0x04,
            0xc7,
            0xc1,
            right_shift,
            0x83,
            0x24,
            0x03,
            0x4e,
            0x75,
        ];
        let scales = fixed_point_scales(&analyze(&code, 0));
        assert_eq!(
            scales
                .iter()
                .find(|scale| scale.site == 12)
                .map(|scale| scale.fractional_bits),
            expected
        );
    }
    // BEQ join ; MULS ; ASR ; join: MOVE.L D3,D2 ; RTS
    let code = [0x67, 0x04, 0xc7, 0xc1, 0xe0, 0x83, 0x24, 0x03, 0x4e, 0x75];
    assert!(
        !fixed_point_scales(&analyze(&code, 0))
            .iter()
            .any(|scale| scale.site == 6)
    );
}

#[test]
fn loop_backedges_erase_stale_worklist_results() {
    // MULS ; ASR ; loop: MOVE.L D3,D2 ; ASL.L #1,D3 ; BNE loop ; RTS
    let code = [
        0xc7, 0xc1, 0xe0, 0x83, 0x24, 0x03, 0xe3, 0x83, 0x66, 0xfa, 0x4e, 0x75,
    ];
    let scales = fixed_point_scales(&analyze(&code, 0));
    assert!(scales.iter().any(|scale| scale.site == 2));
    assert!(!scales.iter().any(|scale| matches!(scale.site, 4 | 6)));
}

#[test]
fn calls_clear_scales_even_in_non_scratch_registers() {
    // MULS ; ASR ; JSR (A0) ; MOVE.L D3,D2 ; RTS
    let code = [0xc7, 0xc1, 0xe0, 0x83, 0x4e, 0x90, 0x24, 0x03, 0x4e, 0x75];
    let scales = fixed_point_scales(&analyze(&code, 0));
    assert!(scales.iter().any(|scale| scale.site == 2));
    assert!(!scales.iter().any(|scale| scale.site == 6));
}

#[test]
fn unresolved_jumps_and_shared_entries_cannot_invent_scales() {
    let code = [0xc7, 0xc1, 0xe0, 0x83, 0x24, 0x03, 0x4e, 0xd0];
    assert!(fixed_point_scales(&analyze(&code, 0)).is_empty());
    let code = [0xc7, 0xc1, 0xe0, 0x83, 0x24, 0x03, 0x4e, 0x75];
    assert!(
        !fixed_point_scales(&analyze_entries(&code, &[0, 4]))
            .iter()
            .any(|scale| scale.site == 4)
    );
}

#[test]
fn detects_an_upper_saturating_clamp() {
    // CMPI.W #$7fff,D0 ; BLE.S done ; MOVE.W #$7fff,D0 ; done: RTS
    let code = [
        0x0c, 0x40, 0x7f, 0xff, 0x6f, 0x04, 0x30, 0x3c, 0x7f, 0xff, 0x4e, 0x75,
    ];
    let hints = clamp_hints(&analyze(&code, 0));
    assert_eq!(hints.len(), 1);
    assert_eq!(
        hints[0],
        ClampHint {
            site: 0,
            assign_site: 6,
            register: 0,
            size: 2,
            bound: 0x7fff,
            kind: ClampKind::Upper,
        }
    );
}

#[test]
fn detects_add_overflow_saturation() {
    // ADD.W D1,D0 ; BVC.S done ; MOVE.W #$7fff,D0 ; done: RTS
    let code = [0xd0, 0x41, 0x68, 0x04, 0x30, 0x3c, 0x7f, 0xff, 0x4e, 0x75];
    let hints = clamp_hints(&analyze(&code, 0));
    assert_eq!(hints.len(), 1);
    assert_eq!(hints[0].site, 0);
    assert_eq!(hints[0].assign_site, 4);
    assert_eq!(hints[0].register, 0);
    assert_eq!(hints[0].bound, 0x7fff);
    assert_eq!(hints[0].kind, ClampKind::Upper);
}

#[test]
fn propagates_q_scale_through_copies_and_shifts() {
    // MULS.W D1,D3 ; ASR.L #8,D3 ; MOVE.L D3,D2 ; ASL.L #2,D2 ; RTS
    let code = [0xc7, 0xc1, 0xe0, 0x83, 0x24, 0x03, 0xe5, 0x82, 0x4e, 0x75];
    let scales = fixed_point_scales(&analyze(&code, 0));
    assert!(scales.contains(&FixedPointScale {
        site: 2,
        register: 3,
        fractional_bits: 8,
    }));
    assert!(scales.contains(&FixedPointScale {
        site: 4,
        register: 2,
        fractional_bits: 8,
    }));
    assert!(scales.contains(&FixedPointScale {
        site: 6,
        register: 2,
        fractional_bits: 10,
    }));
}

/// Every instruction here replaces or reorders `D3` after it acquired a Q8
/// scale, so the copy that follows must carry *no* scale into `D2`.
///
/// These are not hypothetical forms. `MULU`+`SWAP` is the classic 68000 Q16
/// renormalisation idiom, so a walk that reads `SWAP` as scale-preserving
/// fires on exactly the code this module exists to read — and reports a
/// number rather than nothing, which is the worse of the two ways to be
/// wrong.
#[test]
fn a_clobbered_register_carries_no_scale_into_a_copy() {
    // MULS.W D1,D3 ; ASR.L #8,D3 ; <clobber> ; MOVE.L D3,D2 ; RTS
    let clobbers: [(&str, &[u8]); 7] = [
        ("SWAP D3", &[0x48, 0x43]),
        ("MOVEM.L (A0)+,D3", &[0x4c, 0xd8, 0x00, 0x08]),
        ("ADDQ.W #1,D3", &[0x52, 0x43]),
        ("ROR.L #4,D3", &[0xe8, 0x9b]),
        ("ANDI.W #$00ff,D3", &[0x02, 0x43, 0x00, 0xff]),
        ("EXG D3,D2", &[0xc7, 0x42]),
        ("NEG.L D3", &[0x44, 0x83]),
    ];
    for (name, clobber) in clobbers {
        let mut code = vec![0xc7, 0xc1, 0xe0, 0x83];
        code.extend_from_slice(clobber);
        code.extend_from_slice(&[0x24, 0x03, 0x4e, 0x75]);
        let copy_site = u32::try_from(4 + clobber.len()).expect("fixture fits");
        let scales = fixed_point_scales(&analyze(&code, 0));
        assert!(
            !scales
                .iter()
                .any(|scale| scale.site == copy_site && scale.register == 2),
            "{name} left a stale Q scale to be copied into D2: {scales:?}"
        );
    }
}

/// A shift whose count is in a register moves the binary point by an amount
/// this walk cannot read. That is not the same as not moving it.
#[test]
fn a_register_count_shift_clears_the_scale_it_cannot_compute() {
    // MULS.W D1,D3 ; ASR.L #8,D3 ; ASR.L D0,D3 ; MOVE.L D3,D2 ; RTS
    let code = [0xc7, 0xc1, 0xe0, 0x83, 0xe0, 0xa3, 0x24, 0x03, 0x4e, 0x75];
    let scales = fixed_point_scales(&analyze(&code, 0));
    assert!(
        !scales
            .iter()
            .any(|scale| scale.site == 6 && scale.register == 2),
        "a register-count shift left the scale it could not compute: {scales:?}"
    );
}

/// `EXG` swaps two registers, so it swaps their scales rather than
/// destroying one and inventing the other.
#[test]
fn exg_moves_a_scale_to_the_other_register() {
    // MULS.W D1,D3 ; ASR.L #8,D3 ; EXG D3,D2 ; MOVE.L D2,D1 ; RTS
    let code = [0xc7, 0xc1, 0xe0, 0x83, 0xc7, 0x42, 0x22, 0x02, 0x4e, 0x75];
    let scales = fixed_point_scales(&analyze(&code, 0));
    assert!(
        scales.contains(&FixedPointScale {
            site: 6,
            register: 1,
            fractional_bits: 8,
        }),
        "EXG did not carry the scale to the register it exchanged with: {scales:?}"
    );
}

/// Sign extension changes the integer width, not the position of the binary
/// point — the one form that genuinely preserves a scale.
#[test]
fn sign_extension_preserves_a_scale() {
    // MULS.W D1,D3 ; ASR.L #8,D3 ; EXT.L D3 ; MOVE.L D3,D2 ; RTS
    let code = [0xc7, 0xc1, 0xe0, 0x83, 0x48, 0xc3, 0x24, 0x03, 0x4e, 0x75];
    let scales = fixed_point_scales(&analyze(&code, 0));
    assert!(
        scales.contains(&FixedPointScale {
            site: 6,
            register: 2,
            fractional_bits: 8,
        }),
        "sign extension lost a scale it preserves: {scales:?}"
    );
}
