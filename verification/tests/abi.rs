use amiga_disasm::{parse_register, ArgumentType};
use amiga_disasm::abi::{argument_type, arguments, render};

#[test]
fn allocation_flags_render_as_the_names_the_code_asked_for() {
    let kind = argument_type("exec.library", -198, "d1");
    assert_eq!(render(kind, (1 << 1) | (1 << 16)), "MEMF_CHIP|MEMF_CLEAR");
    assert_eq!(render(kind, 1 << 1), "MEMF_CHIP");
}

#[test]
fn unknown_bits_are_shown_rather_than_dropped() {
    // A flags word that is only partly understood must not read as fully
    // understood: the leftover is exactly what a reader needs to see.
    let kind = argument_type("exec.library", -198, "d1");
    assert_eq!(render(kind, (1 << 1) | (1 << 5)), "MEMF_CHIP|32");
    // And a word with no known bit at all stays a number.
    assert_eq!(render(kind, 1 << 5), "32");
}

#[test]
fn an_untyped_argument_is_never_decoded_as_flags() {
    // The same bits in `byteSize` are a size, not memory flags. Decoding
    // them would invent a type the code never declared.
    let kind = argument_type("exec.library", -198, "d0");
    assert_eq!(kind, ArgumentType::Raw);
    assert_eq!(render(kind, (1 << 1) | (1 << 16)), "0x10002");
}

#[test]
fn the_same_lvo_under_two_libraries_is_two_different_vectors() {
    // -30 is dos.library/Open and graphics.library/BltBitMap; only the
    // one this table describes gets arguments.
    assert_eq!(arguments("dos.library", -30).len(), 2);
    assert!(arguments("graphics.library", -30).is_empty());
}

#[test]
fn an_enumeration_falls_back_to_its_number() {
    let kind = argument_type("dos.library", -30, "d2");
    assert_eq!(render(kind, 1005), "MODE_OLDFILE");
    assert_eq!(render(kind, 7), "7");
}

#[test]
fn every_curated_register_parses_as_a_register() {
    for (library, lvo) in [
        ("exec.library", -198),
        ("exec.library", -444),
        ("dos.library", -42),
        ("dos.library", -66),
    ] {
        for argument in arguments(library, lvo) {
            assert!(
                parse_register(argument.register).is_some(),
                "{library} {lvo}: {:?} is not a register",
                argument.register
            );
        }
    }
}
