use amiga_disasm::{analyze, register_accesses, AccessForm, AccessKind, RegisterAccess};

const DFF000: u32 = 0x00df_f000;

#[test]
fn finds_an_absolute_register_write() {
    // MOVE.W #$8020, $00DFF096 ; RTS
    let code = [0x33, 0xfc, 0x80, 0x20, 0x00, 0xdf, 0xf0, 0x96, 0x4e, 0x75];
    let accesses = register_accesses(&analyze(&code, 0), DFF000);
    assert!(accesses.contains(&RegisterAccess {
        site: 0,
        offset: 0x096,
        form: AccessForm::Absolute,
        kind: AccessKind::Write,
    }));
}

#[test]
fn classifies_an_absolute_register_read() {
    // MOVE.W $00DFF01C,D0 ; RTS — read INTENAR into D0.
    let code = [0x30, 0x39, 0x00, 0xdf, 0xf0, 0x1c, 0x4e, 0x75];
    let accesses = register_accesses(&analyze(&code, 0), DFF000);
    assert!(accesses.contains(&RegisterAccess {
        site: 0,
        offset: 0x01c,
        form: AccessForm::Absolute,
        kind: AccessKind::Read,
    }));
}

#[test]
fn finds_a_base_relative_access_after_loading_the_base() {
    // LEA $00DFF000,A6 ; MOVE.W #$8020,(0x96,A6) ; RTS
    let code = [
        0x4d, 0xf9, 0x00, 0xdf, 0xf0, 0x00, // LEA $DFF000,A6
        0x3d, 0x7c, 0x80, 0x20, 0x00, 0x96, // MOVE.W #$8020,(0x96,A6)
        0x4e, 0x75, // RTS
    ];
    let accesses = register_accesses(&analyze(&code, 0), DFF000);
    assert!(accesses.contains(&RegisterAccess {
        site: 6,
        offset: 0x096,
        form: AccessForm::BaseRelative,
        kind: AccessKind::Write,
    }));
    // The base-loading LEA itself (offset 0) is not reported as an access.
    assert!(accesses.iter().all(|access| access.offset != 0));
}

#[test]
fn does_not_treat_a_plain_address_register_offset_as_a_register() {
    // Without a base load, (0x96,A6) is not a custom-chip access.
    // MOVE.W #$8020,(0x96,A6) ; RTS
    let code = [0x3d, 0x7c, 0x80, 0x20, 0x00, 0x96, 0x4e, 0x75];
    assert!(register_accesses(&analyze(&code, 0), DFF000).is_empty());
}
