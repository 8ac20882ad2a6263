use amiga_disasm::fd::{parse, FdError};

const SAMPLE: &str = "\
* \"exec_lib.fd\" — a tiny sample in NDK layout.
##base _SysBase
##bias 30
Supervisor(userFunction)(a5)
##private
ExitIntr()()
##public
##bias 552
OpenLibrary(libName,version)(a1,d0)
CloseLibrary(library)(a1)
##end
IgnoredAfterEnd()()
";

#[test]
fn parses_directives_bias_stepping_and_visibility() {
    let file = parse(SAMPLE).unwrap_or_else(|error| panic!("{error:?}"));
    assert_eq!(file.base.as_deref(), Some("_SysBase"));
    assert_eq!(file.entries.len(), 4);
    assert_eq!(file.entries[0].name, "Supervisor");
    assert_eq!(file.entries[0].bias, 30);
    assert!(file.entries[0].public);
    assert_eq!(file.entries[0].params, vec!["userFunction"]);
    assert_eq!(file.entries[0].registers, vec!["a5"]);
    // The private entry follows at the next slot.
    assert_eq!(file.entries[1].name, "ExitIntr");
    assert_eq!(file.entries[1].bias, 36);
    assert!(!file.entries[1].public);
    assert!(file.entries[1].params.is_empty());
    // ##bias resets; the next entry steps by 6 again.
    assert_eq!(file.entries[2].bias, 552);
    assert_eq!(file.entries[2].registers, vec!["a1", "d0"]);
    assert_eq!(file.entries[3].name, "CloseLibrary");
    assert_eq!(file.entries[3].bias, 558);
}

#[test]
fn keeps_slash_joined_register_groups_together() {
    let file =
        parse("##bias 30\nDraw(rp,x,y)(a1,d0/d1)\n").unwrap_or_else(|error| panic!("{error:?}"));
    assert_eq!(file.entries[0].registers, vec!["a1", "d0/d1"]);
    assert_eq!(file.entries[0].params, vec!["rp", "x", "y"]);
    assert_eq!(file.entries[0].lvo_offset(), -30);
}

#[test]
fn tolerates_empty_list_items() {
    // Doubled or trailing separators are dropped rather than producing
    // empty parameter names or register groups.
    let file = parse("##bias 30\nOpen(a,,b)(d0,,)\n").unwrap_or_else(|error| panic!("{error:?}"));
    assert_eq!(file.entries[0].params, vec!["a", "b"]);
    assert_eq!(file.entries[0].registers, vec!["d0"]);
}

#[test]
fn rejects_bias_zero_and_duplicate_base() {
    assert_eq!(
        parse("##bias 0\nZero()()\n"),
        Err(FdError::ZeroBias { line: 2 })
    );
    assert_eq!(
        parse("##base _A\n##base _B\n"),
        Err(FdError::DuplicateBase { line: 2 })
    );
}

#[test]
fn rejects_a_function_before_any_bias() {
    assert_eq!(
        parse("Open(name)(d1)\n"),
        Err(FdError::MissingBias { line: 1 })
    );
}

#[test]
fn rejects_unknown_directives_and_malformed_entries() {
    assert_eq!(
        parse("##shadow\n"),
        Err(FdError::UnknownDirective {
            line: 1,
            directive: "##shadow".to_owned(),
        })
    );
    assert_eq!(parse("##base\n"), Err(FdError::MissingBase { line: 1 }));
    assert_eq!(
        parse("##bias x\n"),
        Err(FdError::InvalidBias {
            line: 1,
            value: "x".to_owned(),
        })
    );
    assert!(matches!(
        parse("##bias 30\nOpen(name\n"),
        Err(FdError::MalformedFunction { line: 2, .. })
    ));
    assert!(matches!(
        parse("##bias 30\n1BadName()()\n"),
        Err(FdError::MalformedFunction { line: 2, .. })
    ));
}

#[test]
fn rejects_bias_overflow_and_duplicates() {
    assert_eq!(
        parse("##bias 32766\nAlmost()()\nOver()()\n"),
        Err(FdError::BiasOverflow {
            line: 3,
            bias: 32772,
        })
    );
    assert_eq!(
        parse("##bias 30\nFirst()()\n##bias 30\nSecond()()\n"),
        Err(FdError::DuplicateBias { line: 4, bias: 30 })
    );
}

#[test]
fn rejects_too_many_entries() {
    let mut text = String::from("##bias 30\n");
    for index in 0..2049 {
        text.push_str(&format!("F{index}()()\n"));
    }
    assert_eq!(parse(&text), Err(FdError::TooManyEntries { limit: 2048 }));
}

#[test]
fn nothing_behind_the_end_is_read() {
    let head = "##base _DosBase\n##bias 30\nOpen(name,mode)(d1/d2)\n";
    let whole = parse(&format!("{head}##end\n")).unwrap();
    assert_eq!(whole.entries.len(), 1);
    for tail in ["##bogus\n", "Second()()\n", "not an entry", "##base _Other\n"] {
        assert_eq!(parse(&format!("{head}##end\n{tail}")).as_ref(), Ok(&whole));
        assert_eq!(parse(&format!("{head}  ##end please\n{tail}")).as_ref(), Ok(&whole));
    }
    // A `##end` that has not been reached does not end anything.
    assert!(parse(&format!("{head}##bogus\n##end\n")).is_err());
}

#[test]
fn comments_and_blank_lines_only_move_what_is_below_them() {
    let above = "##base _DosBase\n##bias 30\n";
    let below = "Open(name,mode)(d1/d2)\n##end\n";
    let plain = parse(&format!("{above}{below}")).unwrap();
    for line in ["", "   ", "* comment", "  * Open(name)(d1)", "\t"] {
        assert_eq!(parse(&format!("{above}{line}\n{below}")).as_ref(), Ok(&plain));
        assert_eq!(parse(&format!("{line}\n{above}{below}")).as_ref(), Ok(&plain));
        // A failure above it stays where it is, and one below it moves down.
        assert_eq!(
            parse(&format!("##bias x\n{line}\n{below}")),
            Err(FdError::InvalidBias {
                line: 1,
                value: "x".to_string()
            })
        );
        assert_eq!(
            parse(&format!("{line}\n##bias x\n{below}")),
            Err(FdError::InvalidBias {
                line: 2,
                value: "x".to_string()
            })
        );
    }
}
