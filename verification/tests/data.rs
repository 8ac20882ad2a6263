use amiga_disasm::{
    analyze, DataPreview, DisputedTarget, MAX_DATA_REGION, MAX_PREVIEW_TEXT, TargetConflict,
};
use amiga_disasm::collections::OrderedSet;
use amiga_disasm::data::{escape, scan};

fn targets(offsets: &[u32]) -> OrderedSet<u32> {
    OrderedSet::from_slice(offsets)
}

/// `LEA (2,PC),A0 ; RTS` then data at 0x06.
fn code_with_data(data: &[u8]) -> Vec<u8> {
    let mut code = vec![0x41, 0xfa, 0x00, 0x02, 0x4e, 0x75];
    code.extend_from_slice(data);
    code
}

#[test]
fn reads_a_nul_terminated_string_as_text() {
    let code = code_with_data(b"graphics.library\0");
    let found = scan(&code, &analyze(&code, 0), &targets(&[6]));
    assert_eq!(found.regions.len(), 1);
    assert_eq!(found.regions[0].start, 6);
    assert_eq!(
        found.regions[0].preview,
        DataPreview::Text {
            text: "graphics.library".to_owned(),
            truncated: false,
        }
    );
    assert!(found.disputed.is_empty());
}

#[test]
fn reads_in_range_longwords_as_a_pointer_table() {
    let mut data = Vec::new();
    for value in [0x00u32, 0x04, 0x08] {
        data.extend_from_slice(&value.to_be_bytes());
    }
    let code = code_with_data(&data);
    let found = scan(&code, &analyze(&code, 0), &targets(&[6]));
    assert_eq!(
        found.regions[0].preview,
        DataPreview::Pointers {
            offsets: vec![0, 4, 8],
            truncated: false,
        }
    );
}

#[test]
fn refuses_to_read_padding_or_out_of_range_words_as_pointers() {
    // All zero: one distinct value, so it is padding, not a table.
    let code = code_with_data(&[0; 12]);
    let found = scan(&code, &analyze(&code, 0), &targets(&[6]));
    assert!(matches!(
        found.regions[0].preview,
        DataPreview::Bytes { .. }
    ));
    // A longword beyond the image is not an offset into it.
    let mut data = 0x1234_5678u32.to_be_bytes().to_vec();
    data.extend_from_slice(&4u32.to_be_bytes());
    let code = code_with_data(&data);
    let found = scan(&code, &analyze(&code, 0), &targets(&[6]));
    assert!(matches!(
        found.regions[0].preview,
        DataPreview::Bytes { .. }
    ));
}

#[test]
fn a_region_stops_at_the_next_referenced_target() {
    let code = code_with_data(b"one\0two\0");
    let found = scan(&code, &analyze(&code, 0), &targets(&[6, 10]));
    assert_eq!(found.regions.len(), 2);
    // "one" plus its terminator: the extent classified, not the window.
    assert_eq!((found.regions[0].start, found.regions[0].end), (6, 10));
    assert_eq!(
        found.regions[1].preview,
        DataPreview::Text {
            text: "two".to_owned(),
            truncated: false,
        }
    );
}

#[test]
fn a_region_claims_only_the_bytes_it_classified() {
    // The string, its terminator, then unrelated bytes in the same window.
    let mut data = b"name\0".to_vec();
    data.extend_from_slice(&[0x12, 0x34, 0x56, 0x78]);
    let code = code_with_data(&data);
    let found = scan(&code, &analyze(&code, 0), &targets(&[6]));
    assert_eq!((found.regions[0].start, found.regions[0].end), (6, 11));
    // A pointer table claims its whole longwords and nothing after them.
    let mut data = Vec::new();
    for value in [0x04u32, 0x08] {
        data.extend_from_slice(&value.to_be_bytes());
    }
    data.push(0xff);
    let code = code_with_data(&data);
    let found = scan(&code, &analyze(&code, 0), &targets(&[6]));
    assert_eq!((found.regions[0].start, found.regions[0].end), (6, 14));
}

#[test]
fn a_long_region_is_bounded_and_says_so() {
    let mut data = vec![b'a'; MAX_DATA_REGION * 2];
    data.push(0);
    let code = code_with_data(&data);
    let found = scan(&code, &analyze(&code, 0), &targets(&[6]));
    // The examined window is capped, and nothing was recognized inside it,
    // so the region reports exactly that window.
    assert_eq!(
        found.regions[0].end - found.regions[0].start,
        MAX_DATA_REGION as u32
    );
    // ...and the window holds no NUL, so it is not text.
    assert!(matches!(
        found.regions[0].preview,
        DataPreview::Bytes { .. }
    ));
}

#[test]
fn a_preview_is_length_bounded_and_marked_when_cut() {
    let mut data = vec![b'x'; MAX_PREVIEW_TEXT + 10];
    data.push(0);
    let code = code_with_data(&data);
    let found = scan(&code, &analyze(&code, 0), &targets(&[6]));
    let DataPreview::Text { text, truncated } = &found.regions[0].preview else {
        panic!("not text: {:?}", found.regions[0].preview);
    };
    assert_eq!(text.len(), MAX_PREVIEW_TEXT);
    assert!(truncated);
}

#[test]
fn escaping_neutralizes_control_characters_and_quotes() {
    let (text, truncated) = escape(b"a\nb\"c\\d\x1b[0m", 64);
    assert_eq!(text, "a\\x0ab\\\"c\\\\d\\x1b[0m");
    assert!(!truncated);
    assert!(!text.contains('\n'));
    assert!(!text.chars().any(char::is_control));
    // Non-ASCII bytes never reach the output as raw bytes.
    let (high, _) = escape(&[0x80, 0xff], 64);
    assert_eq!(high, "\\x80\\xff");
}

#[test]
fn a_reference_into_the_middle_of_an_instruction_is_disputed() {
    let code = code_with_data(b"data\0");
    // 0x02 is inside the LEA at 0x00.
    let found = scan(&code, &analyze(&code, 0), &targets(&[2]));
    assert!(found.regions.is_empty());
    assert_eq!(
        found.disputed,
        [DisputedTarget {
            offset: 2,
            conflict: TargetConflict::IntoInstruction,
            instruction: Some(0),
        }]
    );
}

#[test]
fn decoded_code_that_also_reads_as_a_long_string_is_disputed() {
    // "NqNqNqNq..." decodes as a run of RTS and reads as printable text.
    let mut code = vec![0x4e, 0x75];
    code.extend_from_slice(&b"Nq".repeat(6));
    code.push(0);
    let analysis = analyze(&code, 2);
    let found = scan(&code, &analysis, &targets(&[2]));
    assert_eq!(
        found.disputed,
        [DisputedTarget {
            offset: 2,
            conflict: TargetConflict::CodeReadsAsText,
            instruction: Some(2),
        }]
    );
}

#[test]
fn a_target_outside_the_code_is_ignored() {
    let code = code_with_data(b"data\0");
    let found = scan(&code, &analyze(&code, 0), &targets(&[0xffff]));
    assert!(found.regions.is_empty());
    assert!(found.disputed.is_empty());
}
