//! What the previews of data say of the bytes.

use crate::data::{
    escaped_byte, is_pointer_table, longwords, printable_prefix, spec_classify, spec_is_printable,
    spec_printable_run, spec_region_end, marks, PreviewView, MAX_PREVIEW_TEXT, MAX_PREVIEW_VALUES,
    MIN_TEXT_LENGTH,
};
use crate::device::spec_truncate;
use crate::memory::fits;
use crate::text::digit_char;
use vstd::prelude::*;

verus! {

/// A byte is printable if it is a character of ASCII that can be seen, a space, a tab or one
/// that ends a line.
pub proof fn printable_bytes_are_text(byte: u8)
    ensures
        spec_is_printable(byte) <==> (' ' <= byte as char <= '~' || byte as char == '\t' || byte as char
            == '\n' || byte as char == '\r'),
{
}

proof fn lemma_prefix(bytes: Seq<u8>, from: int)
    requires
        0 <= from <= bytes.len(),
    ensures
        from <= printable_prefix(bytes, from) <= bytes.len(),
        forall|i: int|
            from <= i < printable_prefix(bytes, from) ==> spec_is_printable(#[trigger] bytes[i]),
        printable_prefix(bytes, from) < bytes.len() ==> !spec_is_printable(
            bytes[printable_prefix(bytes, from)],
        ),
    decreases bytes.len() - from,
{
    if from < bytes.len() && spec_is_printable(bytes[from]) {
        lemma_prefix(bytes, from + 1);
    }
}

/// Whether the first bytes of a region are a text of that many printable bytes, closed by a
/// zero byte.
pub open spec fn is_text(region: Seq<u8>, length: int) -> bool {
    &&& 0 <= length < region.len()
    &&& region[length] == 0
    &&& forall|i: int| 0 <= i < length ==> spec_is_printable(#[trigger] region[i])
}

/// A run of text is found exactly if the region starts with one that is long enough, and it is
/// all of it.
pub proof fn texts_are_found(region: Seq<u8>, minimum: nat, length: int)
    ensures
        is_text(region, length) && length >= minimum <==> spec_printable_run(region, minimum)
            == Some(length),
{
    lemma_prefix(region, 0);
    let found = printable_prefix(region, 0);
    if is_text(region, length) {
        if found < length {
            assert(spec_is_printable(region[found]));
        }
        if found > length {
            assert(spec_is_printable(region[length]));
        }
    }
}

/// Different bytes are shown differently.
pub proof fn bytes_are_shown_apart(left: u8, right: u8)
    requires
        escaped_byte(left) == escaped_byte(right),
    ensures
        left == right,
{
    let a = escaped_byte(left);
    let b = escaped_byte(right);
    assert(a.len() == b.len());
    assert(a[0] == b[0]);
    if a.len() >= 2 {
        assert(a[1] == b[1]);
    }
    if a.len() == 4 {
        assert(a[2] == b[2] && a[3] == b[3]);
        lemma_digit((left / 16) as nat, (right / 16) as nat);
        lemma_digit((left % 16) as nat, (right % 16) as nat);
    }
}

proof fn lemma_digit(left: nat, right: nat)
    requires
        left < 16,
        right < 16,
        digit_char(left) == digit_char(right),
    ensures
        left == right,
{
}

/// The longwords of a region are its bytes, four by four, the first one highest.
pub proof fn longwords_are_big_endian(region: Seq<u8>, k: int)
    requires
        0 <= k < longwords(region).len(),
    ensures
        4 * k + 4 <= region.len(),
        longwords(region)[k] == region[4 * k] * 0x100_0000 + region[4 * k + 1] * 0x1_0000
            + region[4 * k + 2] * 0x100 + region[4 * k + 3],
        longwords(region).len() == region.len() / 4,
{
}

/// What a region is shown as: text where it starts with text, and the text and its zero byte
/// are all of it; else pointers, if its longwords all lie in the image and two of them differ
/// and are not null; else its bytes. What does not fit is left out, and that is said.
pub proof fn regions_are_shown_as_what_they_are(region: Seq<u8>, code_len: int)
    ensures
        ({
            let (preview, length) = spec_classify(region, code_len);
            match preview {
                PreviewView::Text { text, truncated } => {
                    &&& is_text(region, length - 1)
                    &&& length - 1 >= MIN_TEXT_LENGTH
                    &&& truncated <==> length - 1 > MAX_PREVIEW_TEXT
                },
                PreviewView::Pointers { offsets, truncated } => {
                    &&& forall|n: int| is_text(region, n) ==> n < MIN_TEXT_LENGTH
                    &&& is_pointer_table(longwords(region), code_len)
                    &&& length == 4 * (region.len() / 4)
                    &&& offsets.is_prefix_of(longwords(region))
                    &&& truncated <==> offsets != longwords(region)
                    &&& offsets.len() <= MAX_PREVIEW_VALUES
                },
                PreviewView::Bytes { bytes, truncated } => {
                    &&& forall|n: int| is_text(region, n) ==> n < MIN_TEXT_LENGTH
                    &&& !is_pointer_table(longwords(region), code_len)
                    &&& length == region.len()
                    &&& bytes.is_prefix_of(region)
                    &&& truncated <==> bytes != region
                    &&& bytes.len() <= MAX_PREVIEW_VALUES
                },
            }
        }),
{
    assert forall|n: int| is_text(region, n) && n >= MIN_TEXT_LENGTH implies spec_printable_run(
        region,
        MIN_TEXT_LENGTH as nat,
    ) == Some(n) by {
        texts_are_found(region, MIN_TEXT_LENGTH as nat, n);
    }
    if let Some(length) = spec_printable_run(region, MIN_TEXT_LENGTH as nat) {
        texts_are_found(region, MIN_TEXT_LENGTH as nat, length);
    }
}

/// A region goes on until the image, the window, code or another reference ends it, and no
/// further and no less far.
pub proof fn regions_end_at_the_first_mark(
    code: Set<u32>,
    targets: Set<u32>,
    limit: int,
    at: int,
)
    requires
        at <= limit,
    ensures
        ({
            let end = spec_region_end(code, targets, limit, at);
            &&& at <= end <= limit
            &&& forall|i: int|
                at <= i < end ==> !#[trigger] marks(code, i) && !marks(targets, i)
            &&& end == limit || marks(code, end) || marks(targets, end)
        }),
    decreases limit - at,
{
    if at < limit && !marks(code, at) && !marks(targets, at) {
        regions_end_at_the_first_mark(code, targets, limit, at + 1);
    }
}

/// What a device answers is cut off at the width of the access.
pub proof fn answers_are_cut_off_at_the_width(value: u32, size: u8)
    requires
        size == 1 || size == 2 || size == 4,
    ensures
        fits(spec_truncate(value, size), size),
        fits(value, size) ==> spec_truncate(value, size) == value,
        (value - spec_truncate(value, size)) % 0x100 == 0,
        size >= 2 ==> (value - spec_truncate(value, size)) % 0x1_0000 == 0,
        size == 4 ==> spec_truncate(value, size) == value,
{
}

} // verus!
