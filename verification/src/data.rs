//! Classifying the regions of a hunk that code references but control flow
//! never decoded.
//!
//! A recursive traversal tells you which bytes are instructions. What is left
//! over is not automatically meaningless: it is the strings, pointer tables,
//! and constant tables the code addresses. This module reads a bounded window
//! at each referenced offset and reports what the bytes look like, so a report
//! can show a reader *what* an operand points at instead of only *where*.
//!
//! Everything here is a guess about intent, so every region is reported with
//! its evidence. The previews are deliberately small and escaped: a preview is a
//! legible excerpt for a human, never a channel for the file's bytes to reach a
//! renderer unfiltered.

use crate::analysis::{AnalysisView, ControlFlowAnalysis};
use crate::collections::{ascending, gathered, in_order, lemma_in_order, OrderedSet, Ranked};
use crate::jump_tables::{long_at, read_long, MAX_INSTRUCTION_BYTES};
use crate::text::{digit_char, digit_text};
use vstd::prelude::*;
use vstd::slice::*;
use vstd::string::*;

verus! {

/// The most bytes examined when classifying one region. A referenced table can
/// be arbitrarily long; the classification only needs its beginning, and the
/// bound keeps a hostile input from turning one reference into a large scan.
pub const MAX_DATA_REGION: usize = 256;

/// The most source bytes rendered into a text preview.
pub const MAX_PREVIEW_TEXT: usize = 48;

/// The most values listed in a pointer or constant preview.
pub const MAX_PREVIEW_VALUES: usize = 8;

/// The shortest printable run accepted as text, so two stray letters in a
/// constant table do not read as a string.
pub const MIN_TEXT_LENGTH: usize = 3;

/// The shortest printable run inside decoded code that is worth reporting as a
/// code/data disagreement. Real instruction encodings produce short printable
/// runs often and long ones almost never.
pub const MIN_SUSPECT_TEXT_LENGTH: usize = 8;

/// A bounded, escaped excerpt of a referenced region, and what it looks like.
///
/// The variant is the classification: text, a table of pointers into this
/// image, or bytes that are neither. `truncated` says the region continues
/// past the excerpt, so a short preview is never mistaken for a short region.
#[derive(Debug, PartialEq, Eq)]
pub enum DataPreview {
    /// A NUL-terminated run of printable bytes, escaped by [`escape`].
    Text { text: String, truncated: bool },
    /// Longwords that all address a byte of this image.
    Pointers { offsets: Vec<u32>, truncated: bool },
    /// Anything else, as raw bytes.
    Bytes { bytes: Vec<u8>, truncated: bool },
}

/// A preview as a mathematical value.
#[verifier::ext_equal]
pub enum PreviewView {
    Text { text: Seq<char>, truncated: bool },
    Pointers { offsets: Seq<u32>, truncated: bool },
    Bytes { bytes: Seq<u8>, truncated: bool },
}

impl View for DataPreview {
    type V = PreviewView;

    open spec fn view(&self) -> PreviewView {
        match *self {
            DataPreview::Text { text, truncated } => PreviewView::Text { text: text@, truncated },
            DataPreview::Pointers { offsets, truncated } => PreviewView::Pointers {
                offsets: offsets@,
                truncated,
            },
            DataPreview::Bytes { bytes, truncated } => PreviewView::Bytes {
                bytes: bytes@,
                truncated,
            },
        }
    }
}

impl DataPreview {
    /// The snake_case class tag of a preview.
    pub open spec fn spec_class(&self) -> Seq<char> {
        match *self {
            DataPreview::Text { .. } => "text"@,
            DataPreview::Pointers { .. } => "pointers"@,
            DataPreview::Bytes { .. } => "bytes"@,
        }
    }

    /// The snake_case class tag shared by text renderers and serializations.
    pub fn class(&self) -> (r: &'static str)
        ensures
            r@ == self.spec_class(),
    {
        match self {
            DataPreview::Text { .. } => "text",
            DataPreview::Pointers { .. } => "pointers",
            DataPreview::Bytes { .. } => "bytes",
        }
    }
}

/// One referenced region of a hunk that control flow did not decode.
#[derive(Debug, PartialEq, Eq)]
pub struct DataRegion {
    /// Hunk offset of the region's first byte, which is the referenced offset.
    pub start: u32,
    /// Hunk offset one past the last byte the classification accounts for: the
    /// string and its terminator, the whole longwords of the table, or the
    /// examined window when nothing was recognized.
    pub end: u32,
    pub preview: DataPreview,
}

/// A region as a mathematical value.
#[verifier::ext_equal]
pub struct RegionView {
    pub start: u32,
    pub end: u32,
    pub preview: PreviewView,
}

impl View for DataRegion {
    type V = RegionView;

    open spec fn view(&self) -> RegionView {
        RegionView { start: self.start, end: self.end, preview: self.preview@ }
    }
}

/// Why a referenced offset's classification as code or data is disputed.
#[derive(Clone, Copy, Debug, PartialEq, Eq, Structural)]
pub enum TargetConflict {
    /// A reference lands inside a decoded instruction instead of at its start,
    /// so either the decode or the reference is reading these bytes wrongly.
    IntoInstruction,
    /// Bytes control flow decoded as instructions also read as a printable,
    /// NUL-terminated string, and something addresses them.
    CodeReadsAsText,
}

impl TargetConflict {
    /// The snake_case tag of a conflict.
    pub open spec fn spec_label(self) -> Seq<char> {
        match self {
            TargetConflict::IntoInstruction => "into_instruction"@,
            TargetConflict::CodeReadsAsText => "code_reads_as_text"@,
        }
    }

    /// The snake_case tag shared by text renderers and serializations.
    pub fn label(self) -> (r: &'static str)
        ensures
            r@ == self.spec_label(),
    {
        match self {
            TargetConflict::IntoInstruction => "into_instruction",
            TargetConflict::CodeReadsAsText => "code_reads_as_text",
        }
    }
}

/// A referenced offset whose classification as code or data is disputed.
#[derive(Clone, Copy, Debug, PartialEq, Eq, Structural)]
pub struct DisputedTarget {
    /// The disputed hunk offset.
    pub offset: u32,
    pub conflict: TargetConflict,
    /// The decoded instruction covering `offset`.
    pub instruction: Option<u32>,
}

/// What a scan of the referenced offsets of one hunk found.
#[derive(Debug, PartialEq, Eq)]
pub struct DataScan {
    /// Referenced regions control flow never decoded, in offset order.
    pub regions: Vec<DataRegion>,
    /// Referenced offsets whose code/data classification is disputed, in
    /// offset order.
    pub disputed: Vec<DisputedTarget>,
}

/// Printable ASCII plus the whitespace a message string realistically holds.
pub open spec fn spec_is_printable(byte: u8) -> bool {
    byte == 9 || byte == 10 || byte == 13 || 0x20 <= byte <= 0x7e
}

/// Printable ASCII plus the whitespace a message string realistically holds.
/// Line breaks are accepted here and escaped by [`escape`], so a multi-line
/// message is still recognized as text without any renderer having to cope with
/// one that spans lines.
pub fn is_printable(byte: u8) -> (r: bool)
    ensures
        r == spec_is_printable(byte),
{
    byte == 9 || byte == 10 || byte == 13 || (byte >= 0x20 && byte <= 0x7e)
}

/// How many bytes of a list are printable before the first that is not.
pub open spec fn printable_prefix(bytes: Seq<u8>, from: int) -> int
    decreases bytes.len() - from,
{
    if 0 <= from < bytes.len() && spec_is_printable(bytes[from]) {
        printable_prefix(bytes, from + 1)
    } else {
        from
    }
}

/// The length of the printable run before the first NUL, when there is a NUL
/// behind it and the run is at least `minimum` bytes long.
pub open spec fn spec_printable_run(region: Seq<u8>, minimum: nat) -> Option<int> {
    let length = printable_prefix(region, 0);
    if length < region.len() && region[length] == 0 && length >= minimum {
        Some(length)
    } else {
        None
    }
}

fn printable_run(region: &[u8], minimum: usize) -> (r: Option<usize>)
    ensures
        match (r, spec_printable_run(region@, minimum as nat)) {
            (Some(length), Some(expected)) => length == expected && length < region@.len(),
            (None, None) => true,
            _ => false,
        },
{
    let mut i: usize = 0;
    while i < region.len() && is_printable(region[i])
        invariant
            i <= region@.len(),
            printable_prefix(region@, 0) == printable_prefix(region@, i as int),
        decreases region@.len() - i,
    {
        i += 1;
    }
    if i < region.len() && region[i] == 0 && i >= minimum {
        Some(i)
    } else {
        None
    }
}

/// One byte of a preview.
pub open spec fn escaped_byte(byte: u8) -> Seq<char> {
    if byte == 0x5c {
        seq!['\\', '\\']
    } else if byte == 0x22 {
        seq!['\\', '"']
    } else if 0x20 <= byte <= 0x7e {
        seq![byte as char]
    } else {
        seq!['\\', 'x', digit_char((byte / 16) as nat), digit_char((byte % 16) as nat)]
    }
}

/// Bytes as a preview shows them.
pub open spec fn escaped(bytes: Seq<u8>) -> Seq<char>
    decreases bytes.len(),
{
    if bytes.len() == 0 {
        Seq::empty()
    } else {
        escaped(bytes.drop_last()) + escaped_byte(bytes.last())
    }
}

/// The first bytes of a list, at most `limit`.
pub open spec fn shown<T>(list: Seq<T>, limit: int) -> Seq<T> {
    if list.len() <= limit {
        list
    } else {
        list.take(limit)
    }
}

/// Escape `bytes` into a bounded, single-line, printable-ASCII preview.
///
/// Every byte that is not printable ASCII becomes `\xNN`, and backslash and
/// double quote are escaped, so the result can never carry a control
/// character, a line break, or an unbalanced quote into a renderer. Returns
/// the escaped text and whether the source was longer than `limit` bytes.
///
/// This is not markup escaping: a preview may legitimately contain `<` or `&`,
/// and a renderer that emits markup must still escape for its own medium.
pub fn escape(bytes: &[u8], limit: usize) -> (r: (String, bool))
    ensures
        r.0@ == escaped(shown(bytes@, limit as int)),
        r.1 == (bytes@.len() > limit),
{
    let length: usize = bytes.len();
    let end: usize = if length <= limit {
        length
    } else {
        limit
    };
    let mut text = String::new();
    let mut i: usize = 0;
    while i < end
        invariant
            i <= end <= bytes@.len(),
            text@ == escaped(bytes@.take(i as int)),
        decreases end - i,
    {
        let byte: u8 = bytes[i];
        assert(bytes@.take(i + 1).drop_last() =~= bytes@.take(i as int));
        let ghost before = text@;
        if byte == 0x5c {
            text.push('\\');
            text.push('\\');
        } else if byte == 0x22 {
            text.push('\\');
            text.push('"');
        } else if byte >= 0x20 && byte <= 0x7e {
            text.push(byte as char);
        } else {
            text.push('\\');
            text.push('x');
            text.append(digit_text((byte / 16) as u32));
            text.append(digit_text((byte % 16) as u32));
        }
        assert(text@ =~= before + escaped_byte(byte));
        i += 1;
    }
    assert(bytes@.take(end as int) =~= shown(bytes@, limit as int));
    (text, length > limit)
}

/// A preview holds nothing but printable ASCII: no control character and no line
/// break.
pub proof fn escaped_text_is_printable(bytes: Seq<u8>)
    ensures
        forall|i: int|
            0 <= i < escaped(bytes).len() ==> ' ' <= #[trigger] escaped(bytes)[i] <= '~',
    decreases bytes.len(),
{
    if bytes.len() > 0 {
        escaped_text_is_printable(bytes.drop_last());
        let byte = bytes.last();
        assert forall|i: int| 0 <= i < escaped(bytes).len() implies ' ' <= #[trigger] escaped(
            bytes,
        )[i] <= '~' by {
            let before = escaped(bytes.drop_last());
            if i >= before.len() {
                let k = i - before.len();
                assert(escaped(bytes)[i] == escaped_byte(byte)[k]);
                assert(byte / 16 < 16);
                assert(byte % 16 < 16);
            }
        }
    }
}

/// Every quote of a preview stands behind a backslash.
pub proof fn escaped_quotes_are_escaped(bytes: Seq<u8>)
    ensures
        forall|i: int|
            0 <= i < escaped(bytes).len() && #[trigger] escaped(bytes)[i] == '"' ==> i > 0
                && escaped(bytes)[i - 1] == '\\',
    decreases bytes.len(),
{
    if bytes.len() > 0 {
        escaped_quotes_are_escaped(bytes.drop_last());
        let byte = bytes.last();
        let before = escaped(bytes.drop_last());
        assert forall|i: int|
            0 <= i < escaped(bytes).len() && #[trigger] escaped(bytes)[i] == '"' implies i > 0
            && escaped(bytes)[i - 1] == '\\' by {
            if i >= before.len() {
                let k = i - before.len();
                assert(escaped(bytes)[i] == escaped_byte(byte)[k]);
                assert(byte / 16 < 16);
                assert(byte % 16 < 16);
                assert(byte == 0x22 && k == 1);
                assert(escaped(bytes)[i - 1] == escaped_byte(byte)[0]);
            } else {
                assert(before[i] == '"');
                assert(escaped(bytes)[i - 1] == before[i - 1]);
            }
        }
    }
}

/// The whole longwords of a region.
pub open spec fn longwords(region: Seq<u8>) -> Seq<u32> {
    Seq::new((region.len() / 4) as nat, |k: int| long_at(region, 4 * k))
}

/// Whether longwords are a table of offsets into an image: at least two, every one
/// addressing a byte of the image, and at least two distinct non-zero values, so a
/// run of padding does not read as a table.
pub open spec fn is_pointer_table(offsets: Seq<u32>, code_len: int) -> bool {
    &&& offsets.len() >= 2
    &&& forall|k: int| 0 <= k < offsets.len() ==> #[trigger] offsets[k] < code_len
    &&& exists|i: int, j: int|
        0 <= i < offsets.len() && 0 <= j < offsets.len() && #[trigger] offsets[i] != 0
            && #[trigger] offsets[j] != 0 && offsets[i] != offsets[j]
}

/// The longwords of a region, where they are a table of offsets.
fn pointer_table(region: &[u8], code_len: usize) -> (r: Option<Vec<u32>>)
    ensures
        r is Some == is_pointer_table(longwords(region@), code_len as int),
        r matches Some(offsets) ==> offsets@ == longwords(region@),
{
    let length: usize = region.len();
    let count: usize = length / 4;
    if count < 2 {
        return None;
    }
    let ghost all = longwords(region@);
    let mut offsets: Vec<u32> = Vec::new();
    let mut first: u32 = 0;
    let mut distinct = false;
    let ghost mut witness: (int, int) = (0, 0);
    while offsets.len() < count
        invariant
            length == region@.len(),
            count == length / 4,
            all == longwords(region@),
            offsets@.len() <= count,
            offsets@ == all.take(offsets@.len() as int),
            forall|k: int| 0 <= k < offsets@.len() ==> #[trigger] all[k] < code_len,
            first == 0 ==> !distinct,
            distinct ==> 0 <= witness.0 < offsets@.len() && 0 <= witness.1 < offsets@.len()
                && all[witness.0] != 0 && all[witness.1] != 0 && all[witness.0] != all[witness.1],
            first != 0 && !distinct ==> 0 <= witness.0 < offsets@.len() && all[witness.0] == first,
            !distinct ==> forall|k: int|
                0 <= k < offsets@.len() ==> #[trigger] all[k] == 0 || all[k] == first,
        decreases count - offsets@.len(),
    {
        let at: usize = offsets.len();
        let value: u32 = read_long(region, 4 * at);
        assert(value == all[at as int]);
        if value as u64 >= code_len as u64 {
            return None;
        }
        if value != 0 {
            if first == 0 {
                first = value;
                proof {
                    witness = (at as int, at as int);
                }
            } else if value != first && !distinct {
                distinct = true;
                proof {
                    witness = (witness.0, at as int);
                }
            }
        }
        offsets.push(value);
        assert(all.take(at + 1) =~= all.take(at as int).push(value));
    }
    assert(all.take(count as int) =~= all);
    if distinct {
        assert(all[witness.0] != 0 && all[witness.1] != 0);
        Some(offsets)
    } else {
        None
    }
}

/// What a region reads as, and how many of its bytes that accounts for: the string
/// and its terminator, the whole longwords of the table, or the whole region.
pub open spec fn spec_classify(region: Seq<u8>, code_len: int) -> (PreviewView, int) {
    match spec_printable_run(region, MIN_TEXT_LENGTH as nat) {
        Some(length) => (
            PreviewView::Text {
                text: escaped(shown(region.take(length), MAX_PREVIEW_TEXT as int)),
                truncated: length > MAX_PREVIEW_TEXT,
            },
            length + 1,
        ),
        None => {
            let offsets = longwords(region);
            if is_pointer_table(offsets, code_len) {
                (
                    PreviewView::Pointers {
                        offsets: shown(offsets, MAX_PREVIEW_VALUES as int),
                        truncated: offsets.len() > MAX_PREVIEW_VALUES,
                    },
                    offsets.len() as int * 4,
                )
            } else {
                (
                    PreviewView::Bytes {
                        bytes: shown(region, MAX_PREVIEW_VALUES as int),
                        truncated: region.len() > MAX_PREVIEW_VALUES,
                    },
                    region.len() as int,
                )
            }
        },
    }
}

/// Read `region` as text, a pointer table, or plain bytes.
fn classify(region: &[u8], code_len: usize) -> (r: (DataPreview, usize))
    ensures
        (r.0@, r.1 as int) == spec_classify(region@, code_len as int),
        r.1 <= region@.len(),
{
    let length: usize = region.len();
    if let Some(run) = printable_run(region, MIN_TEXT_LENGTH) {
        let bytes = slice_subrange(region, 0, run);
        assert(bytes@ =~= region@.take(run as int));
        let (text, truncated) = escape(bytes, MAX_PREVIEW_TEXT);
        return (DataPreview::Text { text, truncated }, run + 1);
    }
    if let Some(offsets) = pointer_table(region, code_len) {
        let count: usize = offsets.len();
        let mut shorter = offsets;
        if count > MAX_PREVIEW_VALUES {
            shorter.truncate(MAX_PREVIEW_VALUES);
        }
        assert(shorter@ =~= shown(longwords(region@), MAX_PREVIEW_VALUES as int));
        return (
            DataPreview::Pointers { offsets: shorter, truncated: count > MAX_PREVIEW_VALUES },
            count * 4,
        );
    }
    let mut bytes: Vec<u8> = Vec::new();
    let mut i: usize = 0;
    while i < length && i < MAX_PREVIEW_VALUES
        invariant
            length == region@.len(),
            i <= length,
            i <= MAX_PREVIEW_VALUES,
            bytes@ == region@.take(i as int),
        decreases length - i,
    {
        bytes.push(region[i]);
        assert(region@.take(i + 1) =~= region@.take(i as int).push(region@[i as int]));
        i += 1;
    }
    assert(bytes@ =~= shown(region@, MAX_PREVIEW_VALUES as int));
    (DataPreview::Bytes { bytes, truncated: length > MAX_PREVIEW_VALUES }, length)
}

/// The greatest address of a set below `at`.
pub open spec fn last_below(set: Set<u32>, at: int) -> Option<u32>
    decreases at,
{
    if at <= 0 {
        None
    } else if set.contains((at - 1) as u32) {
        Some((at - 1) as u32)
    } else {
        last_below(set, at - 1)
    }
}

proof fn lemma_last_below(set: Set<u32>, at: int, address: u32)
    requires
        set.contains(address),
        address < at <= u32::MAX + 1,
        forall|a: u32| address < a < at ==> !#[trigger] set.contains(a),
    ensures
        last_below(set, at) == Some(address),
    decreases at,
{
    if at - 1 > address {
        assert(!set.contains((at - 1) as u32));
        lemma_last_below(set, at - 1, address);
    }
}

proof fn lemma_none_below(set: Set<u32>, at: int)
    requires
        at <= u32::MAX + 1,
        forall|a: u32| a < at ==> !#[trigger] set.contains(a),
    ensures
        last_below(set, at) is None,
    decreases at,
{
    if at > 0 {
        assert(!set.contains((at - 1) as u32));
        lemma_none_below(set, at - 1);
    }
}

/// The decoded instructions that end beyond `offset`.
pub open spec fn ending_beyond(view: AnalysisView, offset: u32) -> Set<u32> {
    Set::new(
        |start: u32|
            view.instructions.dom().contains(start) && offset < view.instructions[start].end,
    )
}

/// The decoded instruction whose bytes cover `offset` without starting there.
/// Of instructions that overlap, the one that starts latest.
pub open spec fn spec_covering_instruction(view: AnalysisView, offset: u32) -> Option<u32> {
    last_below(ending_beyond(view, offset), offset as int)
}

fn covering_instruction(analysis: &ControlFlowAnalysis, offset: u32) -> (r: Option<u32>)
    requires
        analysis.wf(),
    ensures
        r == spec_covering_instruction(analysis@, offset),
{
    let map = &analysis.instructions;
    let ghost beyond = ending_beyond(analysis@, offset);
    let mut at: usize = map.rank(offset);
    proof {
        assert(analysis@.instructions.dom() =~= map.keys@.to_set());
        assert forall|a: u32| a < offset && #[trigger] beyond.contains(a) implies exists|k: int|
            0 <= k < at && map.keys@[k] == a by {
            let k = choose|k: int| 0 <= k < map.keys@.len() && map.keys@[k] == a;
            assert(k < at);
        }
    }
    while at > 0
        invariant
            analysis.wf(),
            map == &analysis.instructions,
            beyond == ending_beyond(analysis@, offset),
            at <= map.keys@.len(),
            map.keys@.len() == map.values@.len(),
            forall|k: int| 0 <= k < at ==> #[trigger] map.keys@[k] < offset,
            forall|a: u32|
                a < offset && #[trigger] beyond.contains(a) ==> exists|k: int|
                    0 <= k < at && map.keys@[k] == a,
        decreases at,
    {
        at -= 1;
        let start: u32 = map.keys[at];
        if offset - start >= MAX_INSTRUCTION_BYTES {
            proof {
                assert forall|a: u32| a < offset implies !#[trigger] beyond.contains(a) by {
                    if beyond.contains(a) {
                        let k = choose|k: int| 0 <= k < at + 1 && map.keys@[k] == a;
                        analysis.lemma_listing(k);
                        if k < at {
                            assert(map.keys@[k].before(map.keys@[at as int]));
                        }
                    }
                }
                lemma_none_below(beyond, offset as int);
            }
            return None;
        }
        proof {
            analysis.lemma_listing(at as int);
        }
        if offset < map.values[at].end {
            proof {
                assert(beyond.contains(start));
                assert forall|a: u32| start < a < offset implies !#[trigger] beyond.contains(a) by {
                    if beyond.contains(a) {
                        let k = choose|k: int| 0 <= k < at + 1 && map.keys@[k] == a;
                        if k < at {
                            assert(map.keys@[k].before(map.keys@[at as int]));
                        }
                    }
                }
                lemma_last_below(beyond, offset as int, start);
            }
            return Some(start);
        }
        proof {
            assert(!beyond.contains(start));
            assert forall|a: u32| a < offset && #[trigger] beyond.contains(a) implies exists|k: int|
                0 <= k < at && map.keys@[k] == a by {
                let k = choose|k: int| 0 <= k < at + 1 && map.keys@[k] == a;
                assert(k != at);
            }
        }
    }
    proof {
        lemma_none_below(beyond, offset as int);
    }
    None
}

/// Whether an offset is one of a set of addresses.
pub open spec fn marks(set: Set<u32>, at: int) -> bool {
    0 <= at <= u32::MAX && set.contains(at as u32)
}

/// Where a region that has reached `at` stops: at the next decoded instruction,
/// the next referenced target, or `limit`.
pub open spec fn spec_region_end(code: Set<u32>, targets: Set<u32>, limit: int, at: int) -> int
    decreases limit - at,
{
    if at >= limit || marks(code, at) || marks(targets, at) {
        at
    } else {
        spec_region_end(code, targets, limit, at + 1)
    }
}

proof fn lemma_region_end(code: Set<u32>, targets: Set<u32>, limit: int, at: int, end: int)
    requires
        at <= end <= limit,
        end == limit || marks(code, end) || marks(targets, end),
        forall|k: int|
            #![trigger marks(code, k)]
            #![trigger marks(targets, k)]
            at <= k < end ==> !marks(code, k) && !marks(targets, k),
    ensures
        spec_region_end(code, targets, limit, at) == end,
    decreases end - at,
{
    if at < end {
        assert(!marks(targets, at));
        lemma_region_end(code, targets, limit, at + 1, end);
    }
}

proof fn lemma_region_end_bounds(code: Set<u32>, targets: Set<u32>, limit: int, at: int)
    requires
        at <= limit,
    ensures
        at <= spec_region_end(code, targets, limit, at) <= limit,
        forall|k: int|
            at <= k < spec_region_end(code, targets, limit, at) ==> !#[trigger] marks(targets, k),
    decreases limit - at,
{
    if !(at >= limit || marks(code, at) || marks(targets, at)) {
        lemma_region_end_bounds(code, targets, limit, at + 1);
    }
}

/// The first of ascending addresses above `address`, where there is one.
fn next_above(addresses: &Vec<u32>, address: u32) -> (r: Option<u32>)
    requires
        ascending(addresses@),
    ensures
        match r {
            Some(next) => next > address && addresses@.contains(next) && forall|a: u32|
                address < a < next ==> !#[trigger] addresses@.contains(a),
            None => forall|a: u32| a > address ==> !#[trigger] addresses@.contains(a),
        },
{
    let mut low: usize = 0;
    let mut high: usize = addresses.len();
    while low < high
        invariant
            ascending(addresses@),
            low <= high <= addresses@.len(),
            forall|i: int| 0 <= i < low ==> #[trigger] addresses@[i] <= address,
            forall|i: int| high <= i < addresses@.len() ==> #[trigger] addresses@[i] > address,
        decreases high - low,
    {
        let middle: usize = low + (high - low) / 2;
        if addresses[middle] <= address {
            assert forall|i: int| 0 <= i < middle + 1 implies #[trigger] addresses@[i] <= address by {
                if i < middle {
                    assert(addresses@[i].before(addresses@[middle as int]));
                }
            }
            low = middle + 1;
        } else {
            assert forall|i: int| middle <= i < addresses@.len() implies #[trigger] addresses@[i]
                > address by {
                if middle < i {
                    assert(addresses@[middle as int].before(addresses@[i]));
                }
            }
            high = middle;
        }
    }
    if low < addresses.len() {
        let next: u32 = addresses[low];
        assert forall|a: u32| address < a < next implies !#[trigger] addresses@.contains(a) by {
            if addresses@.contains(a) {
                let k = choose|k: int| 0 <= k < addresses@.len() && addresses@[k] == a;
                if k > low {
                    assert(addresses@[low as int].before(addresses@[k]));
                }
            }
        }
        Some(next)
    } else {
        None
    }
}

/// Where the region starting at `target` stops, within `limit`.
fn region_end(
    analysis: &ControlFlowAnalysis,
    targets: &OrderedSet<u32>,
    target: u32,
    limit: usize,
) -> (r: usize)
    requires
        analysis.wf(),
        targets.wf(),
        target < limit,
    ensures
        r == spec_region_end(
            analysis@.instructions.dom(),
            targets@,
            limit as int,
            target + 1,
        ),
        target < r <= limit,
{
    let ghost code = analysis@.instructions.dom();
    let mut end: usize = limit;
    proof {
        assert(code =~= analysis.instructions.keys@.to_set());
    }
    if let Some(next) = next_above(&analysis.instructions.keys, target) {
        if (next as u64) < end as u64 {
            end = next as usize;
        }
    }
    assert forall|k: int| target < k < end implies !#[trigger] marks(code, k) by {}
    let ghost instruction_end = end;
    if let Some(next) = next_above(&targets.items, target) {
        if (next as u64) < end as u64 {
            end = next as usize;
        }
    }
    proof {
        assert forall|k: int| target + 1 <= k < end implies !marks(code, k) && !#[trigger] marks(
            targets@,
            k,
        ) by {
            assert(!marks(code, k));
        }
        lemma_region_end(code, targets@, limit as int, target + 1, end as int);
    }
    end
}

/// Where the window of a region that starts at `start` ends at the latest.
pub open spec fn window_limit(code_len: int, start: int) -> int {
    if code_len - start <= MAX_DATA_REGION {
        code_len
    } else {
        start + MAX_DATA_REGION
    }
}

/// What one referenced offset turns out to be.
#[verifier::ext_equal]
pub enum Finding {
    /// Outside the code, or decoded and undisputed.
    Settled,
    Disputed(DisputedTarget),
    Region(RegionView),
}

/// What one referenced offset turns out to be: code where an instruction starts
/// there, disputed where that reads as a long string or one covers it, and a region
/// of data anywhere else.
pub open spec fn finding(
    code: Seq<u8>,
    view: AnalysisView,
    targets: Set<u32>,
    target: u32,
) -> Finding {
    if target >= code.len() {
        Finding::Settled
    } else if view.instructions.dom().contains(target) {
        if spec_printable_run(
            code.subrange(target as int, code.len() as int),
            MIN_SUSPECT_TEXT_LENGTH as nat,
        ) is Some {
            Finding::Disputed(
                DisputedTarget {
                    offset: target,
                    conflict: TargetConflict::CodeReadsAsText,
                    instruction: Some(target),
                },
            )
        } else {
            Finding::Settled
        }
    } else {
        match spec_covering_instruction(view, target) {
            Some(instruction) => Finding::Disputed(
                DisputedTarget {
                    offset: target,
                    conflict: TargetConflict::IntoInstruction,
                    instruction: Some(instruction),
                },
            ),
            None => Finding::Region(region_at(code, view, targets, target)),
        }
    }
}

/// The region of data at a referenced offset.
pub open spec fn region_at(
    code: Seq<u8>,
    view: AnalysisView,
    targets: Set<u32>,
    target: u32,
) -> RegionView {
    let end = spec_region_end(
        view.instructions.dom(),
        targets,
        window_limit(code.len() as int, target as int),
        target + 1,
    );
    let (preview, length) = spec_classify(code.subrange(target as int, end), code.len() as int);
    RegionView {
        start: target,
        end: if target + length <= u32::MAX {
            (target + length) as u32
        } else {
            u32::MAX
        },
        preview,
    }
}

/// The region of a finding.
pub open spec fn region_of(finding: Finding) -> Option<RegionView> {
    match finding {
        Finding::Region(region) => Some(region),
        _ => None,
    }
}

/// The dispute of a finding.
pub open spec fn dispute_of(finding: Finding) -> Option<DisputedTarget> {
    match finding {
        Finding::Disputed(dispute) => Some(dispute),
        _ => None,
    }
}

/// The regions at the first `n` of the referenced offsets.
pub open spec fn regions_of(
    code: Seq<u8>,
    view: AnalysisView,
    targets: Set<u32>,
    n: int,
) -> Seq<RegionView> {
    gathered(n, |i: int| region_of(finding(code, view, targets, in_order(targets)[i])))
}

/// The disputes at the first `n` of the referenced offsets.
pub open spec fn disputes_of(
    code: Seq<u8>,
    view: AnalysisView,
    targets: Set<u32>,
    n: int,
) -> Seq<DisputedTarget> {
    gathered(n, |i: int| dispute_of(finding(code, view, targets, in_order(targets)[i])))
}

/// Regions as mathematical values.
pub open spec fn region_views(regions: Seq<DataRegion>) -> Seq<RegionView> {
    regions.map_values(|region: DataRegion| region@)
}

fn read_region(
    code: &[u8],
    analysis: &ControlFlowAnalysis,
    targets: &OrderedSet<u32>,
    target: u32,
) -> (r: DataRegion)
    requires
        analysis.wf(),
        targets.wf(),
        target < code@.len(),
    ensures
        r@ == region_at(code@, analysis@, targets@, target),
{
    let length: usize = code.len();
    let start: usize = target as usize;
    let limit: usize = if length - start <= MAX_DATA_REGION {
        length
    } else {
        start + MAX_DATA_REGION
    };
    let end: usize = region_end(analysis, targets, target, limit);
    let (preview, accounted) = classify(slice_subrange(code, start, end), length);
    let stop: usize = start + accounted;
    DataRegion {
        start: target,
        end: if stop as u64 <= u32::MAX as u64 {
            stop as u32
        } else {
            u32::MAX
        },
        preview,
    }
}

/// Classify every referenced offset of `code` as decoded code or as data, and
/// preview the data.
///
/// `targets` are the offsets of `code` that something references. A target
/// that starts a decoded instruction is code and gets no region; one that does
/// not is examined as data. A region stops at the next decoded instruction,
/// the next referenced target, the end of the code, or [`MAX_DATA_REGION`]
/// bytes - whichever comes first - so neighbouring regions never swallow each
/// other and no single region is unbounded.
pub fn scan(code: &[u8], analysis: &ControlFlowAnalysis, targets: &OrderedSet<u32>) -> (r: DataScan)
    requires
        analysis.wf(),
        targets.wf(),
    ensures
        region_views(r.regions@) == regions_of(
            code@,
            analysis@,
            targets@,
            in_order(targets@).len() as int,
        ),
        r.disputed@ == disputes_of(code@, analysis@, targets@, in_order(targets@).len() as int),
{
    let length: usize = code.len();
    let mut regions: Vec<DataRegion> = Vec::new();
    let mut disputed: Vec<DisputedTarget> = Vec::new();
    proof {
        lemma_in_order(targets.items@);
        assert(region_views(regions@) =~= Seq::empty());
    }
    let mut i: usize = 0;
    while i < targets.items.len()
        invariant
            analysis.wf(),
            targets.wf(),
            length == code@.len(),
            in_order(targets@) == targets.items@,
            i <= targets.items@.len(),
            region_views(regions@) == regions_of(code@, analysis@, targets@, i as int),
            disputed@ == disputes_of(code@, analysis@, targets@, i as int),
        decreases targets.items@.len() - i,
    {
        let target: u32 = targets.items[i];
        let ghost before = regions@;
        let ghost found = finding(code@, analysis@, targets@, target);
        if (target as u64) < length as u64 {
            let start: usize = target as usize;
            if analysis.instructions.contains_key(target) {
                let rest = slice_subrange(code, start, length);
                if printable_run(rest, MIN_SUSPECT_TEXT_LENGTH).is_some() {
                    disputed.push(
                        DisputedTarget {
                            offset: target,
                            conflict: TargetConflict::CodeReadsAsText,
                            instruction: Some(target),
                        },
                    );
                }
            } else if let Some(instruction) = covering_instruction(analysis, target) {
                disputed.push(
                    DisputedTarget {
                        offset: target,
                        conflict: TargetConflict::IntoInstruction,
                        instruction: Some(instruction),
                    },
                );
            } else {
                let region = read_region(code, analysis, targets, target);
                regions.push(region);
                assert(region_views(regions@) =~= region_views(before).push(region@));
            }
        }
        i += 1;
    }
    DataScan { regions, disputed }
}

proof fn lemma_classified_length(region: Seq<u8>, code_len: int)
    ensures
        0 <= spec_classify(region, code_len).1 <= region.len(),
        region.len() > 0 ==> spec_classify(region, code_len).1 > 0,
{
    lemma_prefix_bounds(region, 0);
}

proof fn lemma_prefix_bounds(bytes: Seq<u8>, from: int)
    requires
        0 <= from <= bytes.len(),
    ensures
        from <= printable_prefix(bytes, from) <= bytes.len(),
    decreases bytes.len() - from,
{
    if from < bytes.len() && spec_is_printable(bytes[from]) {
        lemma_prefix_bounds(bytes, from + 1);
    }
}

/// No region is longer than the window, none reaches past the end of the code, and none is
/// empty unless it starts at the last address there is.
pub proof fn regions_are_bounded(
    code: Seq<u8>,
    view: AnalysisView,
    targets: Set<u32>,
    target: u32,
)
    requires
        target < code.len(),
    ensures
        ({
            let region = region_at(code, view, targets, target);
            &&& region.start == target
            &&& region.start <= region.end <= code.len()
            &&& region.start < u32::MAX ==> region.start < region.end
            &&& region.end - region.start <= MAX_DATA_REGION
        }),
{
    let limit = window_limit(code.len() as int, target as int);
    lemma_region_end_bounds(view.instructions.dom(), targets, limit, target + 1);
    let end = spec_region_end(view.instructions.dom(), targets, limit, target + 1);
    lemma_classified_length(code.subrange(target as int, end), code.len() as int);
}

/// A region ends before the next referenced offset starts, so no two regions
/// overlap.
pub proof fn regions_never_overlap(
    code: Seq<u8>,
    view: AnalysisView,
    targets: Set<u32>,
    target: u32,
    later: u32,
)
    requires
        target < code.len(),
        target < later,
        targets.contains(later),
    ensures
        region_at(code, view, targets, target).end <= later,
{
    let limit = window_limit(code.len() as int, target as int);
    lemma_region_end_bounds(view.instructions.dom(), targets, limit, target + 1);
    let end = spec_region_end(view.instructions.dom(), targets, limit, target + 1);
    lemma_classified_length(code.subrange(target as int, end), code.len() as int);
    assert(marks(targets, later as int));
}

} // verus!
