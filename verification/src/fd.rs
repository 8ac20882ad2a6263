//! Parsing AmigaOS NDK function-descriptor (`.fd`) files.
//!
//! An `.fd` file lists a library's vectors in table order: `##base` names the
//! library base symbol, `##bias` sets the positive offset of the next vector
//! (the call site uses `JSR (-bias,A6)`), `##public`/`##private` mark
//! visibility, and each `Name(params)(registers)` line consumes one 6-byte
//! vector slot.
//!
//! The parser is strict: unknown directives, function lines before a
//! `##bias`, malformed entries, offsets outside the 16-bit displacement
//! range, and duplicate offsets are all errors rather than silent skips.

use crate::text::{
    characters, is_whitespace, same_text, spec_is_whitespace, trim, trim_range, trim_start,
};
use vstd::prelude::*;

verus! {

/// The most entries one fd file may define; real NDK tables stay far below.
pub const MAX_ENTRIES: usize = 2048;

/// Every vector slot is 6 bytes wide.
pub const SLOT_SIZE: u32 = 6;

/// The largest offset that a call site can reach.
pub const MAX_BIAS: u32 = 32767;

/// A parsed fd file.
#[derive(Debug, PartialEq, Eq)]
pub struct FdFile {
    /// The `##base` symbol as written (e.g. `_SysBase`), if declared.
    pub base: Option<String>,
    /// The vectors, in file order.
    pub entries: Vec<FdEntry>,
}

/// One function vector.
#[derive(Debug, PartialEq, Eq)]
pub struct FdEntry {
    pub name: String,
    /// Positive vector offset; the call form is `JSR (-bias,An)`.
    pub bias: u16,
    /// Whether the vector was inside a `##public` region.
    pub public: bool,
    /// Parameter names as written, split on `,` and `/`.
    pub params: Vec<String>,
    /// Comma-separated register groups as written. A group may join several
    /// registers with `/`: either one multi-register argument
    /// (`IEEEDPAdd(y,z)(d0/d1,d2/d3)`) or plain single registers
    /// (`Draw(rp,x,y)(a1,d0/d1)`); which reading applies is decided by
    /// whichever count matches the parameter list.
    pub registers: Vec<String>,
}

/// A failure while parsing an fd file. Line numbers are 1-based.
#[derive(Debug, PartialEq, Eq)]
#[allow(inconsistent_fields)]
pub enum FdError {
    UnknownDirective { line: usize, directive: String },
    /// `##base` without a symbol.
    MissingBase { line: usize },
    /// A second `##base`.
    DuplicateBase { line: usize },
    /// Bias 0 does not address a vector: calls use negative displacements.
    ZeroBias { line: usize },
    InvalidBias { line: usize, value: String },
    /// A function entry before any `##bias`.
    MissingBias { line: usize },
    MalformedFunction { line: usize, text: String },
    /// A bias outside the 16-bit displacement range.
    BiasOverflow { line: usize, bias: u32 },
    DuplicateBias { line: usize, bias: u16 },
    TooManyEntries { limit: usize },
}

/// An entry as a mathematical value.
#[verifier::ext_equal]
pub struct EntryView {
    pub name: Seq<char>,
    pub bias: u16,
    pub public: bool,
    pub params: Seq<Seq<char>>,
    pub registers: Seq<Seq<char>>,
}

/// A file as a mathematical value.
#[verifier::ext_equal]
pub struct FileView {
    pub base: Option<Seq<char>>,
    pub entries: Seq<EntryView>,
}

/// A failure as a mathematical value.
#[verifier::ext_equal]
#[allow(inconsistent_fields)]
pub enum ErrorView {
    UnknownDirective { line: nat, directive: Seq<char> },
    MissingBase { line: nat },
    DuplicateBase { line: nat },
    ZeroBias { line: nat },
    InvalidBias { line: nat, value: Seq<char> },
    MissingBias { line: nat },
    MalformedFunction { line: nat, text: Seq<char> },
    BiasOverflow { line: nat, bias: u32 },
    DuplicateBias { line: nat, bias: u16 },
    TooManyEntries { limit: nat },
}

/// Strings as mathematical values.
pub open spec fn texts(list: Seq<String>) -> Seq<Seq<char>> {
    list.map_values(|text: String| text@)
}

/// An optional string as a mathematical value.
pub open spec fn optional_text(text: Option<String>) -> Option<Seq<char>> {
    match text {
        Some(text) => Some(text@),
        None => None,
    }
}

/// Entries as mathematical values.
pub open spec fn entry_views(list: Seq<FdEntry>) -> Seq<EntryView> {
    list.map_values(|entry: FdEntry| entry@)
}

impl View for FdEntry {
    type V = EntryView;

    open spec fn view(&self) -> EntryView {
        EntryView {
            name: self.name@,
            bias: self.bias,
            public: self.public,
            params: texts(self.params@),
            registers: texts(self.registers@),
        }
    }
}

impl View for FdFile {
    type V = FileView;

    open spec fn view(&self) -> FileView {
        FileView { base: optional_text(self.base), entries: entry_views(self.entries@) }
    }
}

impl View for FdError {
    type V = ErrorView;

    open spec fn view(&self) -> ErrorView {
        match *self {
            FdError::UnknownDirective { line, directive } => ErrorView::UnknownDirective {
                line: line as nat,
                directive: directive@,
            },
            FdError::MissingBase { line } => ErrorView::MissingBase { line: line as nat },
            FdError::DuplicateBase { line } => ErrorView::DuplicateBase { line: line as nat },
            FdError::ZeroBias { line } => ErrorView::ZeroBias { line: line as nat },
            FdError::InvalidBias { line, value } => ErrorView::InvalidBias {
                line: line as nat,
                value: value@,
            },
            FdError::MissingBias { line } => ErrorView::MissingBias { line: line as nat },
            FdError::MalformedFunction { line, text } => ErrorView::MalformedFunction {
                line: line as nat,
                text: text@,
            },
            FdError::BiasOverflow { line, bias } => ErrorView::BiasOverflow {
                line: line as nat,
                bias,
            },
            FdError::DuplicateBias { line, bias } => ErrorView::DuplicateBias {
                line: line as nat,
                bias,
            },
            FdError::TooManyEntries { limit } => ErrorView::TooManyEntries { limit: limit as nat },
        }
    }
}

impl FdEntry {
    /// The negative LVO displacement a call site uses for this vector.
    pub fn lvo_offset(&self) -> (r: i16)
        ensures
            r == if self.bias <= MAX_BIAS {
                -(self.bias as int)
            } else {
                i16::MIN as int
            },
    {
        if self.bias as u32 <= MAX_BIAS {
            let positive: i16 = self.bias as i16;
            -positive
        } else {
            i16::MIN
        }
    }
}

/// The text of a stretch of characters.
fn text_of(chars: &Vec<char>, from: usize, to: usize) -> (r: String)
    requires
        from <= to <= chars@.len(),
    ensures
        r@ == chars@.subrange(from as int, to as int),
{
    let mut text = String::new();
    let mut i: usize = from;
    assert(chars@.subrange(from as int, from as int) =~= Seq::empty());
    while i < to
        invariant
            from <= i <= to <= chars@.len(),
            text@ == chars@.subrange(from as int, i as int),
        decreases to - i,
    {
        text.push(chars[i]);
        assert(chars@.subrange(from as int, i + 1) =~= chars@.subrange(from as int, i as int).push(
            chars@[i as int],
        ));
        i += 1;
    }
    text
}

/// The pieces of a text between separators. There is one more of them than there
/// are separators.
pub open spec fn pieces(text: Seq<char>, separates: spec_fn(char) -> bool) -> Seq<Seq<char>>
    decreases text.len(),
{
    if text.len() == 0 {
        seq![Seq::empty()]
    } else {
        let before = pieces(text.drop_last(), separates);
        if separates(text.last()) {
            before.push(Seq::empty())
        } else {
            before.drop_last().push(before.last().push(text.last()))
        }
    }
}

/// The pieces that hold more than white space, without the white space around them.
pub open spec fn kept(list: Seq<Seq<char>>) -> Seq<Seq<char>>
    decreases list.len(),
{
    if list.len() == 0 {
        Seq::empty()
    } else if trim(list.last()).len() == 0 {
        kept(list.drop_last())
    } else {
        kept(list.drop_last()).push(trim(list.last()))
    }
}

/// Whether a character separates the items of a list: a comma, and a slash where
/// slashes do too.
pub open spec fn spec_separates(c: char, slashes: bool) -> bool {
    c == ',' || slashes && c == '/'
}

fn separates(c: char, slashes: bool) -> (r: bool)
    ensures
        r == spec_separates(c, slashes),
{
    c == ',' || slashes && c == '/'
}

/// The items of a list, split on `,` and, where `slashes` says so, on `/`. Empty
/// items are dropped.
pub open spec fn items(text: Seq<char>, slashes: bool) -> Seq<Seq<char>> {
    kept(pieces(text, |c: char| spec_separates(c, slashes)))
}

/// A piece grows by one character, or ends at a separator.
proof fn lemma_piece(
    chars: Seq<char>,
    from: int,
    start: int,
    i: int,
    done: Seq<Seq<char>>,
    splits: spec_fn(char) -> bool,
)
    requires
        0 <= from <= start <= i < chars.len(),
        pieces(chars.subrange(from, i), splits) == done.push(chars.subrange(start, i)),
    ensures
        splits(chars[i]) ==> pieces(chars.subrange(from, i + 1), splits) == done.push(
            chars.subrange(start, i),
        ).push(chars.subrange(i + 1, i + 1)),
        !splits(chars[i]) ==> pieces(chars.subrange(from, i + 1), splits) == done.push(
            chars.subrange(start, i + 1),
        ),
{
    let more = chars.subrange(from, i + 1);
    assert(more.drop_last() =~= chars.subrange(from, i));
    assert(more.last() == chars[i]);
    let before = done.push(chars.subrange(start, i));
    assert(before.drop_last() =~= done);
    assert(chars.subrange(start, i).push(chars[i]) =~= chars.subrange(start, i + 1));
    assert(chars.subrange(i + 1, i + 1) =~= Seq::<char>::empty());
}

/// Split a stretch of characters into its items.
fn split_items(chars: &Vec<char>, from: usize, to: usize, slashes: bool) -> (r: Vec<String>)
    requires
        from <= to <= chars@.len(),
    ensures
        texts(r@) == items(chars@.subrange(from as int, to as int), slashes),
{
    let ghost splits = |c: char| spec_separates(c, slashes);
    let mut r: Vec<String> = Vec::new();
    let mut start: usize = from;
    let mut i: usize = from;
    let ghost mut done: Seq<Seq<char>> = Seq::empty();
    proof {
        assert(chars@.subrange(from as int, from as int) =~= Seq::<char>::empty());
        assert(seq![chars@.subrange(from as int, from as int)] =~= done.push(
            chars@.subrange(from as int, from as int),
        ));
        assert(texts(r@) =~= Seq::empty());
    }
    while i < to
        invariant
            from <= start <= i <= to <= chars@.len(),
            splits == (|c: char| spec_separates(c, slashes)),
            pieces(chars@.subrange(from as int, i as int), splits) == done.push(
                chars@.subrange(start as int, i as int),
            ),
            texts(r@) == kept(done),
        decreases to - i,
    {
        proof {
            lemma_piece(chars@, from as int, start as int, i as int, done, splits);
        }
        if separates(chars[i], slashes) {
            let ghost piece = chars@.subrange(start as int, i as int);
            proof {
                assert(done.push(piece).drop_last() =~= done);
                done = done.push(piece);
            }
            push_item(&mut r, chars, start, i);
            start = i + 1;
        }
        i += 1;
    }
    proof {
        assert(done.push(chars@.subrange(start as int, to as int)).drop_last() =~= done);
    }
    push_item(&mut r, chars, start, to);
    r
}

/// Add one item to a list, unless it is empty.
fn push_item(list: &mut Vec<String>, chars: &Vec<char>, from: usize, to: usize)
    requires
        from <= to <= chars@.len(),
    ensures
        ({
            let item = trim(chars@.subrange(from as int, to as int));
            texts(final(list)@) == if item.len() == 0 {
                texts(old(list)@)
            } else {
                texts(old(list)@).push(item)
            }
        }),
{
    let (start, end) = trim_range(chars, from, to);
    if start < end {
        let text = text_of(chars, start, end);
        list.push(text);
        assert(texts(list@) =~= texts(old(list)@).push(text@));
    }
}

/// A stretch of characters.
#[derive(Clone, Copy, Debug, PartialEq, Eq, Structural)]
pub struct Span {
    pub start: usize,
    pub end: usize,
}

/// The lines of a text.
pub open spec fn lines(text: Seq<char>) -> Seq<Seq<char>> {
    pieces(text, |c: char| c == '\n')
}

/// The stretches of characters that are lines.
pub open spec fn spanned(chars: Seq<char>, spans: Seq<Span>) -> Seq<Seq<char>> {
    spans.map_values(|span: Span| chars.subrange(span.start as int, span.end as int))
}

fn split_lines(chars: &Vec<char>) -> (r: Vec<Span>)
    ensures
        spanned(chars@, r@) == lines(chars@),
        forall|k: int| 0 <= k < r@.len() ==> (#[trigger] r@[k]).start <= r@[k].end <= chars@.len(),
{
    let ghost splits = |c: char| c == '\n';
    let mut r: Vec<Span> = Vec::new();
    let mut start: usize = 0;
    let mut i: usize = 0;
    let to: usize = chars.len();
    proof {
        assert(chars@.subrange(0, 0) =~= Seq::<char>::empty());
        assert(seq![chars@.subrange(0, 0)] =~= spanned(chars@, r@).push(chars@.subrange(0, 0)));
    }
    while i < to
        invariant
            start <= i <= to,
            to == chars@.len(),
            splits == (|c: char| c == '\n'),
            pieces(chars@.subrange(0, i as int), splits) == spanned(chars@, r@).push(
                chars@.subrange(start as int, i as int),
            ),
            forall|k: int|
                0 <= k < r@.len() ==> (#[trigger] r@[k]).start <= r@[k].end <= chars@.len(),
        decreases to - i,
    {
        proof {
            lemma_piece(chars@, 0, start as int, i as int, spanned(chars@, r@), splits);
        }
        if chars[i] == '\n' {
            let ghost before = r@;
            r.push(Span { start, end: i });
            assert(spanned(chars@, r@) =~= spanned(chars@, before).push(
                chars@.subrange(start as int, i as int),
            ));
            start = i + 1;
        }
        i += 1;
    }
    let ghost before = r@;
    r.push(Span { start, end: to });
    proof {
        assert(spanned(chars@, r@) =~= spanned(chars@, before).push(
            chars@.subrange(start as int, to as int),
        ));
        assert(chars@.subrange(0, to as int) =~= chars@);
    }
    r
}

/// How far a text reaches from `from` without white space.
pub open spec fn word_end(text: Seq<char>, from: int) -> int
    decreases text.len() - from,
{
    if 0 <= from < text.len() && !spec_is_whitespace(text[from]) {
        word_end(text, from + 1)
    } else {
        from
    }
}

/// The first word of a text, empty where it has none.
pub open spec fn word(text: Seq<char>) -> Seq<char> {
    trim_start(text).take(word_end(trim_start(text), 0))
}

/// What stands behind the first word of a text.
pub open spec fn behind_word(text: Seq<char>) -> Seq<char> {
    trim_start(text).skip(word_end(trim_start(text), 0))
}

/// The first word of a stretch of characters.
fn find_word(chars: &Vec<char>, from: usize, to: usize) -> (r: Span)
    requires
        from <= to <= chars@.len(),
    ensures
        from <= r.start <= r.end <= to,
        chars@.subrange(r.start as int, r.end as int) == word(
            chars@.subrange(from as int, to as int),
        ),
        chars@.subrange(r.end as int, to as int) == behind_word(
            chars@.subrange(from as int, to as int),
        ),
{
    let ghost whole = chars@.subrange(from as int, to as int);
    let mut start: usize = from;
    while start < to && is_whitespace(chars[start])
        invariant
            from <= start <= to <= chars@.len(),
            trim_start(chars@.subrange(start as int, to as int)) == trim_start(whole),
        decreases to - start,
    {
        proof {
            let rest = chars@.subrange(start as int, to as int);
            assert(rest.skip(1) =~= chars@.subrange(start + 1, to as int));
        }
        start += 1;
    }
    let ghost bare = chars@.subrange(start as int, to as int);
    assert(bare == trim_start(whole));
    let mut end: usize = start;
    while end < to && !is_whitespace(chars[end])
        invariant
            start <= end <= to <= chars@.len(),
            bare == chars@.subrange(start as int, to as int),
            word_end(bare, 0) == word_end(bare, end - start),
        decreases to - end,
    {
        assert(bare[end - start] == chars@[end as int]);
        end += 1;
    }
    proof {
        if end < to {
            assert(bare[end - start] == chars@[end as int]);
        }
        assert(word_end(bare, 0) == end - start);
        assert(bare.take(end - start) =~= chars@.subrange(start as int, end as int));
        assert(bare.skip(end - start) =~= chars@.subrange(end as int, to as int));
    }
    Span { start, end }
}

/// Whether a character is an ASCII digit.
pub open spec fn spec_is_digit(c: char) -> bool {
    48 <= c as u32 <= 57
}

fn is_digit(c: char) -> (r: bool)
    ensures
        r == spec_is_digit(c),
{
    let code: u32 = c as u32;
    48 <= code && code <= 57
}

/// The number that decimal digits spell.
pub open spec fn number(digits: Seq<char>) -> nat
    decreases digits.len(),
{
    if digits.len() == 0 {
        0
    } else {
        (number(digits.drop_last()) * 10 + (digits.last() as u32 - 48)) as nat
    }
}

/// The digits of a number, behind an optional `+`.
pub open spec fn unsigned_digits(text: Seq<char>) -> Seq<char> {
    if text.len() > 0 && text[0] == '+' {
        text.skip(1)
    } else {
        text
    }
}

/// The 32-bit number that a text spells: decimal digits behind an optional `+`.
pub open spec fn spec_parse_number(text: Seq<char>) -> Option<u32> {
    let digits = unsigned_digits(text);
    if digits.len() > 0 && (forall|i: int|
        0 <= i < digits.len() ==> spec_is_digit(#[trigger] digits[i])) && number(digits)
        <= u32::MAX {
        Some(number(digits) as u32)
    } else {
        None
    }
}

fn parse_number(chars: &Vec<char>, from: usize, to: usize) -> (r: Option<u32>)
    requires
        from <= to <= chars@.len(),
    ensures
        r == spec_parse_number(chars@.subrange(from as int, to as int)),
{
    let ghost text = chars@.subrange(from as int, to as int);
    let start: usize = if from < to && chars[from] == '+' {
        from + 1
    } else {
        from
    };
    let ghost digits = unsigned_digits(text);
    assert(digits =~= chars@.subrange(start as int, to as int));
    if start == to {
        return None;
    }
    let mut value: u64 = 0;
    let mut i: usize = start;
    while i < to
        invariant
            from <= start <= i <= to <= chars@.len(),
            text == chars@.subrange(from as int, to as int),
            digits == unsigned_digits(text),
            digits == chars@.subrange(start as int, to as int),
            forall|k: int| 0 <= k < i - start ==> spec_is_digit(#[trigger] digits[k]),
            value <= u32::MAX ==> value == number(digits.take(i - start)),
            value > u32::MAX ==> value == 0x1_0000_0000 && number(digits.take(i - start))
                > u32::MAX,
        decreases to - i,
    {
        let c: char = chars[i];
        proof {
            let k = i - start;
            assert(digits[k] == c);
            assert(digits.take(k + 1).drop_last() =~= digits.take(k));
            assert(digits.take(k + 1).last() == c);
        }
        if !is_digit(c) {
            return None;
        }
        let next: u64 = value * 10 + (c as u32 - 48) as u64;
        value = if next <= u32::MAX as u64 {
            next
        } else {
            0x1_0000_0000
        };
        i += 1;
    }
    assert(digits.take(to - start) =~= digits);
    if value <= u32::MAX as u64 {
        Some(value as u32)
    } else {
        None
    }
}

/// Whether a character may stand in a name.
pub open spec fn spec_is_name_character(c: char) -> bool {
    spec_is_digit(c) || 65 <= c as u32 <= 90 || 97 <= c as u32 <= 122 || c == '_'
}

fn is_name_character(c: char) -> (r: bool)
    ensures
        r == spec_is_name_character(c),
{
    let code: u32 = c as u32;
    is_digit(c) || 65 <= code && code <= 90 || 97 <= code && code <= 122 || c == '_'
}

/// Whether a text names a function: letters, digits and underscores, and no digit
/// first.
pub open spec fn valid_name(name: Seq<char>) -> bool {
    &&& name.len() > 0
    &&& forall|i: int| 0 <= i < name.len() ==> spec_is_name_character(#[trigger] name[i])
    &&& !spec_is_digit(name[0])
}

fn is_valid_name(chars: &Vec<char>, from: usize, to: usize) -> (r: bool)
    requires
        from <= to <= chars@.len(),
    ensures
        r == valid_name(chars@.subrange(from as int, to as int)),
{
    let ghost name = chars@.subrange(from as int, to as int);
    if from == to || is_digit(chars[from]) {
        return false;
    }
    let mut i: usize = from;
    while i < to
        invariant
            from <= i <= to <= chars@.len(),
            name == chars@.subrange(from as int, to as int),
            forall|k: int| 0 <= k < i - from ==> spec_is_name_character(#[trigger] name[k]),
        decreases to - i,
    {
        assert(name[i - from] == chars@[i as int]);
        if !is_name_character(chars[i]) {
            return false;
        }
        i += 1;
    }
    true
}

/// Where a character stands first from `from` on, or the end of the text.
pub open spec fn first_at(text: Seq<char>, c: char, from: int) -> int
    decreases text.len() - from,
{
    if 0 <= from < text.len() && text[from] != c {
        first_at(text, c, from + 1)
    } else {
        from
    }
}

fn find_char(chars: &Vec<char>, c: char, from: usize, to: usize, start: usize) -> (r: usize)
    requires
        start <= from <= to <= chars@.len(),
    ensures
        from <= r <= to,
        r - start == first_at(chars@.subrange(start as int, to as int), c, from - start),
        r < to ==> chars@[r as int] == c,
{
    let ghost text = chars@.subrange(start as int, to as int);
    let mut i: usize = from;
    while i < to && chars[i] != c
        invariant
            start <= from <= i <= to <= chars@.len(),
            text == chars@.subrange(start as int, to as int),
            first_at(text, c, from - start) == first_at(text, c, i - start),
        decreases to - i,
    {
        assert(text[i - start] == chars@[i as int]);
        i += 1;
    }
    if i < to {
        assert(text[i - start] == chars@[i as int]);
    }
    i
}

/// The entry of one `Name(params)(registers)` line at the given bias.
pub open spec fn spec_parse_function(
    text: Seq<char>,
    line: nat,
    bias: u32,
    public: bool,
) -> Result<EntryView, ErrorView> {
    let open = first_at(text, '(', 0);
    let name = trim(text.take(open));
    let close = first_at(text, ')', open + 1);
    let tail = trim(text.skip(close + 1));
    if bias == 0 {
        Err(ErrorView::ZeroBias { line })
    } else if bias > MAX_BIAS {
        Err(ErrorView::BiasOverflow { line, bias })
    } else if open < text.len() && valid_name(name) && close < text.len() && tail.len() >= 2
        && tail[0] == '(' && tail.last() == ')' {
        Ok(
            EntryView {
                name,
                bias: bias as u16,
                public,
                params: items(text.subrange(open + 1, close), true),
                registers: items(tail.subrange(1, tail.len() - 1), false),
            },
        )
    } else {
        Err(ErrorView::MalformedFunction { line, text })
    }
}

/// What a function reports, as a mathematical value.
pub open spec fn entry_result(r: Result<FdEntry, FdError>) -> Result<EntryView, ErrorView> {
    match r {
        Ok(entry) => Ok(entry@),
        Err(error) => Err(error@),
    }
}

/// Parse one `Name(params)(registers)` entry at the given bias.
fn parse_function(
    chars: &Vec<char>,
    from: usize,
    to: usize,
    line: usize,
    bias: u32,
    public: bool,
) -> (r: Result<FdEntry, FdError>)
    requires
        from <= to <= chars@.len(),
    ensures
        entry_result(r) == spec_parse_function(
            chars@.subrange(from as int, to as int),
            line as nat,
            bias,
            public,
        ),
{
    let ghost text = chars@.subrange(from as int, to as int);
    if bias == 0 {
        return Err(FdError::ZeroBias { line });
    }
    if bias > MAX_BIAS {
        return Err(FdError::BiasOverflow { line, bias });
    }
    let open: usize = find_char(chars, '(', from, to, from);
    if open == to {
        return Err(FdError::MalformedFunction { line, text: text_of(chars, from, to) });
    }
    let (name_start, name_end) = trim_range(chars, from, open);
    assert(text.take(open - from) =~= chars@.subrange(from as int, open as int));
    if !is_valid_name(chars, name_start, name_end) {
        return Err(FdError::MalformedFunction { line, text: text_of(chars, from, to) });
    }
    let close: usize = find_char(chars, ')', open + 1, to, from);
    if close == to {
        return Err(FdError::MalformedFunction { line, text: text_of(chars, from, to) });
    }
    let (start, end) = trim_range(chars, close + 1, to);
    let ghost tail = chars@.subrange(start as int, end as int);
    assert(text.skip(close + 1 - from) =~= chars@.subrange(close + 1, to as int));
    if end - start < 2 || chars[start] != '(' || chars[end - 1] != ')' {
        return Err(FdError::MalformedFunction { line, text: text_of(chars, from, to) });
    }
    proof {
        assert(text.subrange(open - from + 1, close - from) =~= chars@.subrange(
            open + 1,
            close as int,
        ));
        assert(tail.subrange(1, tail.len() - 1) =~= chars@.subrange(start + 1, end - 1));
    }
    Ok(
        FdEntry {
            name: text_of(chars, name_start, name_end),
            bias: bias as u16,
            public,
            params: split_items(chars, open + 1, close, true),
            registers: split_items(chars, start + 1, end - 1, false),
        },
    )
}

/// Where a parse stands between two lines.
#[verifier::ext_equal]
pub struct Progress {
    pub base: Option<Seq<char>>,
    pub entries: Seq<EntryView>,
    /// The bias of the next vector, once one is set.
    pub bias: Option<u32>,
    pub public: bool,
}

/// What one line leads to.
#[verifier::ext_equal]
pub enum LineOutcome {
    Next(Progress),
    /// `##end`: the rest of the file is not read.
    End,
    Failed(ErrorView),
}

/// What a directive leads to.
pub open spec fn after_directive(progress: Progress, line: nat, text: Seq<char>) -> LineOutcome {
    let first = word(text.skip(2));
    let second = word(behind_word(text.skip(2)));
    if first == "base"@ {
        if second.len() == 0 {
            LineOutcome::Failed(ErrorView::MissingBase { line })
        } else if progress.base is Some {
            LineOutcome::Failed(ErrorView::DuplicateBase { line })
        } else {
            LineOutcome::Next(Progress { base: Some(second), ..progress })
        }
    } else if first == "bias"@ {
        match spec_parse_number(second) {
            Some(bias) => LineOutcome::Next(Progress { bias: Some(bias), ..progress }),
            None => LineOutcome::Failed(ErrorView::InvalidBias { line, value: second }),
        }
    } else if first == "public"@ {
        LineOutcome::Next(Progress { public: true, ..progress })
    } else if first == "private"@ {
        LineOutcome::Next(Progress { public: false, ..progress })
    } else if first == "end"@ {
        LineOutcome::End
    } else {
        LineOutcome::Failed(ErrorView::UnknownDirective { line, directive: text })
    }
}

/// Whether a vector is already taken.
pub open spec fn taken(entries: Seq<EntryView>, bias: u16) -> bool {
    exists|k: int| 0 <= k < entries.len() && (#[trigger] entries[k]).bias == bias
}

/// What a function entry leads to.
pub open spec fn after_function(progress: Progress, line: nat, text: Seq<char>) -> LineOutcome {
    match progress.bias {
        None => LineOutcome::Failed(ErrorView::MissingBias { line }),
        Some(bias) => match spec_parse_function(text, line, bias, progress.public) {
            Err(error) => LineOutcome::Failed(error),
            Ok(entry) => if taken(progress.entries, entry.bias) {
                LineOutcome::Failed(ErrorView::DuplicateBias { line, bias: entry.bias })
            } else if progress.entries.len() >= MAX_ENTRIES {
                LineOutcome::Failed(ErrorView::TooManyEntries { limit: MAX_ENTRIES as nat })
            } else {
                LineOutcome::Next(
                    Progress {
                        entries: progress.entries.push(entry),
                        bias: Some((bias + SLOT_SIZE) as u32),
                        ..progress
                    },
                )
            },
        },
    }
}

/// What one line leads to. Empty lines and comments, which start with `*`, are
/// skipped.
pub open spec fn after_line(progress: Progress, line: nat, raw: Seq<char>) -> LineOutcome {
    let text = trim(raw);
    if text.len() == 0 || text[0] == '*' {
        LineOutcome::Next(progress)
    } else if text.len() >= 2 && text[0] == '#' && text[1] == '#' {
        after_directive(progress, line, text)
    } else {
        after_function(progress, line, text)
    }
}

/// What the lines from `from` on lead to.
pub open spec fn after_lines(
    progress: Progress,
    lines: Seq<Seq<char>>,
    from: nat,
) -> Result<FileView, ErrorView>
    decreases lines.len() - from,
{
    if from >= lines.len() {
        Ok(FileView { base: progress.base, entries: progress.entries })
    } else {
        match after_line(progress, from + 1, lines[from as int]) {
            LineOutcome::Next(next) => after_lines(next, lines, from + 1),
            LineOutcome::End => Ok(FileView { base: progress.base, entries: progress.entries }),
            LineOutcome::Failed(error) => Err(error),
        }
    }
}

/// What an fd text parses into.
pub open spec fn parsed(text: Seq<char>) -> Result<FileView, ErrorView> {
    after_lines(
        Progress { base: None, entries: Seq::empty(), bias: None, public: true },
        lines(text),
        0,
    )
}

/// What [`parse`] reports, as a mathematical value.
pub open spec fn file_result(r: Result<FdFile, FdError>) -> Result<FileView, ErrorView> {
    match r {
        Ok(file) => Ok(file@),
        Err(error) => Err(error@),
    }
}

/// A parse between two lines.
struct Parse {
    file: FdFile,
    bias: Option<u32>,
    public: bool,
}

impl Parse {
    spec fn progress(&self) -> Progress {
        Progress {
            base: self.file@.base,
            entries: self.file@.entries,
            bias: self.bias,
            public: self.public,
        }
    }

    fn has_bias(&self, bias: u16) -> (r: bool)
        ensures
            r == taken(self.progress().entries, bias),
    {
        let entries = &self.file.entries;
        let mut i: usize = 0;
        while i < entries.len()
            invariant
                *entries == self.file.entries,
                i <= entries@.len(),
                forall|k: int| 0 <= k < i ==> (#[trigger] entries@[k]).bias != bias,
            decreases entries@.len() - i,
        {
            if entries[i].bias == bias {
                assert(self.progress().entries[i as int].bias == bias);
                return true;
            }
            i += 1;
        }
        assert forall|k: int| 0 <= k < self.progress().entries.len() implies (
        #[trigger] self.progress().entries[k]).bias != bias by {
            assert(entries@[k].bias != bias);
        }
        false
    }

    /// Read a directive. `false` says that the file ends here.
    fn read_directive(&mut self, chars: &Vec<char>, from: usize, to: usize, line: usize) -> (r:
        Result<bool, FdError>)
        requires
            from + 2 <= to <= chars@.len(),
        ensures
            ({
                let outcome = after_directive(
                    old(self).progress(),
                    line as nat,
                    chars@.subrange(from as int, to as int),
                );
                match r {
                    Ok(true) => outcome == LineOutcome::Next(final(self).progress()),
                    Ok(false) => outcome == LineOutcome::End && *final(self) == *old(self),
                    Err(error) => outcome == LineOutcome::Failed(error@),
                }
            }),
    {
        let ghost text = chars@.subrange(from as int, to as int);
        assert(text.skip(2) =~= chars@.subrange(from + 2, to as int));
        let first_span = find_word(chars, from + 2, to);
        let second_span = find_word(chars, first_span.end, to);
        let first = text_of(chars, first_span.start, first_span.end);
        let second = text_of(chars, second_span.start, second_span.end);
        if same_text(first.as_str(), "base") {
            if second_span.start == second_span.end {
                return Err(FdError::MissingBase { line });
            }
            if self.file.base.is_some() {
                return Err(FdError::DuplicateBase { line });
            }
            self.file.base = Some(second);
            Ok(true)
        } else if same_text(first.as_str(), "bias") {
            match parse_number(chars, second_span.start, second_span.end) {
                Some(bias) => {
                    self.bias = Some(bias);
                    Ok(true)
                },
                None => Err(FdError::InvalidBias { line, value: second }),
            }
        } else if same_text(first.as_str(), "public") {
            self.public = true;
            Ok(true)
        } else if same_text(first.as_str(), "private") {
            self.public = false;
            Ok(true)
        } else if same_text(first.as_str(), "end") {
            Ok(false)
        } else {
            Err(FdError::UnknownDirective { line, directive: text_of(chars, from, to) })
        }
    }

    /// Read a function entry.
    fn read_function(&mut self, chars: &Vec<char>, from: usize, to: usize, line: usize) -> (r:
        Result<bool, FdError>)
        requires
            from <= to <= chars@.len(),
        ensures
            ({
                let outcome = after_function(
                    old(self).progress(),
                    line as nat,
                    chars@.subrange(from as int, to as int),
                );
                match r {
                    Ok(more) => more && outcome == LineOutcome::Next(final(self).progress()),
                    Err(error) => outcome == LineOutcome::Failed(error@),
                }
            }),
    {
        let bias: u32 = match self.bias {
            Some(bias) => bias,
            None => {
                return Err(FdError::MissingBias { line });
            },
        };
        let entry = match parse_function(chars, from, to, line, bias, self.public) {
            Ok(entry) => entry,
            Err(error) => {
                return Err(error);
            },
        };
        if self.has_bias(entry.bias) {
            return Err(FdError::DuplicateBias { line, bias: entry.bias });
        }
        if self.file.entries.len() >= MAX_ENTRIES {
            return Err(FdError::TooManyEntries { limit: MAX_ENTRIES });
        }
        let ghost before = self.file.entries@;
        self.file.entries.push(entry);
        assert(entry_views(self.file.entries@) =~= entry_views(before).push(entry@));
        self.bias = Some(bias + SLOT_SIZE);
        Ok(true)
    }

    /// Read one line. `false` says that the file ends here.
    fn read_line(&mut self, chars: &Vec<char>, span: Span, line: usize) -> (r: Result<
        bool,
        FdError,
    >)
        requires
            span.start <= span.end <= chars@.len(),
        ensures
            ({
                let outcome = after_line(
                    old(self).progress(),
                    line as nat,
                    chars@.subrange(span.start as int, span.end as int),
                );
                match r {
                    Ok(true) => outcome == LineOutcome::Next(final(self).progress()),
                    Ok(false) => outcome == LineOutcome::End && *final(self) == *old(self),
                    Err(error) => outcome == LineOutcome::Failed(error@),
                }
            }),
    {
        let (from, to) = trim_range(chars, span.start, span.end);
        let ghost text = chars@.subrange(from as int, to as int);
        if from == to || chars[from] == '*' {
            Ok(true)
        } else if to - from >= 2 && chars[from] == '#' && chars[from + 1] == '#' {
            assert(text[0] == '#' && text[1] == '#');
            self.read_directive(chars, from, to, line)
        } else {
            self.read_function(chars, from, to, line)
        }
    }
}

/// Parse fd `text` into its base symbol and vector entries.
///
/// It is an [`FdError`] on any directive, entry, or offset the strict grammar does
/// not accept.
pub fn parse(text: &str) -> (r: Result<FdFile, FdError>)
    ensures
        file_result(r) == parsed(text@),
{
    let chars = characters(text);
    let spans = split_lines(&chars);
    let ghost all = lines(text@);
    let mut state = Parse {
        file: FdFile { base: None, entries: Vec::new() },
        bias: None,
        public: true,
    };
    assert(state.progress().entries =~= Seq::empty());
    let mut i: usize = 0;
    while i < spans.len()
        invariant
            chars@ == text@,
            all == lines(text@),
            spanned(chars@, spans@) == all,
            forall|k: int|
                0 <= k < spans@.len() ==> (#[trigger] spans@[k]).start <= spans@[k].end
                    <= chars@.len(),
            i <= spans@.len(),
            after_lines(state.progress(), all, i as nat) == parsed(text@),
        decreases spans@.len() - i,
    {
        assert(all[i as int] == chars@.subrange(
            spans@[i as int].start as int,
            spans@[i as int].end as int,
        ));
        match state.read_line(&chars, spans[i], i + 1) {
            Ok(true) => {},
            Ok(false) => {
                return Ok(state.file);
            },
            Err(error) => {
                return Err(error);
            },
        }
        i += 1;
    }
    Ok(state.file)
}

/// What holds of the entries at every point of a parse.
pub open spec fn sound(entries: Seq<EntryView>) -> bool {
    &&& entries.len() <= MAX_ENTRIES
    &&& forall|i: int| 0 <= i < entries.len() ==> 1 <= (#[trigger] entries[i]).bias <= MAX_BIAS
    &&& forall|i: int| 0 <= i < entries.len() ==> valid_name((#[trigger] entries[i]).name)
    &&& forall|i: int, j: int|
        #![trigger entries[i], entries[j]]
        0 <= i < j < entries.len() ==> entries[i].bias != entries[j].bias
}

/// Every vector of an accepted file has a name and an offset that a call site can
/// reach, no two share one, and there are no more of them than a file may define.
pub proof fn accepted_files_are_sound(text: Seq<char>)
    ensures
        match parsed(text) {
            Ok(file) => sound(file.entries),
            Err(_) => true,
        },
{
    lemma_lines_keep_entries_sound(
        Progress { base: None, entries: Seq::empty(), bias: None, public: true },
        lines(text),
        0,
    );
}

proof fn lemma_lines_keep_entries_sound(progress: Progress, lines: Seq<Seq<char>>, from: nat)
    requires
        sound(progress.entries),
    ensures
        match after_lines(progress, lines, from) {
            Ok(file) => sound(file.entries),
            Err(_) => true,
        },
    decreases lines.len() - from,
{
    if from < lines.len() {
        match after_line(progress, from + 1, lines[from as int]) {
            LineOutcome::Next(next) => {
                assert(sound(next.entries));
                lemma_lines_keep_entries_sound(next, lines, from + 1);
            },
            _ => {},
        }
    }
}

/// Text on both sides of a separator is split on each side by itself.
proof fn lemma_split_apart(
    left: Seq<char>,
    c: char,
    right: Seq<char>,
    splits: spec_fn(char) -> bool,
)
    requires
        splits(c),
    ensures
        pieces(left.push(c) + right, splits) == pieces(left, splits) + pieces(right, splits),
    decreases right.len(),
{
    let text = left.push(c) + right;
    if right.len() == 0 {
        assert(text =~= left.push(c));
        assert(text.drop_last() =~= left);
        assert(pieces(left, splits).push(Seq::empty()) =~= pieces(left, splits) + pieces(
            right,
            splits,
        ));
    } else {
        let rest = pieces(right.drop_last(), splits);
        assert(text.drop_last() =~= left.push(c) + right.drop_last());
        lemma_split_apart(left, c, right.drop_last(), splits);
        lemma_pieces(right.drop_last(), splits);
        let before = pieces(left, splits) + rest;
        assert(before.last() == rest.last());
        if splits(right.last()) {
            assert(before.push(Seq::empty()) =~= pieces(left, splits) + rest.push(Seq::empty()));
        } else {
            assert(before.drop_last().push(before.last().push(right.last())) =~= pieces(left, splits)
                + rest.drop_last().push(rest.last().push(right.last())));
        }
    }
}

/// There is always a last piece, and text without a separator is the only one.
proof fn lemma_pieces(text: Seq<char>, splits: spec_fn(char) -> bool)
    ensures
        pieces(text, splits).len() > 0,
        (forall|i: int| 0 <= i < text.len() ==> !splits(#[trigger] text[i])) ==> pieces(text, splits)
            == seq![text],
    decreases text.len(),
{
    if text.len() > 0 {
        lemma_pieces(text.drop_last(), splits);
        if forall|i: int| 0 <= i < text.len() ==> !splits(#[trigger] text[i]) {
            assert forall|i: int| 0 <= i < text.drop_last().len() implies !splits(
                #[trigger] text.drop_last()[i],
            ) by {
                assert(text.drop_last()[i] == text[i]);
            }
            assert(text.drop_last().push(text.last()) =~= text);
            assert(!splits(text[text.len() - 1]));
            let before = pieces(text.drop_last(), splits);
            assert(before == seq![text.drop_last()]);
            assert(before.last() == text.drop_last());
            assert(before.drop_last().push(text) =~= seq![text]);
        }
    } else {
        assert(text =~= Seq::empty());
    }
}

/// Whether text is whole lines: it is empty, or its last line is ended.
pub open spec fn whole_lines(text: Seq<char>) -> bool {
    text.len() == 0 || text.last() == '\n'
}

/// Whether text is one line, without the end of the line.
pub open spec fn one_line(text: Seq<char>) -> bool {
    forall|i: int| 0 <= i < text.len() ==> #[trigger] text[i] != '\n'
}

/// The lines of some whole lines, without the empty one behind the last end of a line.
spec fn ended_lines(text: Seq<char>) -> Seq<Seq<char>> {
    if text.len() == 0 {
        Seq::empty()
    } else {
        lines(text.drop_last())
    }
}

/// The lines of some whole lines, one more line and what follows it.
proof fn lemma_lines(above: Seq<char>, line: Seq<char>, below: Seq<char>)
    requires
        whole_lines(above),
        one_line(line),
    ensures
        lines(above + below) == ended_lines(above) + lines(below),
        lines(above + line.push('\n') + below) == ended_lines(above).push(line) + lines(below),
{
    let head = ended_lines(above);
    let splits = |c: char| c == '\n';
    lemma_split_apart(line, '\n', below, splits);
    lemma_pieces(line, splits);
    let ended = line.push('\n') + below;
    assert(lines(ended) == seq![line] + lines(below));
    if above.len() == 0 {
        assert(above + below =~= below);
        assert(above + line.push('\n') + below =~= ended);
        assert(head + lines(below) =~= lines(below));
        assert(head.push(line) + lines(below) =~= seq![line] + lines(below));
    } else {
        assert(above =~= above.drop_last().push('\n'));
        assert(above + line.push('\n') + below =~= above.drop_last().push('\n') + ended);
        lemma_split_apart(above.drop_last(), '\n', below, splits);
        lemma_split_apart(above.drop_last(), '\n', ended, splits);
        assert(head.push(line) + lines(below) =~= head + (seq![line] + lines(below)));
    }
}

/// Whether a line is a `##end` directive.
pub open spec fn ends_file(line: Seq<char>) -> bool {
    let text = trim(line);
    &&& text.len() >= 2
    &&& text[0] == '#'
    &&& text[1] == '#'
    &&& word(text.skip(2)) == "end"@
}

proof fn lemma_end(progress: Progress, number: nat, line: Seq<char>)
    requires
        ends_file(line),
    ensures
        after_line(progress, number, line) == LineOutcome::End,
{
    reveal_strlit("end");
    let first = word(trim(line).skip(2));
    assert(first.len() == 3 && first[0] == 'e');
    reveal_strlit("base");
    reveal_strlit("bias");
    reveal_strlit("public");
    reveal_strlit("private");
}

/// Lines that agree up to one that ends the file lead to the same.
proof fn lemma_stop_at_end(
    progress: Progress,
    head: Seq<Seq<char>>,
    line: Seq<char>,
    left: Seq<Seq<char>>,
    right: Seq<Seq<char>>,
    from: nat,
)
    requires
        ends_file(line),
        from <= head.len(),
    ensures
        after_lines(progress, head.push(line) + left, from) == after_lines(
            progress,
            head.push(line) + right,
            from,
        ),
    decreases head.len() - from,
{
    let here = (head.push(line) + left)[from as int];
    assert(here == (head.push(line) + right)[from as int]);
    if from == head.len() {
        lemma_end(progress, from + 1, line);
    } else {
        match after_line(progress, from + 1, here) {
            LineOutcome::Next(next) => {
                lemma_stop_at_end(next, head, line, left, right, from + 1);
            },
            _ => {},
        }
    }
}

/// Nothing behind a `##end` line is read.
pub proof fn nothing_behind_the_end_is_read(
    above: Seq<char>,
    end: Seq<char>,
    below: Seq<char>,
    other: Seq<char>,
)
    requires
        whole_lines(above),
        one_line(end),
        ends_file(end),
    ensures
        parsed(above + end.push('\n') + below) == parsed(above + end.push('\n') + other),
{
    lemma_lines(above, end, below);
    lemma_lines(above, end, other);
    lemma_stop_at_end(
        Progress { base: None, entries: Seq::empty(), bias: None, public: true },
        ended_lines(above),
        end,
        lines(below),
        lines(other),
        0,
    );
}

/// Whether a line is passed over: it is blank or a comment.
pub open spec fn passed_over(line: Seq<char>) -> bool {
    trim(line).len() == 0 || trim(line)[0] == '*'
}

/// A failure one line further down.
pub open spec fn moved_down(error: ErrorView) -> ErrorView {
    match error {
        ErrorView::UnknownDirective { line, directive } => ErrorView::UnknownDirective {
            line: line + 1,
            directive,
        },
        ErrorView::MissingBase { line } => ErrorView::MissingBase { line: line + 1 },
        ErrorView::DuplicateBase { line } => ErrorView::DuplicateBase { line: line + 1 },
        ErrorView::ZeroBias { line } => ErrorView::ZeroBias { line: line + 1 },
        ErrorView::InvalidBias { line, value } => ErrorView::InvalidBias { line: line + 1, value },
        ErrorView::MissingBias { line } => ErrorView::MissingBias { line: line + 1 },
        ErrorView::MalformedFunction { line, text } => ErrorView::MalformedFunction {
            line: line + 1,
            text,
        },
        ErrorView::BiasOverflow { line, bias } => ErrorView::BiasOverflow { line: line + 1, bias },
        ErrorView::DuplicateBias { line, bias } => ErrorView::DuplicateBias { line: line + 1, bias },
        ErrorView::TooManyEntries { limit } => ErrorView::TooManyEntries { limit },
    }
}

/// Whether two results differ at most in where a failure is reported: on the same line
/// or on the next.
pub open spec fn same_but_for_the_line(
    left: Result<FileView, ErrorView>,
    right: Result<FileView, ErrorView>,
) -> bool {
    match (left, right) {
        (Ok(file), Ok(other)) => file == other,
        (Err(error), Err(other)) => other == error || other == moved_down(error),
        _ => false,
    }
}

proof fn lemma_moved_lines(
    progress: Progress,
    left: Seq<Seq<char>>,
    right: Seq<Seq<char>>,
    from: nat,
)
    requires
        right.len() == left.len() + 1,
        forall|k: int| from <= k < left.len() ==> #[trigger] left[k] == right[k + 1],
    ensures
        match (after_lines(progress, left, from), after_lines(progress, right, from + 1)) {
            (Ok(file), Ok(other)) => file == other,
            (Err(error), Err(other)) => other == moved_down(error),
            _ => false,
        },
    decreases left.len() - from,
{
    if from < left.len() {
        assert(left[from as int] == right[from as int + 1]);
        match after_line(progress, from + 1, left[from as int]) {
            LineOutcome::Next(next) => {
                lemma_moved_lines(next, left, right, from + 1);
            },
            _ => {},
        }
    }
}

proof fn lemma_pass_over(
    progress: Progress,
    head: Seq<Seq<char>>,
    line: Seq<char>,
    tail: Seq<Seq<char>>,
    from: nat,
)
    requires
        passed_over(line),
        from <= head.len(),
    ensures
        same_but_for_the_line(
            after_lines(progress, head + tail, from),
            after_lines(progress, head.push(line) + tail, from),
        ),
    decreases head.len() - from,
{
    let short = head + tail;
    let long = head.push(line) + tail;
    if from == head.len() {
        assert(long[from as int] == line);
        assert forall|k: int| from <= k < short.len() implies #[trigger] short[k] == long[k + 1] by {}
        lemma_moved_lines(progress, short, long, from);
    } else {
        assert(short[from as int] == long[from as int]);
        match after_line(progress, from + 1, short[from as int]) {
            LineOutcome::Next(next) => {
                lemma_pass_over(next, head, line, tail, from + 1);
            },
            _ => {},
        }
    }
}

/// A comment or a blank line changes nothing but the number of the lines below it.
pub proof fn comments_and_blank_lines_change_nothing(
    above: Seq<char>,
    line: Seq<char>,
    below: Seq<char>,
)
    requires
        whole_lines(above),
        one_line(line),
        passed_over(line),
    ensures
        same_but_for_the_line(parsed(above + below), parsed(above + line.push('\n') + below)),
{
    lemma_lines(above, line, below);
    lemma_pass_over(
        Progress { base: None, entries: Seq::empty(), bias: None, public: true },
        ended_lines(above),
        line,
        lines(below),
        0,
    );
}

} // verus!
