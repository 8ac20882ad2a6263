//! Numbers and fragments as text.

use vstd::prelude::*;
use vstd::string::*;

verus! {

/// The character of one lower-case hexadecimal digit.
pub open spec fn digit_char(digit: nat) -> char {
    if digit < 10 {
        (48 + digit) as char
    } else {
        (87 + digit) as char
    }
}

/// A number in the given base, most significant digit first.
pub open spec fn digits(value: nat, base: nat) -> Seq<char>
    decreases value,
{
    if base < 2 || value < base {
        seq![digit_char(value)]
    } else {
        proof {
            assert(value / base < value) by (nonlinear_arith)
                requires
                    2 <= base <= value,
            ;
        }
        digits(value / base, base).push(digit_char(value % base))
    }
}

/// A number in decimal.
pub open spec fn decimal(value: nat) -> Seq<char> {
    digits(value, 10)
}

/// A number in hexadecimal, as `0x` and its lower-case digits.
pub open spec fn hexadecimal(value: nat) -> Seq<char> {
    "0x"@ + digits(value, 16)
}

/// [`String::push`] appends one character to the end of a string.
pub assume_specification[ String::push ](text: &mut String, c: char)
    ensures
        final(text)@ == old(text)@.push(c),
;

/// One hexadecimal digit.
pub fn digit_text(digit: u32) -> (r: &'static str)
    requires
        digit < 16,
    ensures
        r@ == seq![digit_char(digit as nat)],
{
    proof {
        reveal_strlit("0");
        reveal_strlit("1");
        reveal_strlit("2");
        reveal_strlit("3");
        reveal_strlit("4");
        reveal_strlit("5");
        reveal_strlit("6");
        reveal_strlit("7");
        reveal_strlit("8");
        reveal_strlit("9");
        reveal_strlit("a");
        reveal_strlit("b");
        reveal_strlit("c");
        reveal_strlit("d");
        reveal_strlit("e");
        reveal_strlit("f");
    }
    let r = match digit {
        0 => "0",
        1 => "1",
        2 => "2",
        3 => "3",
        4 => "4",
        5 => "5",
        6 => "6",
        7 => "7",
        8 => "8",
        9 => "9",
        10 => "a",
        11 => "b",
        12 => "c",
        13 => "d",
        14 => "e",
        _ => "f",
    };
    assert(r@ =~= seq![digit_char(digit as nat)]);
    r
}

/// Append a number in the given base.
pub fn append_digits(out: &mut String, value: u64, base: u64)
    requires
        2 <= base <= 16,
    ensures
        final(out)@ == old(out)@ + digits(value as nat, base as nat),
    decreases value,
{
    let last: u64 = value % base;
    if value < base {
        out.append(digit_text(value as u32));
    } else {
        assert(value / base < value) by (nonlinear_arith)
            requires
                2 <= base <= value,
        ;
        append_digits(out, value / base, base);
        out.append(digit_text(last as u32));
        assert(out@ =~= old(out)@ + digits(value as nat, base as nat));
    }
}

/// Append a number in decimal.
pub fn append_decimal(out: &mut String, value: u64)
    ensures
        final(out)@ == old(out)@ + decimal(value as nat),
{
    append_digits(out, value, 10);
}

/// Append a number in hexadecimal, as `0x` and its lower-case digits.
pub fn append_hexadecimal(out: &mut String, value: u64)
    ensures
        final(out)@ == old(out)@ + hexadecimal(value as nat),
{
    out.append("0x");
    append_digits(out, value, 16);
    assert(out@ =~= old(out)@ + hexadecimal(value as nat));
}

/// The characters of a text.
pub fn characters(text: &str) -> (r: Vec<char>)
    ensures
        r@ == text@,
{
    let mut list: Vec<char> = Vec::new();
    for c in it: text.chars()
        invariant
            list@ == it.seq().take(it.index() as int),
    {
        list.push(c);
    }
    list
}

/// Whether two texts are the same.
pub fn same_text(left: &str, right: &str) -> (r: bool)
    ensures
        r == (left@ == right@),
{
    let a = characters(left);
    let b = characters(right);
    same_characters(&a, &b)
}

/// Whether two lists of characters are the same.
pub fn same_characters(left: &Vec<char>, right: &Vec<char>) -> (r: bool)
    ensures
        r == (left@ == right@),
{
    if left.len() != right.len() {
        return false;
    }
    let mut i: usize = 0;
    while i < left.len()
        invariant
            left@.len() == right@.len(),
            i <= left@.len(),
            left@.take(i as int) == right@.take(i as int),
        decreases left@.len() - i,
    {
        if left[i] != right[i] {
            assert(left@[i as int] != right@[i as int]);
            return false;
        }
        assert(left@.take(i + 1) =~= left@.take(i as int).push(left@[i as int]));
        assert(right@.take(i + 1) =~= right@.take(i as int).push(right@[i as int]));
        i += 1;
    }
    assert(left@.take(i as int) =~= left@);
    assert(right@.take(i as int) =~= right@);
    true
}

/// Whether a character is white space in Unicode's sense.
pub open spec fn spec_is_whitespace(c: char) -> bool {
    let n = c as u32;
    9 <= n <= 13 || n == 0x20 || n == 0x85 || n == 0xa0 || n == 0x1680 || 0x2000 <= n <= 0x200a || n
        == 0x2028 || n == 0x2029 || n == 0x202f || n == 0x205f || n == 0x3000
}

/// Whether a character is white space in Unicode's sense.
pub fn is_whitespace(c: char) -> (r: bool)
    ensures
        r == spec_is_whitespace(c),
{
    let n: u32 = c as u32;
    9 <= n && n <= 13 || n == 0x20 || n == 0x85 || n == 0xa0 || n == 0x1680 || 0x2000 <= n && n
        <= 0x200a || n == 0x2028 || n == 0x2029 || n == 0x202f || n == 0x205f || n == 0x3000
}

/// A text without the white space it starts with.
pub open spec fn trim_start(text: Seq<char>) -> Seq<char>
    decreases text.len(),
{
    if text.len() > 0 && spec_is_whitespace(text[0]) {
        trim_start(text.skip(1))
    } else {
        text
    }
}

/// A text without the white space it ends with.
pub open spec fn trim_end(text: Seq<char>) -> Seq<char>
    decreases text.len(),
{
    if text.len() > 0 && spec_is_whitespace(text.last()) {
        trim_end(text.drop_last())
    } else {
        text
    }
}

/// A text without white space around it.
pub open spec fn trim(text: Seq<char>) -> Seq<char> {
    trim_end(trim_start(text))
}

/// Where the part of a text from `from` to `to` starts and ends without white
/// space around it.
pub fn trim_range(text: &Vec<char>, from: usize, to: usize) -> (r: (usize, usize))
    requires
        from <= to <= text@.len(),
    ensures
        from <= r.0 <= r.1 <= to,
        text@.subrange(r.0 as int, r.1 as int) == trim(text@.subrange(from as int, to as int)),
{
    let ghost whole = text@.subrange(from as int, to as int);
    let mut start: usize = from;
    while start < to && is_whitespace(text[start])
        invariant
            from <= start <= to <= text@.len(),
            trim_start(text@.subrange(start as int, to as int)) == trim_start(whole),
        decreases to - start,
    {
        proof {
            let rest = text@.subrange(start as int, to as int);
            assert(rest.skip(1) =~= text@.subrange(start + 1, to as int));
        }
        start += 1;
    }
    assert(text@.subrange(start as int, to as int) == trim_start(whole));
    let mut end: usize = to;
    while end > start && is_whitespace(text[end - 1])
        invariant
            from <= start <= end <= to <= text@.len(),
            trim_end(text@.subrange(start as int, end as int)) == trim(whole),
        decreases end - start,
    {
        proof {
            let rest = text@.subrange(start as int, end as int);
            assert(rest.drop_last() =~= text@.subrange(start as int, end - 1));
            assert(rest.last() == text@[end - 1]);
        }
        end -= 1;
    }
    (start, end)
}

} // verus!
