//! What a library vector's arguments *are*: which register carries each one,
//! and what its bits mean.
//!
//! An fd table says a vector takes `(byteSize)(d0)`; it does not say that `d1`
//! of `AllocMem` is a bitfield whose `$10002` means `MEMF_CHIP|MEMF_CLEAR`.
//! That last step is what turns a resolved constant from a number a reader has
//! to look up into the thing the code actually asked for.
//!
//! The set is deliberately short: the vectors a program calls in its first
//! hundred instructions, where a wrong claim would also be a *load-bearing*
//! wrong claim. A vector missing from this table is not a gap to be filled by
//! guessing: an fd table already names arguments for anything, and only the type
//! information below needs this crate's confidence.
//!
//! A constant is rendered symbolically only where this table says what the
//! argument is. `$10002` in an untyped register stays `0x10002`, because
//! reading it as memory flags would be inventing a type the code never
//! declared.

use crate::constants::spec_parse_register;
use crate::text::{
    append_decimal, append_hexadecimal, characters, decimal, hexadecimal, same_text, trim,
};
use vstd::prelude::*;
use vstd::string::*;

verus! {

/// One named bit or value of an argument's type.
#[derive(Clone, Copy, Debug, PartialEq, Eq)]
pub struct NamedConstant {
    pub value: u32,
    pub name: &'static str,
}

/// What an argument register holds.
#[derive(Clone, Copy, Debug, PartialEq, Eq)]
pub enum ArgumentType {
    /// Just a number: an address, a size, a count. Rendered as it was written.
    Raw,
    /// A bitfield, rendered as the `|`-joined names of the bits that are set,
    /// with any leftover bits shown as a number so nothing is silently
    /// dropped.
    Flags(&'static [NamedConstant]),
    /// A closed set of values, rendered as the matching name or the number
    /// when it matches none.
    Enumeration(&'static [NamedConstant]),
}

/// One argument of a curated vector.
#[derive(Clone, Copy, Debug, PartialEq, Eq)]
pub struct AbiArgument {
    pub name: &'static str,
    /// The register in fd spelling: `d0`, `a1`, ...
    pub register: &'static str,
    pub kind: ArgumentType,
}

/// An argument's type as a mathematical value.
#[verifier::ext_equal]
pub enum TypeView {
    Raw,
    Flags(Seq<NamedConstant>),
    Enumeration(Seq<NamedConstant>),
}

/// An argument as a mathematical value.
#[verifier::ext_equal]
pub struct ArgumentView {
    pub name: Seq<char>,
    pub register: Seq<char>,
    pub kind: TypeView,
}

impl View for ArgumentType {
    type V = TypeView;

    open spec fn view(&self) -> TypeView {
        match *self {
            ArgumentType::Raw => TypeView::Raw,
            ArgumentType::Flags(constants) => TypeView::Flags(constants@),
            ArgumentType::Enumeration(constants) => TypeView::Enumeration(constants@),
        }
    }
}

impl View for AbiArgument {
    type V = ArgumentView;

    open spec fn view(&self) -> ArgumentView {
        ArgumentView { name: self.name@, register: self.register@, kind: self.kind@ }
    }
}

/// Arguments as mathematical values.
pub open spec fn argument_views(list: Seq<AbiArgument>) -> Seq<ArgumentView> {
    list.map_values(|argument: AbiArgument| argument@)
}

/// `exec/memory.h` allocation flags.
pub open spec fn memory_flags() -> Seq<NamedConstant> {
    seq![
        NamedConstant { value: 1, name: "MEMF_PUBLIC" },
        NamedConstant { value: 2, name: "MEMF_CHIP" },
        NamedConstant { value: 4, name: "MEMF_FAST" },
        NamedConstant { value: 0x100, name: "MEMF_LOCAL" },
        NamedConstant { value: 0x200, name: "MEMF_24BITDMA" },
        NamedConstant { value: 0x400, name: "MEMF_KICK" },
        NamedConstant { value: 0x10000, name: "MEMF_CLEAR" },
        NamedConstant { value: 0x20000, name: "MEMF_LARGEST" },
        NamedConstant { value: 0x40000, name: "MEMF_REVERSE" },
        NamedConstant { value: 0x80000, name: "MEMF_TOTAL" },
        NamedConstant { value: 0x80000000, name: "MEMF_NO_EXPUNGE" },
    ]
}

/// `dos/dos.h` access modes for `Open`.
pub open spec fn open_modes() -> Seq<NamedConstant> {
    seq![
        NamedConstant { value: 1004, name: "MODE_READWRITE" },
        NamedConstant { value: 1005, name: "MODE_OLDFILE" },
        NamedConstant { value: 1006, name: "MODE_NEWFILE" },
    ]
}

/// `dos/dos.h` seek modes.
pub open spec fn seek_modes() -> Seq<NamedConstant> {
    seq![
        NamedConstant { value: 0xffffffff, name: "OFFSET_BEGINNING" },
        NamedConstant { value: 0, name: "OFFSET_CURRENT" },
        NamedConstant { value: 1, name: "OFFSET_END" },
    ]
}

/// The arguments of `AllocMem` and `AllocVec`.
pub open spec fn spec_allocation() -> Seq<ArgumentView> {
    seq![
        ArgumentView { name: "byteSize"@, register: "d0"@, kind: TypeView::Raw },
        ArgumentView { name: "requirements"@, register: "d1"@, kind: TypeView::Flags(memory_flags()) },
    ]
}

fn allocation() -> (r: &'static [AbiArgument])
    ensures
        argument_views(r@) == spec_allocation(),
{
    let list: &'static [AbiArgument] = &[
        AbiArgument { name: "byteSize", register: "d0", kind: ArgumentType::Raw },
        AbiArgument {
            name: "requirements",
            register: "d1",
            kind: ArgumentType::Flags(
                &[
                    NamedConstant { value: 1, name: "MEMF_PUBLIC" },
                    NamedConstant { value: 2, name: "MEMF_CHIP" },
                    NamedConstant { value: 4, name: "MEMF_FAST" },
                    NamedConstant { value: 0x100, name: "MEMF_LOCAL" },
                    NamedConstant { value: 0x200, name: "MEMF_24BITDMA" },
                    NamedConstant { value: 0x400, name: "MEMF_KICK" },
                    NamedConstant { value: 0x10000, name: "MEMF_CLEAR" },
                    NamedConstant { value: 0x20000, name: "MEMF_LARGEST" },
                    NamedConstant { value: 0x40000, name: "MEMF_REVERSE" },
                    NamedConstant { value: 0x80000, name: "MEMF_TOTAL" },
                    NamedConstant { value: 0x80000000, name: "MEMF_NO_EXPUNGE" },
                ],
            ),
        },
    ];
    assert(list@[1].kind@->Flags_0 =~= memory_flags());
    assert(argument_views(list@) =~= spec_allocation());
    list
}

/// The arguments of `FreeMem`.
pub open spec fn spec_free_mem() -> Seq<ArgumentView> {
    seq![
        ArgumentView { name: "memoryBlock"@, register: "a1"@, kind: TypeView::Raw },
        ArgumentView { name: "byteSize"@, register: "d0"@, kind: TypeView::Raw },
    ]
}

fn free_mem() -> (r: &'static [AbiArgument])
    ensures
        argument_views(r@) == spec_free_mem(),
{
    let list: &'static [AbiArgument] = &[
        AbiArgument { name: "memoryBlock", register: "a1", kind: ArgumentType::Raw },
        AbiArgument { name: "byteSize", register: "d0", kind: ArgumentType::Raw },
    ];
    assert(argument_views(list@) =~= spec_free_mem());
    list
}

/// The arguments of `FreeVec`.
pub open spec fn spec_free_vec() -> Seq<ArgumentView> {
    seq![
        ArgumentView { name: "memoryBlock"@, register: "a1"@, kind: TypeView::Raw },
    ]
}

fn free_vec() -> (r: &'static [AbiArgument])
    ensures
        argument_views(r@) == spec_free_vec(),
{
    let list: &'static [AbiArgument] = &[
        AbiArgument { name: "memoryBlock", register: "a1", kind: ArgumentType::Raw },
    ];
    assert(argument_views(list@) =~= spec_free_vec());
    list
}

/// The arguments of `OpenLibrary`.
pub open spec fn spec_open_library() -> Seq<ArgumentView> {
    seq![
        ArgumentView { name: "libName"@, register: "a1"@, kind: TypeView::Raw },
        ArgumentView { name: "version"@, register: "d0"@, kind: TypeView::Raw },
    ]
}

fn open_library() -> (r: &'static [AbiArgument])
    ensures
        argument_views(r@) == spec_open_library(),
{
    let list: &'static [AbiArgument] = &[
        AbiArgument { name: "libName", register: "a1", kind: ArgumentType::Raw },
        AbiArgument { name: "version", register: "d0", kind: ArgumentType::Raw },
    ];
    assert(argument_views(list@) =~= spec_open_library());
    list
}

/// The arguments of `CloseLibrary`.
pub open spec fn spec_close_library() -> Seq<ArgumentView> {
    seq![
        ArgumentView { name: "library"@, register: "a1"@, kind: TypeView::Raw },
    ]
}

fn close_library() -> (r: &'static [AbiArgument])
    ensures
        argument_views(r@) == spec_close_library(),
{
    let list: &'static [AbiArgument] = &[
        AbiArgument { name: "library", register: "a1", kind: ArgumentType::Raw },
    ];
    assert(argument_views(list@) =~= spec_close_library());
    list
}

/// The arguments of `OpenDevice`.
pub open spec fn spec_open_device() -> Seq<ArgumentView> {
    seq![
        ArgumentView { name: "devName"@, register: "a0"@, kind: TypeView::Raw },
        ArgumentView { name: "unitNumber"@, register: "d0"@, kind: TypeView::Raw },
        ArgumentView { name: "ioRequest"@, register: "a1"@, kind: TypeView::Raw },
        ArgumentView { name: "flags"@, register: "d1"@, kind: TypeView::Raw },
    ]
}

fn open_device() -> (r: &'static [AbiArgument])
    ensures
        argument_views(r@) == spec_open_device(),
{
    let list: &'static [AbiArgument] = &[
        AbiArgument { name: "devName", register: "a0", kind: ArgumentType::Raw },
        AbiArgument { name: "unitNumber", register: "d0", kind: ArgumentType::Raw },
        AbiArgument { name: "ioRequest", register: "a1", kind: ArgumentType::Raw },
        AbiArgument { name: "flags", register: "d1", kind: ArgumentType::Raw },
    ];
    assert(argument_views(list@) =~= spec_open_device());
    list
}

/// The arguments of the vectors that take an I/O request.
pub open spec fn spec_io_request() -> Seq<ArgumentView> {
    seq![
        ArgumentView { name: "ioRequest"@, register: "a1"@, kind: TypeView::Raw },
    ]
}

fn io_request() -> (r: &'static [AbiArgument])
    ensures
        argument_views(r@) == spec_io_request(),
{
    let list: &'static [AbiArgument] = &[
        AbiArgument { name: "ioRequest", register: "a1", kind: ArgumentType::Raw },
    ];
    assert(argument_views(list@) =~= spec_io_request());
    list
}

/// The arguments of `Open`.
pub open spec fn spec_dos_open() -> Seq<ArgumentView> {
    seq![
        ArgumentView { name: "name"@, register: "d1"@, kind: TypeView::Raw },
        ArgumentView { name: "accessMode"@, register: "d2"@, kind: TypeView::Enumeration(open_modes()) },
    ]
}

fn dos_open() -> (r: &'static [AbiArgument])
    ensures
        argument_views(r@) == spec_dos_open(),
{
    let list: &'static [AbiArgument] = &[
        AbiArgument { name: "name", register: "d1", kind: ArgumentType::Raw },
        AbiArgument {
            name: "accessMode",
            register: "d2",
            kind: ArgumentType::Enumeration(
                &[
                    NamedConstant { value: 1004, name: "MODE_READWRITE" },
                    NamedConstant { value: 1005, name: "MODE_OLDFILE" },
                    NamedConstant { value: 1006, name: "MODE_NEWFILE" },
                ],
            ),
        },
    ];
    assert(list@[1].kind@->Enumeration_0 =~= open_modes());
    assert(argument_views(list@) =~= spec_dos_open());
    list
}

/// The arguments of `Close`.
pub open spec fn spec_dos_close() -> Seq<ArgumentView> {
    seq![
        ArgumentView { name: "file"@, register: "d1"@, kind: TypeView::Raw },
    ]
}

fn dos_close() -> (r: &'static [AbiArgument])
    ensures
        argument_views(r@) == spec_dos_close(),
{
    let list: &'static [AbiArgument] = &[
        AbiArgument { name: "file", register: "d1", kind: ArgumentType::Raw },
    ];
    assert(argument_views(list@) =~= spec_dos_close());
    list
}

/// The arguments of `Read` and `Write`.
pub open spec fn spec_dos_read_write() -> Seq<ArgumentView> {
    seq![
        ArgumentView { name: "file"@, register: "d1"@, kind: TypeView::Raw },
        ArgumentView { name: "buffer"@, register: "d2"@, kind: TypeView::Raw },
        ArgumentView { name: "length"@, register: "d3"@, kind: TypeView::Raw },
    ]
}

fn dos_read_write() -> (r: &'static [AbiArgument])
    ensures
        argument_views(r@) == spec_dos_read_write(),
{
    let list: &'static [AbiArgument] = &[
        AbiArgument { name: "file", register: "d1", kind: ArgumentType::Raw },
        AbiArgument { name: "buffer", register: "d2", kind: ArgumentType::Raw },
        AbiArgument { name: "length", register: "d3", kind: ArgumentType::Raw },
    ];
    assert(argument_views(list@) =~= spec_dos_read_write());
    list
}

/// The arguments of `Seek`.
pub open spec fn spec_dos_seek() -> Seq<ArgumentView> {
    seq![
        ArgumentView { name: "file"@, register: "d1"@, kind: TypeView::Raw },
        ArgumentView { name: "position"@, register: "d2"@, kind: TypeView::Raw },
        ArgumentView { name: "mode"@, register: "d3"@, kind: TypeView::Enumeration(seek_modes()) },
    ]
}

fn dos_seek() -> (r: &'static [AbiArgument])
    ensures
        argument_views(r@) == spec_dos_seek(),
{
    let list: &'static [AbiArgument] = &[
        AbiArgument { name: "file", register: "d1", kind: ArgumentType::Raw },
        AbiArgument { name: "position", register: "d2", kind: ArgumentType::Raw },
        AbiArgument {
            name: "mode",
            register: "d3",
            kind: ArgumentType::Enumeration(
                &[
                    NamedConstant { value: 0xffffffff, name: "OFFSET_BEGINNING" },
                    NamedConstant { value: 0, name: "OFFSET_CURRENT" },
                    NamedConstant { value: 1, name: "OFFSET_END" },
                ],
            ),
        },
    ];
    assert(list@[2].kind@->Enumeration_0 =~= seek_modes());
    assert(argument_views(list@) =~= spec_dos_seek());
    list
}

/// The curated argument list for one vector, empty where the table does not
/// describe it.
pub open spec fn spec_arguments(library: Seq<char>, lvo: i16) -> Seq<ArgumentView> {
    if library == "exec.library"@ {
        if lvo == -198 || lvo == -684 {
            spec_allocation()
        } else if lvo == -210 {
            spec_free_mem()
        } else if lvo == -690 {
            spec_free_vec()
        } else if lvo == -552 {
            spec_open_library()
        } else if lvo == -414 {
            spec_close_library()
        } else if lvo == -444 {
            spec_open_device()
        } else if lvo == -450 || lvo == -456 || lvo == -462 || lvo == -468 || lvo == -474 {
            spec_io_request()
        } else {
            Seq::empty()
        }
    } else if library == "dos.library"@ {
        if lvo == -30 {
            spec_dos_open()
        } else if lvo == -36 {
            spec_dos_close()
        } else if lvo == -42 || lvo == -48 {
            spec_dos_read_write()
        } else if lvo == -66 {
            spec_dos_seek()
        } else {
            Seq::empty()
        }
    } else {
        Seq::empty()
    }
}

/// The curated argument list for one vector, or empty when this table does not
/// describe it.
///
/// `library` is the identity's own name (`exec.library`, `dos.library`), so a
/// vector offset is never read against the wrong library: the same LVO means
/// different things under different bases, which is the mistake this signature
/// shape exists to prevent.
pub fn arguments(library: &str, lvo: i16) -> (r: &'static [AbiArgument])
    ensures
        argument_views(r@) == spec_arguments(library@, lvo),
{
    proof {
        reveal_strlit("exec.library");
        reveal_strlit("dos.library");
    }
    let none: &'static [AbiArgument] = &[];
    assert(argument_views(none@) =~= Seq::empty());
    if same_text(library, "exec.library") {
        if lvo == -198 || lvo == -684 {
            allocation()
        } else if lvo == -210 {
            free_mem()
        } else if lvo == -690 {
            free_vec()
        } else if lvo == -552 {
            open_library()
        } else if lvo == -414 {
            close_library()
        } else if lvo == -444 {
            open_device()
        } else if lvo == -450 || lvo == -456 || lvo == -462 || lvo == -468 || lvo == -474 {
            io_request()
        } else {
            none
        }
    } else if same_text(library, "dos.library") {
        if lvo == -30 {
            dos_open()
        } else if lvo == -36 {
            dos_close()
        } else if lvo == -42 || lvo == -48 {
            dos_read_write()
        } else if lvo == -66 {
            dos_seek()
        } else {
            none
        }
    } else {
        none
    }
}

/// The code of a character, with upper-case ASCII letters as lower-case ones.
pub open spec fn spec_folded(c: char) -> u32 {
    if 65 <= c as u32 <= 90 {
        (c as u32 + 32) as u32
    } else {
        c as u32
    }
}

fn folded(c: char) -> (r: u32)
    ensures
        r == spec_folded(c),
{
    let code: u32 = c as u32;
    if code >= 65 && code <= 90 {
        code + 32
    } else {
        code
    }
}

/// Whether two texts are the same but for the case of ASCII letters.
pub open spec fn same_but_for_case(left: Seq<char>, right: Seq<char>) -> bool {
    &&& left.len() == right.len()
    &&& forall|i: int|
        0 <= i < left.len() ==> spec_folded(#[trigger] left[i]) == spec_folded(right[i])
}

fn is_same_but_for_case(left: &str, right: &str) -> (r: bool)
    ensures
        r == same_but_for_case(left@, right@),
{
    let a = characters(left);
    let b = characters(right);
    if a.len() != b.len() {
        return false;
    }
    let mut i: usize = 0;
    while i < a.len()
        invariant
            a@ == left@,
            b@ == right@,
            a@.len() == b@.len(),
            i <= a@.len(),
            forall|k: int| 0 <= k < i ==> spec_folded(#[trigger] a@[k]) == spec_folded(b@[k]),
        decreases a@.len() - i,
    {
        if folded(a[i]) != folded(b[i]) {
            assert(spec_folded(left@[i as int]) != spec_folded(right@[i as int]));
            return false;
        }
        i += 1;
    }
    true
}

/// The type of the first argument from `from` on that `register` carries.
pub open spec fn type_among(arguments: Seq<ArgumentView>, from: int, register: Seq<char>) -> TypeView
    decreases arguments.len() - from,
{
    if 0 <= from < arguments.len() {
        if same_but_for_case(arguments[from].register, register) {
            arguments[from].kind
        } else {
            type_among(arguments, from + 1, register)
        }
    } else {
        TypeView::Raw
    }
}

/// The type this table gives `register` of one vector, defaulting to raw.
pub fn argument_type(library: &str, lvo: i16, register: &str) -> (r: ArgumentType)
    ensures
        r@ == type_among(spec_arguments(library@, lvo), 0, register@),
{
    let list = arguments(library, lvo);
    let ghost all = spec_arguments(library@, lvo);
    let mut i: usize = 0;
    while i < list.len()
        invariant
            argument_views(list@) == all,
            all == spec_arguments(library@, lvo),
            i <= list@.len(),
            type_among(all, 0, register@) == type_among(all, i as int, register@),
        decreases list@.len() - i,
    {
        assert(all[i as int] == list@[i as int]@);
        if is_same_but_for_case(list[i].register, register) {
            return list[i].kind;
        }
        i += 1;
    }
    ArgumentType::Raw
}

/// A number as a report shows it: small values read better as decimal; anything
/// larger is an address, a mask, or a flag word, and reads better as hex.
pub open spec fn rendered_number(value: u32) -> Seq<char> {
    if value < 0x1_0000 {
        decimal(value as nat)
    } else {
        hexadecimal(value as nat)
    }
}

fn append_number(text: &mut String, value: u32)
    ensures
        final(text)@ == old(text)@ + rendered_number(value),
{
    if value < 0x1_0000 {
        append_decimal(text, value as u64);
    } else {
        append_hexadecimal(text, value as u64);
    }
}

/// Whether all the bits of a named flag are set.
pub open spec fn is_set(value: u32, flag: NamedConstant) -> bool {
    value & flag.value == flag.value && flag.value != 0
}

/// The names of the flags that are set, joined by `|`.
pub open spec fn flag_names(constants: Seq<NamedConstant>, value: u32) -> Seq<char>
    decreases constants.len(),
{
    if constants.len() == 0 {
        Seq::empty()
    } else {
        let names = flag_names(constants.drop_last(), value);
        let flag = constants.last();
        if !is_set(value, flag) {
            names
        } else if flag_bits(constants.drop_last(), value) == 0 {
            flag.name@
        } else {
            names + "|"@ + flag.name@
        }
    }
}

/// The bits of the flags that are set.
pub open spec fn flag_bits(constants: Seq<NamedConstant>, value: u32) -> u32
    decreases constants.len(),
{
    if constants.len() == 0 {
        0
    } else if is_set(value, constants.last()) {
        flag_bits(constants.drop_last(), value) | constants.last().value
    } else {
        flag_bits(constants.drop_last(), value)
    }
}

/// The name of the first constant from `from` on that has a value.
pub open spec fn name_among(constants: Seq<NamedConstant>, from: int, value: u32) -> Option<Seq<char>>
    decreases constants.len() - from,
{
    if 0 <= from < constants.len() {
        if constants[from].value == value {
            Some(constants[from].name@)
        } else {
            name_among(constants, from + 1, value)
        }
    } else {
        None
    }
}

/// A value as its type reads it.
pub open spec fn spec_render(kind: TypeView, value: u32) -> Seq<char> {
    match kind {
        TypeView::Raw => rendered_number(value),
        TypeView::Enumeration(constants) => match name_among(constants, 0, value) {
            Some(name) => name,
            None => rendered_number(value),
        },
        TypeView::Flags(constants) => {
            let known = flag_bits(constants, value);
            if known == 0 {
                rendered_number(value)
            } else if value & !known != 0 {
                flag_names(constants, value) + "|"@ + rendered_number(value & !known)
            } else {
                flag_names(constants, value)
            }
        },
    }
}

fn render_flags(constants: &[NamedConstant], value: u32) -> (r: String)
    ensures
        r@ == spec_render(TypeView::Flags(constants@), value),
{
    let mut names = String::new();
    let mut known: u32 = 0;
    let mut i: usize = 0;
    while i < constants.len()
        invariant
            i <= constants@.len(),
            names@ == flag_names(constants@.take(i as int), value),
            known == flag_bits(constants@.take(i as int), value),
        decreases constants@.len() - i,
    {
        let flag = constants[i];
        proof {
            let more = constants@.take(i + 1);
            assert(more.drop_last() =~= constants@.take(i as int));
            assert(more.last() == flag);
        }
        if value & flag.value == flag.value && flag.value != 0 {
            if known != 0 {
                names.append("|");
            } else {
                proof {
                    lemma_no_names(constants@.take(i as int), value);
                }
            }
            names.append(flag.name);
            assert(names@ =~= flag_names(constants@.take(i + 1), value));
            known = known | flag.value;
        }
        i += 1;
    }
    assert(constants@.take(i as int) =~= constants@);
    if known == 0 {
        let mut number = String::new();
        append_number(&mut number, value);
        assert(number@ =~= rendered_number(value));
        return number;
    }
    let rest: u32 = value & !known;
    if rest != 0 {
        names.append("|");
        append_number(&mut names, rest);
    }
    names
}

proof fn lemma_no_names(constants: Seq<NamedConstant>, value: u32)
    requires
        flag_bits(constants, value) == 0,
    ensures
        flag_names(constants, value) == Seq::<char>::empty(),
    decreases constants.len(),
{
    if constants.len() > 0 {
        let before = flag_bits(constants.drop_last(), value);
        let flag = constants.last().value;
        assert(before | flag == 0 ==> before == 0 && flag == 0) by (bit_vector);
        lemma_no_names(constants.drop_last(), value);
    }
}

/// Render `value` as its type reads it.
///
/// Unmatched bits are always shown. A flags word whose known names covered
/// only part of it would otherwise read as fully understood, which is exactly
/// the case where a reader most needs to look at the number.
pub fn render(kind: ArgumentType, value: u32) -> (r: String)
    ensures
        r@ == spec_render(kind@, value),
{
    let mut number = String::new();
    append_number(&mut number, value);
    assert(number@ =~= rendered_number(value));
    match kind {
        ArgumentType::Raw => number,
        ArgumentType::Enumeration(constants) => {
            let mut i: usize = 0;
            while i < constants.len()
                invariant
                    kind@ == TypeView::Enumeration(constants@),
                    i <= constants@.len(),
                    name_among(constants@, 0, value) == name_among(constants@, i as int, value),
                decreases constants@.len() - i,
            {
                if constants[i].value == value {
                    return constants[i].name.to_owned();
                }
                i += 1;
            }
            number
        },
        ArgumentType::Flags(constants) => render_flags(constants, value),
    }
}

/// Naming flags drops no bit: what the names stand for and what is shown as a
/// number beside them are together the value, and share no bit.
pub proof fn flags_drop_no_bit(constants: Seq<NamedConstant>, value: u32)
    ensures
        flag_bits(constants, value) | (value & !flag_bits(constants, value)) == value,
        flag_bits(constants, value) & (value & !flag_bits(constants, value)) == 0,
{
    lemma_flags_within(constants, value);
    let known = flag_bits(constants, value);
    assert(known & value == known ==> known | (value & !known) == value) by (bit_vector);
    assert(known & (value & !known) == 0) by (bit_vector);
}

proof fn lemma_flags_within(constants: Seq<NamedConstant>, value: u32)
    ensures
        flag_bits(constants, value) & value == flag_bits(constants, value),
    decreases constants.len(),
{
    if constants.len() > 0 {
        lemma_flags_within(constants.drop_last(), value);
        let before = flag_bits(constants.drop_last(), value);
        let flag = constants.last().value;
        assert(before & value == before && value & flag == flag ==> (before | flag) & value
            == before | flag) by (bit_vector);
    } else {
        assert(0u32 & value == 0) by (bit_vector);
    }
}

/// The table describes vectors of two libraries alone: the same offset under
/// another base is never read against it.
pub proof fn other_libraries_are_not_described(library: Seq<char>, lvo: i16)
    requires
        library != "exec.library"@,
        library != "dos.library"@,
    ensures
        spec_arguments(library, lvo) == Seq::<ArgumentView>::empty(),
{
}

/// Every register of the table parses as a register.
pub proof fn curated_registers_parse(library: Seq<char>, lvo: i16, i: int)
    requires
        0 <= i < spec_arguments(library, lvo).len(),
    ensures
        spec_parse_register(spec_arguments(library, lvo)[i].register) is Some,
{
    reveal_strlit("d0");
    reveal_strlit("d1");
    reveal_strlit("d2");
    reveal_strlit("d3");
    reveal_strlit("a0");
    reveal_strlit("a1");
    let register = spec_arguments(library, lvo)[i].register;
    assert(register.len() == 2);
    assert(trim(register) == register);
}

} // verus!
