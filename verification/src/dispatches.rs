//! That a recovered jump table is what its dispatch code reads and jumps through.

use crate::analysis::AnalysisView;
use crate::collections::lemma_addresses_in_order;
use crate::decoded::{word_at, DecodedView};
use crate::jump_tables::{
    entries, entry_holds, entry_target, is_unsigned_above, long_at, setup, spec_comparison, spec_dispatch,
    spec_indexed_base, spec_lea_offset, spec_scale_factor, spec_table, spec_table_load,
    spec_targets, Dispatch, Table,
};
use crate::m68k::{AddressingMode, Direction, Instruction, Isa, Operands, Size};
use crate::machine::{
    compared, executed, fetched, formed, holds, lemma_low_of_replaced, low, replaced, signed,
    two_to, width, wrapped, Machine,
};
use crate::meaning::extension_fields;
use crate::tracking::is_known;
use vstd::prelude::*;

verus! {

/// The comparison before a dispatch and the branch on it let through exactly the numbers that
/// are not above the maximum.
pub proof fn guards_admit_what_is_not_above(
    comparison: Instruction,
    guard: Instruction,
    held: int,
)
    requires
        spec_comparison(comparison) is Some,
        is_unsigned_above(guard),
    ensures
        ({
            let (size, register, maximum) = spec_comparison(comparison)->0;
            &&& guard.isa == Isa::Bcc
            &&& guard.operands matches Operands::ConditionDisplacement(condition, _) && (holds(
                condition,
                compared(size, held, maximum as int),
            ) <==> low(held, size) > low(maximum as int, size))
            &&& match comparison.operands {
                Operands::SizeEffectiveAddressImmediate(width, mode, value) => width == size && mode
                    == AddressingMode::Drd(register) && value == maximum && comparison.isa == Isa::Cmpi,
                Operands::RegisterDirectionSizeEffectiveAddress(compares, direction, width, mode) =>
                width == size && compares == register && mode == AddressingMode::Immediate(maximum)
                    && direction == Direction::DstReg && comparison.isa == Isa::Cmp,
                _ => false,
            }
        }),
{
}

/// An instruction that scales the index multiplies it by the factor.
pub proof fn scaling_multiplies_the_index(
    instruction: Instruction,
    size: Size,
    register: u8,
    m: Machine,
)
    requires
        m.wf(),
        register < 8,
        spec_scale_factor(instruction, size, register) is Some,
    ensures
        low(executed(m, instruction).data(register), size) == low(
            spec_scale_factor(instruction, size, register)->0 * low(m.data(register), size),
            size,
        ),
{
    let held = m.data(register);
    assert(0 <= m.registers[register as int] < 0x1_0000_0000);
    reveal_with_fuel(two_to, 3);
    assert(two_to(1) == 2 && two_to(2) == 4);
    let factor = spec_scale_factor(instruction, size, register)->0;
    let value = factor * low(held, size);
    lemma_low_of_replaced(held, size, value);
    if factor == 2 {
        assert(low(held, size) + low(held, size) == value);
        assert(low(held, size) * 2 == value);
    } else {
        assert(low(held, size) * 4 == value);
    }
}

/// The number that an index register adds to a base, used whole or by its low word.
pub open spec fn index_value(m: Machine, register: u8, long: bool) -> int {
    if long {
        m.data(register)
    } else {
        signed(m.data(register), Size::Word)
    }
}

/// The base of an indexed operand is what the index is added to.
pub proof fn indexed_operands_stand_behind_their_base(
    mode: AddressingMode,
    bases: Seq<Option<u32>>,
    size: Size,
    m: Machine,
)
    requires
        m.wf(),
        m.origin == 0,
        mode.in_range(),
        is_known(bases, m),
        spec_indexed_base(mode, bases) is Some,
    ensures
        ({
            let (base, register, long) = spec_indexed_base(mode, bases)->0;
            &&& register < 8
            &&& formed(m, mode, size) == wrapped(base + index_value(m, register, long))
        }),
{
    match mode {
        AddressingMode::Pciwi8(_, extension) => {
            lemma_plain_extension(extension.0);
            extension_fields(extension);
        },
        AddressingMode::Ariwi8(register, extension) => {
            lemma_plain_extension(extension.0);
            extension_fields(extension);
            assert(bases[register as int] matches Some(value) ==> m.registers[8 + register]
                == value);
        },
        _ => {},
    }
}

proof fn lemma_plain_extension(word: u16)
    ensures
        word & 0x8700 == 0 ==> word & 0x8000 == 0,
{
    assert(word & 0x8700 == 0 ==> word & 0x8000 == 0) by (bit_vector);
}

/// The base that `LEA` is taken to load is what it loads, in the image's own coordinates.
pub proof fn loaded_bases_are_loaded(
    length: nat,
    view: AnalysisView,
    decoded: DecodedView,
    m: Machine,
)
    requires
        m.wf(),
        m.origin == 0,
        view.relocations is None,
        view.rebase is None,
        decoded.instruction.wf(),
        spec_lea_offset(length, view, decoded) is Some,
    ensures
        ({
            let (register, offset) = spec_lea_offset(length, view, decoded)->0;
            &&& register < 8
            &&& executed(m, decoded.instruction).address(register) == offset
        }),
{
}

/// Whether memory holds an image at its bottom.
pub open spec fn holds_image(m: Machine, code: Seq<u8>) -> bool {
    forall|a: int| #![trigger code[a]] 0 <= a < code.len() ==> (m.memory)(a) == code[a]
}

/// The registers that the dispatch code has loaded before it reads its table.
pub open spec fn bases_of(length: nat, view: AnalysisView, d: Dispatch) -> Seq<Option<u32>> {
    match setup(length, view, d, d.prefix.len() - 2) {
        Some((bases, _)) => bases,
        None => Seq::empty(),
    }
}

/// A recovered table is the one that the dispatch goes through: whatever number up to the
/// maximum the index stands for, scaled to the width of an entry, the load before the jump
/// reads that entry of the table, and the jump goes where the entry says.
#[verifier::spinoff_prover]
#[verifier::rlimit(60)]
pub proof fn tables_are_what_dispatches_read(
    code: Seq<u8>,
    view: AnalysisView,
    d: Dispatch,
    table: Table,
    number: u32,
    m: Machine,
)
    requires
        m.wf(),
        m.origin == 0,
        holds_image(m, code),
        view.relocations is None,
        view.rebase is None,
        spec_table(code.len(), view, d) == Some(table),
        d.prefix.len() >= 2,
        d.prefix[d.prefix.len() - 2].instruction.wf(),
        d.prefix.last().instruction.wf(),
        number <= d.maximum < u32::MAX,
        is_known(bases_of(code.len(), view, d), m),
        index_value(m, d.register, d.size == Size::Long) == number * table.width,
        entry_target(code, view, table, number as int) is Some,
    ensures
        ({
            let load = d.prefix[d.prefix.len() - 2].instruction;
            let jump = d.prefix.last().instruction;
            &&& number < table.count
            &&& jump.operands matches Operands::EffectiveAddress(mode) && formed(
                executed(m, load),
                mode,
                Size::Long,
            ) == entry_target(code, view, table, number as int)->0
        }),
{
    let load = d.prefix[d.prefix.len() - 2].instruction;
    let jump = d.prefix.last().instruction;
    let bases = bases_of(code.len(), view, d);
    let (width, destination, lookup) = spec_table_load(load)->0;
    let at = table.start + number * table.width;
    let size = if width == 2 {
        Size::Word
    } else {
        Size::Long
    };
    assert(lookup.in_range() && destination < 8);
    assert(number * table.width <= d.maximum * table.width) by (nonlinear_arith)
        requires
            number <= d.maximum,
            table.width >= 0,
    ;
    assert((number + 1) * table.width <= table.count * table.width) by (nonlinear_arith)
        requires
            number + 1 <= table.count,
            table.width >= 0,
    ;
    assert((number + 1) * table.width == number * table.width + table.width) by (nonlinear_arith);
    indexed_operands_stand_behind_their_base(lookup, bases, size, m);
    assert(formed(m, lookup, size) == at);
    assert(at + width <= code.len());
    if width == 2 {
        lemma_word_entry(code, m, load, jump, destination, lookup, bases, at);
    } else {
        lemma_long_entry(code, m, load, destination, lookup, at);
    }
}

proof fn lemma_word_entry(
    code: Seq<u8>,
    m: Machine,
    load: Instruction,
    jump: Instruction,
    destination: u8,
    lookup: AddressingMode,
    bases: Seq<Option<u32>>,
    at: int,
)
    requires
        m.wf(),
        m.origin == 0,
        holds_image(m, code),
        is_known(bases, m),
        spec_table_load(load) == Some((2u32, destination, lookup)),
        lookup is Pciwi8 || lookup is Ariwi8,
        destination < 8,
        0 <= at,
        at + 2 <= code.len(),
        at + 2 <= 0xffff_ffff,
        formed(m, lookup, Size::Word) == at,
        jump.operands.in_range(),
    ensures
        jump.operands matches Operands::EffectiveAddress(mode) ==> (spec_indexed_base(mode, bases)
            matches Some((base, register, long)) ==> (register == destination && !long ==> formed(
            executed(m, load),
            mode,
            Size::Long,
        ) == wrapped(base + (word_at(code, at) as i16 as i32)))),
{
    let after = executed(m, load);
    let word = word_at(code, at);
    lemma_read(m, code, at, Size::Word);
    lemma_after_load(m, load, destination, lookup, word as int);
    assert(forall|i: int|
        #![trigger bases[i]]
        0 <= i < 8 ==> after.registers[8 + i] == m.registers[8 + i]);
    assert(is_known(bases, after));
    assert(0 <= m.registers[destination as int] < 0x1_0000_0000);
    lemma_low_of_replaced(m.data(destination), Size::Word, word as int);
    lemma_signed(word);
    if let Operands::EffectiveAddress(mode) = jump.operands {
        if spec_indexed_base(mode, bases) is Some {
            indexed_operands_stand_behind_their_base(mode, bases, Size::Long, after);
        }
    }
}

proof fn lemma_whole(value: u32)
    ensures
        wrapped(signed(value as int, Size::Long)) == value,
{
}

#[verifier::spinoff_prover]
proof fn lemma_long_entry(
    code: Seq<u8>,
    m: Machine,
    load: Instruction,
    destination: u8,
    lookup: AddressingMode,
    at: int,
)
    requires
        m.wf(),
        holds_image(m, code),
        spec_table_load(load) == Some((4u32, destination, lookup)),
        lookup is Pciwi8 || lookup is Ariwi8,
        destination < 8,
        0 <= at,
        at + 4 <= code.len(),
        at + 4 <= 0xffff_ffff,
        formed(m, lookup, Size::Long) == at,
    ensures
        executed(m, load).address(destination) == long_at(code, at),
{
    let value: u32 = long_at(code, at);
    lemma_read(m, code, at, Size::Long);
    lemma_whole(value);
    assert(fetched(m, lookup, Size::Long) == value);
    assert(executed(m, load).registers[8 + destination] == wrapped(
        signed(fetched(m, lookup, Size::Long), Size::Long),
    ));
}

proof fn lemma_after_load(
    m: Machine,
    load: Instruction,
    destination: u8,
    lookup: AddressingMode,
    value: int,
)
    requires
        m.wf(),
        destination < 8,
        load.isa == Isa::Move,
        load.operands == Operands::SizeEffectiveAddressEffectiveAddress(
            Size::Word,
            AddressingMode::Drd(destination),
            lookup,
        ),
        lookup is Pciwi8 || lookup is Ariwi8,
        fetched(m, lookup, Size::Word) == value,
    ensures
        executed(m, load).wf(),
        executed(m, load).data(destination) == replaced(m.data(destination), Size::Word, value),
        executed(m, load).origin == m.origin,
{
    let after = executed(m, load);
    assert forall|i: int| 0 <= i < 16 implies 0 <= #[trigger] after.registers[i] < 0x1_0000_0000 by {
        assert(0 <= m.registers[i] < 0x1_0000_0000);
    }
}

proof fn lemma_signed(word: u16)
    ensures
        word as i16 as i32 == signed(word as int, Size::Word),
{
    assert(word as i16 as i32 == if word < 0x8000 {
        word + 0
    } else {
        word - 0x1_0000
    }) by (bit_vector);
}

proof fn lemma_read(m: Machine, code: Seq<u8>, at: int, size: Size)
    requires
        holds_image(m, code),
        0 <= at,
        at + width(size) <= code.len(),
        at + width(size) <= 0xffff_ffff,
        size != Size::Byte,
    ensures
        size == Size::Word ==> m.load(at, size) == word_at(code, at),
        size == Size::Long ==> m.load(at, size) == long_at(code, at),
{
    assert(code[at] == (m.memory)(at));
    assert(code[at + 1] == (m.memory)(at + 1));
    if size == Size::Long {
        assert(code[at + 2] == (m.memory)(at + 2));
        assert(code[at + 3] == (m.memory)(at + 3));
    }
    assert(wrapped(at + 0) == at && wrapped(at + 1) == at + 1);
    if size == Size::Long {
        assert(wrapped(at + 2) == at + 2 && wrapped(at + 3) == at + 3);
    }
}

/// The targets of a dispatch are the targets of all its entries, and of nothing else: for each
/// number up to the maximum where that entry leads.
pub proof fn targets_are_those_of_all_entries(code: Seq<u8>, view: AnalysisView, site: u32, target: u32)
    requires
        spec_targets(code, view, site) is Some,
    ensures
        ({
            let d = spec_dispatch(view, site)->0;
            let table = spec_table(code.len(), view, d)->0;
            &&& table.count == d.maximum + 1
            &&& spec_targets(code, view, site)->0.contains(target) <==> exists|i: int|
                0 <= i < table.count && #[trigger] entry_target(code, view, table, i) == Some(target)
        }),
{
    let d = spec_dispatch(view, site)->0;
    let table = spec_table(code.len(), view, d)->0;
    let all = entries(code, view, table);
    lemma_addresses_in_order(all.to_set());
    assert(all.to_set().contains(target) <==> all.contains(target));
    if all.contains(target) {
        let i = choose|i: int| 0 <= i < all.len() && all[i] == target;
        assert(entry_holds(code, view, d, table, i));
        assert(entry_target(code, view, table, i) == Some(target));
    }
    if exists|i: int|
        0 <= i < table.count && #[trigger] entry_target(code, view, table, i) == Some(target) {
        let i = choose|i: int|
            0 <= i < table.count && #[trigger] entry_target(code, view, table, i) == Some(target);
        assert(all[i] == target);
    }
}

} // verus!
