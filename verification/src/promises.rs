//! What smaller findings promise: loaded code addresses, moved scales, observed frames,
//! prologues, block boundaries, and the types of arguments.

use crate::abi::{
    name_among, same_but_for_case, spec_render, type_among, ArgumentView, NamedConstant, TypeView,
};
use crate::analysis::AnalysisView;
use crate::blocks::{chain, Region};
use crate::constants::{spec_address_register_candidate, spec_candidate_offset, CandidateSource};
use crate::decoded::DecodedView;
use crate::fixed_point::operand_scales;
use crate::frames::lemma_slots;
use crate::m68k::{AddressingMode, Direction, Isa, Operands, Size};
use crate::machine::{executed, low, replaced, wrapped, Machine};
use crate::meaning::{is_encodable, words_are_extended_by_their_sign};
use crate::stack::{
    spec_observe_instruction, spec_stack_adjustment, spec_stack_transfer, StackAdjustment,
    StackDepth, StackObservations,
};
use crate::text::{spec_is_whitespace, trim, trim_end, trim_start};
use crate::tracking::lemma_low_word;
use crate::traverse::spec_is_prologue;
use vstd::prelude::*;

verus! {

/// The offset that an instruction is taken to load into an address register is what it loads,
/// counted from where the image stands.
pub proof fn candidates_are_loaded(
    view: AnalysisView,
    decoded: DecodedView,
    m: Machine,
)
    requires
        m.wf(),
        view.relocations is None,
        m.origin == match view.rebase {
            Some(rebase) => rebase.origin as int,
            None => 0,
        },
        decoded.instruction.wf(),
        is_encodable(decoded.instruction),
        spec_address_register_candidate(decoded.instruction) is Some,
    ensures
        ({
            let (register, source) = spec_address_register_candidate(decoded.instruction)->0;
            &&& register < 8
            &&& spec_candidate_offset(view, decoded, source) matches Some(offset) ==> executed(
                m,
                decoded.instruction,
            ).address(register) == wrapped(m.origin + offset)
        }),
{
    let (register, source) = spec_address_register_candidate(decoded.instruction)->0;
    match source {
        CandidateSource::Address(AddressingMode::AbsShort(word)) => {
            words_are_extended_by_their_sign(word);
        },
        CandidateSource::Immediate(size, value) => {
            words_are_extended_by_their_sign(value as u16);
            lemma_low_word(value);
        },
        _ => {},
    }
}

/// A scale goes where its value goes: a move of a whole data register carries it along, and an
/// exchange exchanges it.
pub proof fn scales_go_with_their_values(
    decoded: DecodedView,
    scales: Seq<Option<u8>>,
    i: int,
    m: Machine,
)
    requires
        m.wf(),
        scales.len() == 8,
        0 <= i < 8,
        decoded.instruction.wf(),
        match decoded.instruction.operands {
            Operands::SizeEffectiveAddressEffectiveAddress(size, destination, source) => size
                == Size::Long && destination is Drd && source is Drd,
            Operands::RegisterOpmodeRegister(_, direction, _) => direction
                == Direction::ExchangeData,
            _ => false,
        },
    ensures
        exists|j: int|
            0 <= j < 8 && executed(m, decoded.instruction).registers[i] == #[trigger] m.registers[j]
                && operand_scales(decoded.instruction.isa, decoded.instruction.operands, scales)[i]
                == scales[j],
{
    let now = operand_scales(decoded.instruction.isa, decoded.instruction.operands, scales);
    match decoded.instruction.operands {
        Operands::SizeEffectiveAddressEffectiveAddress(
            _,
            AddressingMode::Drd(destination),
            AddressingMode::Drd(source),
        ) => {
            let j: int = if i == destination {
                source as int
            } else {
                i
            };
            assert(0 <= m.registers[source as int] < 0x1_0000_0000);
            assert(0 <= m.registers[i] < 0x1_0000_0000);
            assert(0 <= m.registers[destination as int] < 0x1_0000_0000);
            let value = m.registers[source as int];
            assert(decoded.instruction.isa == Isa::Move);
            assert(low(value, Size::Long) == value);
            assert(low(low(value, Size::Long), Size::Long) == value);
            assert(replaced(m.registers[destination as int], Size::Long, value) == value);
            assert(executed(m, decoded.instruction) == m.holding(
                destination as int,
                replaced(m.registers[destination as int], Size::Long, value),
            ));
            assert(executed(m, decoded.instruction).registers[i] == m.registers[j] && now[i]
                == scales[j]);
        },
        Operands::RegisterOpmodeRegister(left, _, right) => {
            let j: int = if i == right {
                left as int
            } else if i == left {
                right as int
            } else {
                i
            };
            assert(executed(m, decoded.instruction).registers[i] == m.registers[j] && now[i]
                == scales[j]);
        },
        _ => {},
    }
}

/// Whatever a walk has seen of a frame stays seen, and the greatest allocation is never below
/// one that it passed.
pub proof fn observations_only_grow(
    decoded: DecodedView,
    state: StackDepth,
    seen: StackObservations,
)
    ensures
        ({
            let now = spec_observe_instruction(decoded, state, seen);
            let after = spec_stack_transfer(spec_stack_adjustment(decoded), state);
            &&& now.maximum_local_bytes >= seen.maximum_local_bytes
            &&& seen.unknown ==> now.unknown
            &&& seen.path_dependent ==> now.path_dependent
            &&& state matches StackDepth::Exact(position) ==> now.maximum_local_bytes
                >= position.peak_locals
            &&& after matches StackDepth::Exact(position) ==> now.maximum_local_bytes
                >= position.peak_locals
            &&& state is PathDependent || after is PathDependent ==> now.path_dependent
            &&& state is Unknown || after is Unknown ==> now.unknown
        }),
{
}

/// A prologue makes room on the stack or saves registers there: it never gives room back by a
/// quick operation, a negative distance of `LEA` or a push.
pub proof fn prologues_go_down(decoded: DecodedView)
    requires
        decoded.instruction.wf(),
        spec_is_prologue(decoded.instruction),
        decoded.movec_destination() is None,
    ensures
        match spec_stack_adjustment(decoded) {
            StackAdjustment::Link { .. } => decoded.instruction.isa == Isa::Link,
            StackAdjustment::Adjust { depth, .. } => decoded.instruction.isa == Isa::Suba || depth
                >= 0,
            StackAdjustment::Unknown => true,
            _ => false,
        },
{
    if let Operands::DirectionSizeEffectiveAddressList(_, _, _, list) =
        decoded.instruction.operands {
        lemma_slots(list, 16);
    }
}

/// Control enters a block only at its start: no instruction behind the first starts a block.
pub proof fn blocks_are_entered_at_their_start(
    region: Region,
    taken: Set<u32>,
    at: u32,
    room: nat,
    k: int,
)
    requires
        0 < k < chain(region, taken, at, room).len(),
    ensures
        !region.is_leader(chain(region, taken, at, room)[k]),
        chain(region, taken, at, room)[0] == at,
        region.onward(chain(region, taken, at, room)[k - 1]) == Some(
            chain(region, taken, at, room)[k],
        ),
        !region.branches(chain(region, taken, at, room)[k - 1]),
    decreases room,
{
    let next = region.onward(at)->0;
    let rest = chain(region, taken.insert(at), next, (room - 1) as nat);
    let whole = chain(region, taken, at, room);
    assert(whole =~= seq![at] + rest);
    assert(rest[0] == next);
    if k > 1 {
        blocks_are_entered_at_their_start(region, taken.insert(at), next, (room - 1) as nat, k - 1);
        assert(whole[k] == rest[k - 1] && whole[k - 1] == rest[k - 2]);
    }
}

/// An argument's type is that of the first argument in its register, whatever the case of the
/// register's name, and a plain number where there is none.
pub proof fn types_are_those_of_the_register(
    arguments: Seq<ArgumentView>,
    from: int,
    register: Seq<char>,
)
    requires
        0 <= from <= arguments.len(),
    ensures
        ({
            let found = type_among(arguments, from, register);
            ||| found == TypeView::Raw && forall|i: int|
                from <= i < arguments.len() ==> !same_but_for_case(
                    (#[trigger] arguments[i]).register,
                    register,
                )
            ||| exists|i: int|
                from <= i < arguments.len() && (#[trigger] arguments[i]).kind == found
                    && same_but_for_case(arguments[i].register, register)
        }),
    decreases arguments.len() - from,
{
    if from < arguments.len() {
        if same_but_for_case(arguments[from].register, register) {
            assert(arguments[from].kind == type_among(arguments, from, register));
        } else {
            types_are_those_of_the_register(arguments, from + 1, register);
        }
    }
}

/// A value of a closed set is shown under its name, and any other as a number.
pub proof fn values_are_shown_under_their_names(
    constants: Seq<NamedConstant>,
    from: int,
    value: u32,
)
    requires
        0 <= from <= constants.len(),
    ensures
        match name_among(constants, from, value) {
            Some(name) => exists|i: int|
                from <= i < constants.len() && (#[trigger] constants[i]).value == value
                    && constants[i].name@ == name,
            None => forall|i: int|
                from <= i < constants.len() ==> (#[trigger] constants[i]).value != value,
        },
        from == 0 && name_among(constants, 0, value) is Some ==> spec_render(
            TypeView::Enumeration(constants),
            value,
        ) == name_among(constants, 0, value)->0,
        from == 0 && name_among(constants, 0, value) is None ==> spec_render(
            TypeView::Enumeration(constants),
            value,
        ) == spec_render(TypeView::Raw, value),
    decreases constants.len() - from,
{
    if from < constants.len() {
        if constants[from].value == value {
            assert(constants[from].value == value);
        } else {
            values_are_shown_under_their_names(constants, from + 1, value);
        }
    }
}

proof fn lemma_trimmed_start(text: Seq<char>)
    ensures
        trim_start(text).len() <= text.len(),
        trim_start(text) == text.skip(text.len() - trim_start(text).len()),
        forall|i: int|
            0 <= i < text.len() - trim_start(text).len() ==> spec_is_whitespace(#[trigger] text[i]),
        trim_start(text).len() > 0 ==> !spec_is_whitespace(trim_start(text)[0]),
    decreases text.len(),
{
    if text.len() > 0 && spec_is_whitespace(text[0]) {
        let rest = text.skip(1);
        lemma_trimmed_start(rest);
        let n = text.len() - trim_start(text).len();
        assert(trim_start(text) =~= text.skip(n));
        assert forall|i: int| 0 <= i < n implies spec_is_whitespace(#[trigger] text[i]) by {
            if i > 0 {
                assert(text[i] == rest[i - 1]);
            }
        }
    } else {
        assert(text.skip(0) =~= text);
    }
}

proof fn lemma_trimmed_end(text: Seq<char>)
    ensures
        trim_end(text).len() <= text.len(),
        trim_end(text) == text.take(trim_end(text).len() as int),
        forall|i: int|
            trim_end(text).len() <= i < text.len() ==> spec_is_whitespace(#[trigger] text[i]),
        trim_end(text).len() > 0 ==> !spec_is_whitespace(trim_end(text).last()),
    decreases text.len(),
{
    if text.len() > 0 && spec_is_whitespace(text.last()) {
        let rest = text.drop_last();
        lemma_trimmed_end(rest);
        assert(trim_end(text) =~= text.take(trim_end(text).len() as int));
        assert forall|i: int| trim_end(text).len() <= i < text.len() implies spec_is_whitespace(
            #[trigger] text[i],
        ) by {
            if i < rest.len() {
                assert(text[i] == rest[i]);
            }
        }
    } else {
        assert(text.take(text.len() as int) =~= text);
    }
}

/// Trimming takes away the white space around a text and nothing else.
pub proof fn trimming_takes_only_white_space(text: Seq<char>)
    ensures
        exists|from: int, to: int|
            #![trigger text.subrange(from, to)]
            {
                &&& 0 <= from <= to <= text.len()
                &&& trim(text) == text.subrange(from, to)
                &&& forall|i: int| 0 <= i < from ==> spec_is_whitespace(#[trigger] text[i])
                &&& forall|i: int| to <= i < text.len() ==> spec_is_whitespace(#[trigger] text[i])
            },
        trim(text).len() > 0 ==> !spec_is_whitespace(trim(text)[0]) && !spec_is_whitespace(
            trim(text).last(),
        ),
{
    let behind = trim_start(text);
    lemma_trimmed_start(text);
    lemma_trimmed_end(behind);
    let from = text.len() - behind.len();
    let to = from + trim(text).len();
    assert(trim(text) =~= text.subrange(from, to));
    assert forall|i: int| to <= i < text.len() implies spec_is_whitespace(#[trigger] text[i]) by {
        assert(text[i] == behind[i - from]);
    }
    if trim(text).len() > 0 {
        assert(trim(text)[0] == behind[0]);
    }
}

} // verus!
