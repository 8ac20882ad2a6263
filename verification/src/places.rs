//! That reported accesses are at the addresses that the instructions reach.

use crate::access::{spec_base_loaded, spec_chip_access, spec_register_named, AccessForm};
use crate::analysis::{spec_image_offset, spec_operand_address, AnalysisView, OperandAddress};
use crate::decoded::{DecodedView, OperandRole};
use crate::globals::{
    spec_absolute_address, spec_constant_write, spec_global_access, spec_value_for, OperandAccess,
};
use crate::m68k::{AddressingMode, Operands, Size};
use crate::machine::{emitted, executed, formed, low, wrapped, Machine};
use crate::relocation::Rebase;
use vstd::prelude::*;

verus! {

/// An instruction that is said to load the base of the custom registers loads it.
pub proof fn loaded_custom_bases_are_loaded(decoded: DecodedView, custom_base: u32, m: Machine)
    requires
        m.wf(),
        decoded.instruction.wf(),
        spec_base_loaded(decoded.instruction.isa, decoded.instruction.operands, custom_base) is Some,
    ensures
        executed(m, decoded.instruction).address(
            spec_base_loaded(
                decoded.instruction.isa,
                decoded.instruction.operands,
                custom_base,
            )->0,
        ) == custom_base,
{
    let value = custom_base as int;
    assert(low(value, Size::Long) == value);
}

/// The size of the operation where an access stands at a register of the chipset.
pub open spec fn is_loaded(m: Machine, loaded: Seq<bool>, custom_base: u32) -> bool {
    forall|i: int|
        #![trigger loaded[i]]
        0 <= i < 8 && loaded[i] ==> m.registers[8 + i] == custom_base
}

/// A chip register that is named is the one that the operand reaches: the base and the offset
/// make up its address. The offset lies in the register file.
pub proof fn named_registers_are_reached(
    mode: AddressingMode,
    custom_base: u32,
    loaded: Seq<bool>,
    size: Size,
    m: Machine,
)
    requires
        m.wf(),
        mode.in_range(),
        loaded.len() == 8,
        is_loaded(m, loaded, custom_base),
        spec_register_named(mode, custom_base, loaded) is Some,
    ensures
        ({
            let (offset, form) = spec_register_named(mode, custom_base, loaded)->0;
            &&& formed(m, mode, size) == wrapped(custom_base + offset)
            &&& offset < 0x200
            &&& (form == AccessForm::Absolute) == (mode is AbsLong)
        }),
{
    if let AddressingMode::Ariwd(register, _) = mode {
        assert(loaded[register as int]);
    }
}

/// Every operand in the register file is named: an absolute one above the base, and one at a
/// distance from a register that holds the base.
pub proof fn reached_registers_are_named(
    mode: AddressingMode,
    custom_base: u32,
    loaded: Seq<bool>,
    offset: u16,
)
    requires
        loaded.len() == 8,
        custom_base + 0x200 <= u32::MAX,
        offset < 0x200,
        0 < offset && mode == AddressingMode::AbsLong((custom_base + offset) as u32) || (
        mode matches AddressingMode::Ariwd(register, distance) && register < 8 && loaded[register as int]
            && distance == offset),
    ensures
        spec_register_named(mode, custom_base, loaded) matches Some((named, _)) && named == offset,
{
}

/// A chip access is at the register that its operand names, and goes its way.
pub proof fn chip_accesses_are_operand_accesses(
    site: u32,
    access: OperandAccess,
    custom_base: u32,
    loaded: Seq<bool>,
)
    ensures
        match spec_chip_access(site, Some(access), custom_base, loaded) {
            Some(found) => spec_register_named(access.mode, custom_base, loaded) == Some(
                (found.offset, found.form),
            ) && found.kind == access.kind && found.site == site,
            None => spec_register_named(access.mode, custom_base, loaded) is None,
        },
{
}

/// A global access is at the place that lies that far from what the base register holds.
pub proof fn global_offsets_count_from_the_base(
    site: u32,
    access: OperandAccess,
    base_register: u8,
    constant: Option<(AddressingMode, u32)>,
    source: Option<AddressingMode>,
    size: Size,
    m: Machine,
)
    requires
        m.wf(),
        base_register < 8,
    ensures
        match spec_global_access(site, Some(access), base_register, constant, source) {
            Some(found) => {
                &&& formed(m, access.mode, size) == wrapped(
                    m.address(base_register) + found.offset,
                )
                &&& found.size == access.size
                &&& found.kind == access.kind
                &&& found.site == site
            },
            None => forall|distance: i16|
                access.mode != #[trigger] displaced(base_register, distance),
        },
{
    if let AddressingMode::Ariwd(register, distance) = access.mode {
        assert(register == base_register ==> access.mode == displaced(base_register, distance));
    }
}

/// The operand at a distance from a register.
pub open spec fn displaced(register: u8, distance: i16) -> AddressingMode {
    AddressingMode::Ariwd(register, distance)
}

/// A constant that is said to be stored is what the instruction stores: the low bytes of it,
/// whatever the machine holds.
pub proof fn stored_constants_are_stored(
    view: AnalysisView,
    decoded: DecodedView,
    image_origin: Option<u32>,
    m: Machine,
)
    requires
        m.wf(),
        view.relocations is None,
        decoded.instruction.wf(),
        spec_constant_write(view, decoded, image_origin) is Some,
    ensures
        ({
            let (mode, value) = spec_constant_write(view, decoded, image_origin)->0;
            let size = match decoded.instruction.operands {
                Operands::SizeEffectiveAddressEffectiveAddress(size, _, _) => size,
                Operands::SizeEffectiveAddress(size, _) => size,
                _ => Size::Long,
            };
            &&& !(mode is Drd) && !(mode is Ard) ==> emitted(m, decoded.instruction).last() == low(
                value as int,
                size,
            )
            &&& match decoded.instruction.operands {
                Operands::SizeEffectiveAddressEffectiveAddress(_, destination, _) => mode
                    == destination,
                Operands::SizeEffectiveAddress(_, destination) => mode == destination,
                _ => false,
            }
        }),
{
    let (mode, value) = spec_constant_write(view, decoded, image_origin)->0;
    let value = value as int;
    assert((value % 0x100) % 0x100 == value % 0x100);
    assert((value % 0x1_0000) % 0x1_0000 == value % 0x1_0000);
    assert((value % 0x1_0000_0000) % 0x1_0000_0000 == value % 0x1_0000_0000);
}

/// A value is reported of the operand that it is stored to, and of no other.
pub proof fn values_belong_to_their_operand(
    constant: Option<(AddressingMode, u32)>,
    mode: AddressingMode,
)
    ensures
        spec_value_for(constant, mode) matches Some(value) ==> constant == Some((mode, value)),
        forall|value: u32|
            constant == Some((mode, value)) ==> #[trigger] some_value(value) == spec_value_for(
                constant,
                mode,
            ),
{
}

/// A value that is there.
pub open spec fn some_value(value: u32) -> Option<u32> {
    Some(value)
}

/// An absolute access is to a byte of the loaded image: at the address that the operand
/// encodes, or at the place in this image that a relocation makes of it.
pub proof fn absolute_accesses_lie_in_the_image(
    view: AnalysisView,
    decoded: DecodedView,
    encoded: u32,
    role: OperandRole,
    load: u32,
    size: u32,
)
    ensures
        match spec_absolute_address(view, decoded, encoded, role, load, size) {
            Some(address) => {
                &&& load <= address < load + size
                &&& view.relocations is None ==> address == encoded
                &&& spec_operand_address(view.relocations, decoded, role, encoded) matches
                    OperandAddress::ThisHunk(offset) ==> address == load + offset
            },
            None => view.relocations is None ==> !(load <= encoded < load + size),
        },
{
}

/// The offset of an address in the image and the image's origin make up the address.
pub proof fn offsets_count_from_the_origin(rebase: Option<Rebase>, address: u32)
    ensures
        match spec_image_offset(rebase, address) {
            Some(offset) => address == offset + match rebase {
                Some(rebase) => rebase.origin as int,
                None => 0,
            },
            None => rebase matches Some(rebase) && address < rebase.origin,
        },
{
}

} // verus!
