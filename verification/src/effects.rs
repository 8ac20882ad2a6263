//! Which registers an instruction reads and writes, byte lane by byte lane.
//!
//! A lane mask has four bits per register, from D0 upwards; the lowest bit of the
//! four stands for the least-significant byte.

use crate::derived::{listed, spec_listed};
use crate::m68k::{
    AddressingMode, BriefExtensionWord, Direction, Instruction, Isa, Operands, Size,
};
use vstd::prelude::*;

verus! {

/// All registers but A7.
pub const GENERAL_REGISTERS: u16 = 0x7fff;

/// The lanes of all registers but A7.
pub const GENERAL_REGISTER_LANES: u64 = 0x0fff_ffff_ffff_ffff;

/// What an instruction does to registers: the lanes it reads, those it writes,
/// those of them that it writes with a value of its own, and the address registers
/// that form a memory effective address.
#[derive(Clone, Copy, Debug, PartialEq, Eq, Structural)]
pub struct Effects {
    pub reads: u64,
    pub writes: u64,
    pub meaningful_writes: u64,
    pub pointers: u16,
    /// False where the operand form is not one that the mnemonic has.
    pub complete: bool,
}

/// The lanes of a value of one size in the lowest register.
pub open spec fn spec_lane_mask(size: Option<Size>) -> u64 {
    match size {
        Some(Size::Byte) => 0x1,
        Some(Size::Word) => 0x3,
        Some(Size::Long) => 0xf,
        None => 0xf,
    }
}

/// The lanes of a value of one size in the lowest register.
pub fn lane_mask(size: Option<Size>) -> (r: u64)
    ensures
        r == spec_lane_mask(size),
{
    match size {
        Some(Size::Byte) => 0x1,
        Some(Size::Word) => 0x3,
        Some(Size::Long) => 0xf,
        None => 0xf,
    }
}

/// The lanes of a value in a register. Address registers always carry all four;
/// a number past the last register names none.
pub open spec fn spec_register_lanes(bit: u8, size: Option<Size>) -> u64 {
    if bit >= 16 {
        0
    } else if bit >= 8 {
        0xfu64 << (((bit as u32) * 4) as u32)
    } else {
        spec_lane_mask(size) << (((bit as u32) * 4) as u32)
    }
}

/// The lanes of a value in a register. Address registers always carry all four;
/// a number past the last register names none.
pub fn register_lanes(bit: u8, size: Option<Size>) -> (r: u64)
    ensures
        r == spec_register_lanes(bit, size),
{
    if bit >= 16 {
        0
    } else if bit >= 8 {
        0xfu64 << (((bit as u32) * 4) as u32)
    } else {
        lane_mask(size) << (((bit as u32) * 4) as u32)
    }
}

/// The lanes of one register.
pub open spec fn spec_lanes_of(lanes: u64, bit: u8) -> u8 {
    if bit >= 16 {
        0
    } else {
        ((lanes >> (((bit as u32) * 4) as u32)) & 0xf) as u8
    }
}

/// The lanes of one register.
pub fn lanes_of(lanes: u64, bit: u8) -> (r: u8)
    ensures
        r == spec_lanes_of(lanes, bit),
{
    if bit >= 16 {
        0
    } else {
        ((lanes >> (((bit as u32) * 4) as u32)) & 0xf) as u8
    }
}

/// The lanes of the lowest `n` registers of a mask.
pub open spec fn lanes_of_first(registers: u16, n: u8) -> u64
    decreases n,
{
    if n == 0 {
        0
    } else {
        let bit = (n - 1) as u8;
        if spec_listed(registers, bit as u16) {
            lanes_of_first(registers, bit) | spec_register_lanes(bit, None)
        } else {
            lanes_of_first(registers, bit)
        }
    }
}

/// All lanes of the registers of a mask.
pub open spec fn spec_lanes_for_registers(registers: u16) -> u64 {
    lanes_of_first(registers, 16)
}

/// All lanes of the registers of a mask.
pub fn lanes_for_registers(registers: u16) -> (r: u64)
    ensures
        r == spec_lanes_for_registers(registers),
{
    let mut lanes: u64 = 0;
    let mut bit: u8 = 0;
    while bit < 16
        invariant
            bit <= 16,
            lanes == lanes_of_first(registers, bit),
        decreases 16 - bit,
    {
        if listed(registers, bit as u16) {
            lanes = lanes | register_lanes(bit, None);
        }
        bit += 1;
        assert((bit - 1) as u8 == bit - 1);
    }
    lanes
}

/// The registers among the lowest `n` that a lane mask touches.
pub open spec fn first_registers_of(lanes: u64, n: u8) -> u16
    decreases n,
{
    if n == 0 {
        0
    } else {
        let bit = (n - 1) as u8;
        if spec_lanes_of(lanes, bit) != 0 {
            first_registers_of(lanes, bit) | (1u16 << (bit as u16))
        } else {
            first_registers_of(lanes, bit)
        }
    }
}

/// The registers that a lane mask touches.
pub open spec fn spec_registers_for_lanes(lanes: u64) -> u16 {
    first_registers_of(lanes, 16)
}

/// The registers that a lane mask touches.
pub fn registers_for_lanes(lanes: u64) -> (r: u16)
    ensures
        r == spec_registers_for_lanes(lanes),
{
    let mut registers: u16 = 0;
    let mut bit: u8 = 0;
    while bit < 16
        invariant
            bit <= 16,
            registers == first_registers_of(lanes, bit),
        decreases 16 - bit,
    {
        if lanes_of(lanes, bit) != 0 {
            registers = registers | (1u16 << (bit as u16));
        }
        bit += 1;
        assert((bit - 1) as u8 == bit - 1);
    }
    registers
}

/// The bits of a register list in reverse: a predecrementing `MOVEM` lists A7
/// first.
pub open spec fn spec_reversed_list(list: u16) -> u16 {
    let pairs: u16 = ((list & 0x5555) << 1) | ((list >> 1) & 0x5555);
    let quads: u16 = ((pairs & 0x3333) << 2) | ((pairs >> 2) & 0x3333);
    let bytes: u16 = ((quads & 0x0f0f) << 4) | ((quads >> 4) & 0x0f0f);
    (bytes << 8) | (bytes >> 8)
}

/// The bits of a register list in reverse: a predecrementing `MOVEM` lists A7
/// first.
pub fn reversed_list(list: u16) -> (r: u16)
    ensures
        r == spec_reversed_list(list),
{
    let pairs: u16 = ((list & 0x5555) << 1) | ((list >> 1) & 0x5555);
    let quads: u16 = ((pairs & 0x3333) << 2) | ((pairs >> 2) & 0x3333);
    let bytes: u16 = ((quads & 0x0f0f) << 4) | ((quads >> 4) & 0x0f0f);
    (bytes << 8) | (bytes >> 8)
}

/// A reversed list holds a bit exactly if the list holds its mirror image.
pub proof fn reversed_list_mirrors(list: u16, bit: u16)
    requires
        bit < 16,
    ensures
        spec_listed(spec_reversed_list(list), bit) == spec_listed(list, (15 - bit) as u16),
{
    let pairs: u16 = ((list & 0x5555) << 1) | ((list >> 1) & 0x5555);
    let quads: u16 = ((pairs & 0x3333) << 2) | ((pairs >> 2) & 0x3333);
    let bytes: u16 = ((quads & 0x0f0f) << 4) | ((quads >> 4) & 0x0f0f);
    let reversed = (bytes << 8) | (bytes >> 8);
    let mirror = (15 - bit) as u16;
    assert((reversed & (1u16 << bit) != 0) == (list & (1u16 << mirror) != 0)) by (bit_vector)
        requires
            bit < 16,
            mirror == 15 - bit,
            pairs == ((list & 0x5555) << 1) | ((list >> 1) & 0x5555),
            quads == ((pairs & 0x3333) << 2) | ((pairs >> 2) & 0x3333),
            bytes == ((quads & 0x0f0f) << 4) | ((quads >> 4) & 0x0f0f),
            reversed == (bytes << 8) | (bytes >> 8),
    ;
}

/// No effect.
pub open spec fn spec_no_effect() -> Effects {
    Effects { reads: 0, writes: 0, meaningful_writes: 0, pointers: 0, complete: true }
}

/// No effect.
pub fn no_effect() -> (r: Effects)
    ensures
        r == spec_no_effect(),
{
    Effects { reads: 0, writes: 0, meaningful_writes: 0, pointers: 0, complete: true }
}

/// An operand form that the mnemonic does not have.
pub open spec fn spec_unsupported(e: Effects) -> Effects {
    Effects {
        reads: e.reads,
        writes: e.writes,
        meaningful_writes: e.meaningful_writes,
        pointers: e.pointers,
        complete: false,
    }
}

/// An operand form that the mnemonic does not have.
pub fn unsupported(e: Effects) -> (r: Effects)
    ensures
        r == spec_unsupported(e),
{
    Effects {
        reads: e.reads,
        writes: e.writes,
        meaningful_writes: e.meaningful_writes,
        pointers: e.pointers,
        complete: false,
    }
}

/// One more register read.
pub open spec fn spec_reads(e: Effects, bit: u8, size: Option<Size>, pointer: bool) -> Effects {
    Effects {
        reads: e.reads | spec_register_lanes(bit, size),
        writes: e.writes,
        meaningful_writes: e.meaningful_writes,
        pointers: if pointer && bit < 16 {
            e.pointers | (1u16 << (bit as u16))
        } else {
            e.pointers
        },
        complete: e.complete,
    }
}

/// One more register read.
pub fn reads(e: Effects, bit: u8, size: Option<Size>, pointer: bool) -> (r: Effects)
    ensures
        r == spec_reads(e, bit, size, pointer),
{
    Effects {
        reads: e.reads | register_lanes(bit, size),
        writes: e.writes,
        meaningful_writes: e.meaningful_writes,
        pointers: if pointer && bit < 16 {
            e.pointers | (1u16 << (bit as u16))
        } else {
            e.pointers
        },
        complete: e.complete,
    }
}

/// Lanes written with a value.
pub open spec fn spec_writes_mask(e: Effects, lanes: u64) -> Effects {
    Effects {
        reads: e.reads,
        writes: e.writes | lanes,
        meaningful_writes: e.meaningful_writes | lanes,
        pointers: e.pointers,
        complete: e.complete,
    }
}

/// Lanes written with a value.
pub fn writes_mask(e: Effects, lanes: u64) -> (r: Effects)
    ensures
        r == spec_writes_mask(e, lanes),
{
    Effects {
        reads: e.reads,
        writes: e.writes | lanes,
        meaningful_writes: e.meaningful_writes | lanes,
        pointers: e.pointers,
        complete: e.complete,
    }
}

/// One more register written.
pub open spec fn spec_writes_lanes(e: Effects, bit: u8, size: Option<Size>) -> Effects {
    spec_writes_mask(e, spec_register_lanes(bit, size))
}

/// One more register written.
pub fn writes_lanes(e: Effects, bit: u8, size: Option<Size>) -> (r: Effects)
    ensures
        r == spec_writes_lanes(e, bit, size),
{
    writes_mask(e, register_lanes(bit, size))
}

/// An address register that forms an address, read and written as a whole.
pub open spec fn spec_steps(e: Effects, bit: u8) -> Effects {
    spec_writes_lanes(spec_reads(e, bit, Some(Size::Long), true), bit, None)
}

/// An address register that forms an address, read and written as a whole.
pub fn steps(e: Effects, bit: u8) -> (r: Effects)
    ensures
        r == spec_steps(e, bit),
{
    writes_lanes(reads(e, bit, Some(Size::Long), true), bit, None)
}

/// Registers overwritten with nothing known.
pub open spec fn spec_clobbers(e: Effects, mask: u16) -> Effects {
    Effects {
        reads: e.reads,
        writes: e.writes | spec_lanes_for_registers(mask),
        meaningful_writes: e.meaningful_writes,
        pointers: e.pointers,
        complete: e.complete,
    }
}

/// Registers overwritten with nothing known.
pub fn clobbers(e: Effects, mask: u16) -> (r: Effects)
    ensures
        r == spec_clobbers(e, mask),
{
    Effects {
        reads: e.reads,
        writes: e.writes | lanes_for_registers(mask),
        meaningful_writes: e.meaningful_writes,
        pointers: e.pointers,
        complete: e.complete,
    }
}

/// The number of an address register among all sixteen.
pub open spec fn spec_address_bit(register: u8) -> u8 {
    (8 + register) as u8
}

/// The number of an address register among all sixteen.
pub fn address_bit(register: u8) -> (r: u8)
    requires
        register < 8,
    ensures
        r == spec_address_bit(register),
{
    (8 + register) as u8
}

/// The index register of an extension word is read.
pub open spec fn spec_read_index(e: Effects, extension: BriefExtensionWord) -> Effects {
    if extension.spec_index_is_address() {
        spec_reads(e, spec_address_bit(extension.spec_index()), None, true)
    } else {
        spec_reads(e, extension.spec_index(), None, false)
    }
}

/// The index register of an extension word is read.
pub fn read_index(e: Effects, extension: BriefExtensionWord) -> (r: Effects)
    ensures
        r == spec_read_index(e, extension),
{
    if extension.index_is_address() {
        reads(e, address_bit(extension.index()), None, true)
    } else {
        reads(e, extension.index(), None, false)
    }
}

/// The registers that form an effective address.
pub open spec fn spec_address_ea(e: Effects, mode: AddressingMode) -> Effects {
    match mode {
        AddressingMode::Ari(register) => spec_reads(e, spec_address_bit(register), Some(Size::Long), true),
        AddressingMode::Ariwd(register, _) => spec_reads(
            e,
            spec_address_bit(register),
            Some(Size::Long),
            true,
        ),
        AddressingMode::Ariwpo(register) => spec_steps(e, spec_address_bit(register)),
        AddressingMode::Ariwpr(register) => spec_steps(e, spec_address_bit(register)),
        AddressingMode::Ariwi8(register, extension) => spec_read_index(
            spec_reads(e, spec_address_bit(register), Some(Size::Long), true),
            extension,
        ),
        AddressingMode::Pciwi8(_, extension) => spec_read_index(e, extension),
        AddressingMode::Drd(register) => spec_reads(e, register, None, false),
        AddressingMode::Ard(register) => spec_reads(e, spec_address_bit(register), None, false),
        AddressingMode::AbsShort(_)
        | AddressingMode::AbsLong(_)
        | AddressingMode::Pciwd(_, _)
        | AddressingMode::Immediate(_) => e,
    }
}

/// The registers that form an effective address.
pub fn address_ea(e: Effects, mode: AddressingMode) -> (r: Effects)
    requires
        mode.in_range(),
    ensures
        r == spec_address_ea(e, mode),
{
    match mode {
        AddressingMode::Ari(register) => reads(e, address_bit(register), Some(Size::Long), true),
        AddressingMode::Ariwd(register, _) => reads(
            e,
            address_bit(register),
            Some(Size::Long),
            true,
        ),
        AddressingMode::Ariwpo(register) => steps(e, address_bit(register)),
        AddressingMode::Ariwpr(register) => steps(e, address_bit(register)),
        AddressingMode::Ariwi8(register, extension) => read_index(
            reads(e, address_bit(register), Some(Size::Long), true),
            extension,
        ),
        AddressingMode::Pciwi8(_, extension) => read_index(e, extension),
        AddressingMode::Drd(register) => reads(e, register, None, false),
        AddressingMode::Ard(register) => reads(e, address_bit(register), None, false),
        AddressingMode::AbsShort(_)
        | AddressingMode::AbsLong(_)
        | AddressingMode::Pciwd(_, _)
        | AddressingMode::Immediate(_) => e,
    }
}

/// An operand is read.
pub open spec fn spec_read_ea(e: Effects, mode: AddressingMode, size: Option<Size>) -> Effects {
    match mode {
        AddressingMode::Drd(register) => spec_reads(e, register, size, false),
        AddressingMode::Ard(register) => spec_reads(e, spec_address_bit(register), size, false),
        _ => spec_address_ea(e, mode),
    }
}

/// An operand is read.
pub fn read_ea(e: Effects, mode: AddressingMode, size: Option<Size>) -> (r: Effects)
    requires
        mode.in_range(),
    ensures
        r == spec_read_ea(e, mode, size),
{
    match mode {
        AddressingMode::Drd(register) => reads(e, register, size, false),
        AddressingMode::Ard(register) => reads(e, address_bit(register), size, false),
        _ => address_ea(e, mode),
    }
}

/// An operand is written.
pub open spec fn spec_write_ea(e: Effects, mode: AddressingMode, size: Option<Size>) -> Effects {
    match mode {
        AddressingMode::Drd(register) => spec_writes_lanes(e, register, size),
        AddressingMode::Ard(register) => spec_writes_lanes(e, spec_address_bit(register), None),
        _ => spec_address_ea(e, mode),
    }
}

/// An operand is written.
pub fn write_ea(e: Effects, mode: AddressingMode, size: Option<Size>) -> (r: Effects)
    requires
        mode.in_range(),
    ensures
        r == spec_write_ea(e, mode, size),
{
    match mode {
        AddressingMode::Drd(register) => writes_lanes(e, register, size),
        AddressingMode::Ard(register) => writes_lanes(e, address_bit(register), None),
        _ => address_ea(e, mode),
    }
}

/// An operand is read and written.
pub open spec fn spec_modify_ea(e: Effects, mode: AddressingMode, size: Option<Size>) -> Effects {
    match mode {
        AddressingMode::Drd(register) => spec_writes_lanes(
            spec_reads(e, register, size, false),
            register,
            size,
        ),
        AddressingMode::Ard(register) => spec_writes_lanes(
            spec_reads(e, spec_address_bit(register), size, false),
            spec_address_bit(register),
            None,
        ),
        _ => spec_address_ea(e, mode),
    }
}

/// An operand is read and written.
pub fn modify_ea(e: Effects, mode: AddressingMode, size: Option<Size>) -> (r: Effects)
    requires
        mode.in_range(),
    ensures
        r == spec_modify_ea(e, mode, size),
{
    match mode {
        AddressingMode::Drd(register) => writes_lanes(
            reads(e, register, size, false),
            register,
            size,
        ),
        AddressingMode::Ard(register) => writes_lanes(
            reads(e, address_bit(register), size, false),
            address_bit(register),
            None,
        ),
        _ => address_ea(e, mode),
    }
}

/// Two registers are exchanged.
pub open spec fn spec_exchange(left: u8, right: u8) -> Effects {
    spec_writes_lanes(
        spec_writes_lanes(
            spec_reads(
                spec_reads(spec_no_effect(), left, Some(Size::Long), false),
                right,
                Some(Size::Long),
                false,
            ),
            left,
            None,
        ),
        right,
        None,
    )
}

/// Two registers are exchanged.
pub fn exchange(left: u8, right: u8) -> (r: Effects)
    ensures
        r == spec_exchange(left, right),
{
    writes_lanes(
        writes_lanes(
            reads(
                reads(no_effect(), left, Some(Size::Long), false),
                right,
                Some(Size::Long),
                false,
            ),
            left,
            None,
        ),
        right,
        None,
    )
}

/// The registers of a list among the lowest `n` are read.
pub open spec fn reads_first(e: Effects, list: u16, size: Size, n: u8) -> Effects
    decreases n,
{
    if n == 0 {
        e
    } else {
        let bit = (n - 1) as u8;
        if spec_listed(list, bit as u16) {
            spec_reads(reads_first(e, list, size, bit), bit, Some(size), false)
        } else {
            reads_first(e, list, size, bit)
        }
    }
}

/// The registers of a list are read.
pub open spec fn spec_reads_list(e: Effects, list: u16, size: Size) -> Effects {
    reads_first(e, list, size, 16)
}

/// The registers of a list are read.
pub fn reads_list(e: Effects, list: u16, size: Size) -> (r: Effects)
    ensures
        r == spec_reads_list(e, list, size),
{
    let mut effect = e;
    let mut bit: u8 = 0;
    while bit < 16
        invariant
            bit <= 16,
            effect == reads_first(e, list, size, bit),
        decreases 16 - bit,
    {
        if listed(list, bit as u16) {
            effect = reads(effect, bit, Some(size), false);
        }
        bit += 1;
        assert((bit - 1) as u8 == bit - 1);
    }
    effect
}

/// The effects of a bit instruction. A static bit number picks one lane of a data
/// register; a dynamic one is read from a register.
pub open spec fn spec_bit_effects(isa: Isa, dynamic: bool, destination: AddressingMode, count: u8) -> Effects {
    let counted = if dynamic {
        spec_reads(spec_no_effect(), count, Some(Size::Long), false)
    } else {
        spec_no_effect()
    };
    match destination {
        AddressingMode::Drd(register) => if dynamic {
            if isa == Isa::Btst {
                spec_read_ea(counted, destination, Some(Size::Long))
            } else {
                spec_modify_ea(counted, destination, Some(Size::Long))
            }
        } else {
            let lane: u64 = 1u64 << ((register as u32 * 4 + ((count % 32) / 8) as u32) as u32);
            Effects {
                reads: lane,
                writes: if isa == Isa::Btst {
                    0
                } else {
                    lane
                },
                meaningful_writes: if isa == Isa::Btst {
                    0
                } else {
                    lane
                },
                pointers: 0,
                complete: true,
            }
        },
        _ => if isa == Isa::Btst {
            spec_read_ea(counted, destination, Some(Size::Byte))
        } else {
            spec_modify_ea(counted, destination, Some(Size::Byte))
        },
    }
}

/// The effects of a bit instruction. A static bit number picks one lane of a data
/// register; a dynamic one is read from a register.
pub fn bit_effects(isa: Isa, dynamic: bool, destination: AddressingMode, count: u8) -> (r: Effects)
    requires
        destination.in_range(),
    ensures
        r == spec_bit_effects(isa, dynamic, destination, count),
{
    let counted = if dynamic {
        reads(no_effect(), count, Some(Size::Long), false)
    } else {
        no_effect()
    };
    match destination {
        AddressingMode::Drd(register) => if dynamic {
            if isa == Isa::Btst {
                read_ea(counted, destination, Some(Size::Long))
            } else {
                modify_ea(counted, destination, Some(Size::Long))
            }
        } else {
            let lane: u64 = 1u64 << ((register as u32 * 4 + ((count % 32) / 8) as u32) as u32);
            Effects {
                reads: lane,
                writes: if isa == Isa::Btst {
                    0
                } else {
                    lane
                },
                meaningful_writes: if isa == Isa::Btst {
                    0
                } else {
                    lane
                },
                pointers: 0,
                complete: true,
            }
        },
        _ => if isa == Isa::Btst {
            read_ea(counted, destination, Some(Size::Byte))
        } else {
            modify_ea(counted, destination, Some(Size::Byte))
        },
    }
}

/// The effects of an instruction with one effective address.
pub open spec fn spec_lone_effects(isa: Isa, mode: AddressingMode) -> Effects {
    match isa {
        Isa::Jmp | Isa::Jsr | Isa::Pea => spec_address_ea(spec_no_effect(), mode),
        Isa::Moveccr | Isa::Movesr => spec_read_ea(spec_no_effect(), mode, Some(Size::Word)),
        Isa::Movefsr => spec_write_ea(spec_no_effect(), mode, Some(Size::Word)),
        Isa::Nbcd | Isa::Tas => spec_modify_ea(spec_no_effect(), mode, Some(Size::Byte)),
        _ => spec_modify_ea(spec_no_effect(), mode, None),
    }
}

/// The effects of an instruction with one effective address.
pub fn lone_effects(isa: Isa, mode: AddressingMode) -> (r: Effects)
    requires
        mode.in_range(),
    ensures
        r == spec_lone_effects(isa, mode),
{
    match isa {
        Isa::Jmp | Isa::Jsr | Isa::Pea => address_ea(no_effect(), mode),
        Isa::Moveccr | Isa::Movesr => read_ea(no_effect(), mode, Some(Size::Word)),
        Isa::Movefsr => write_ea(no_effect(), mode, Some(Size::Word)),
        Isa::Nbcd | Isa::Tas => modify_ea(no_effect(), mode, Some(Size::Byte)),
        _ => modify_ea(no_effect(), mode, None),
    }
}

/// The effects of LEA, CHK, the multiplications and the divisions.
pub open spec fn spec_register_source_effects(isa: Isa, register: u8, source: AddressingMode) -> Effects {
    match isa {
        Isa::Lea => spec_writes_lanes(spec_address_ea(spec_no_effect(), source), spec_address_bit(register), None),
        Isa::Chk => spec_reads(
            spec_read_ea(spec_no_effect(), source, Some(Size::Word)),
            register,
            Some(Size::Word),
            false,
        ),
        Isa::Muls | Isa::Mulu => spec_writes_lanes(
            spec_reads(
                spec_read_ea(spec_no_effect(), source, Some(Size::Word)),
                register,
                Some(Size::Word),
                false,
            ),
            register,
            None,
        ),
        Isa::Divs | Isa::Divu => spec_writes_lanes(
            spec_reads(
                spec_read_ea(spec_no_effect(), source, Some(Size::Word)),
                register,
                Some(Size::Long),
                false,
            ),
            register,
            None,
        ),
        _ => spec_unsupported(spec_no_effect()),
    }
}

/// The effects of LEA, CHK, the multiplications and the divisions.
pub fn register_source_effects(isa: Isa, register: u8, source: AddressingMode) -> (r: Effects)
    requires
        register < 8,
        source.in_range(),
    ensures
        r == spec_register_source_effects(isa, register, source),
{
    match isa {
        Isa::Lea => writes_lanes(address_ea(no_effect(), source), address_bit(register), None),
        Isa::Chk => reads(
            read_ea(no_effect(), source, Some(Size::Word)),
            register,
            Some(Size::Word),
            false,
        ),
        Isa::Muls | Isa::Mulu => writes_lanes(
            reads(
                read_ea(no_effect(), source, Some(Size::Word)),
                register,
                Some(Size::Word),
                false,
            ),
            register,
            None,
        ),
        Isa::Divs | Isa::Divu => writes_lanes(
            reads(
                read_ea(no_effect(), source, Some(Size::Word)),
                register,
                Some(Size::Long),
                false,
            ),
            register,
            None,
        ),
        _ => unsupported(no_effect()),
    }
}

/// The effects of `MOVEM`.
pub open spec fn spec_movem_effects(direction: Direction, size: Size, mode: AddressingMode, list: u16) -> Effects {
    if direction == Direction::RegisterToMemory {
        spec_write_ea(
            spec_reads_list(
                spec_no_effect(),
                match mode {
                    AddressingMode::Ariwpr(_) => spec_reversed_list(list),
                    _ => list,
                },
                size,
            ),
            mode,
            Some(size),
        )
    } else if direction == Direction::MemoryToRegister {
        spec_writes_mask(spec_read_ea(spec_no_effect(), mode, Some(size)), spec_lanes_for_registers(list))
    } else {
        spec_unsupported(spec_no_effect())
    }
}

/// The effects of `MOVEM`.
pub fn movem_effects(direction: Direction, size: Size, mode: AddressingMode, list: u16) -> (r: Effects)
    requires
        mode.in_range(),
    ensures
        r == spec_movem_effects(direction, size, mode, list),
{
    if direction == Direction::RegisterToMemory {
        write_ea(
            reads_list(
                no_effect(),
                match mode {
                    AddressingMode::Ariwpr(_) => reversed_list(list),
                    _ => list,
                },
                size,
            ),
            mode,
            Some(size),
        )
    } else if direction == Direction::MemoryToRegister {
        writes_mask(read_ea(no_effect(), mode, Some(size)), lanes_for_registers(list))
    } else {
        unsupported(no_effect())
    }
}

/// The effects of ADD, AND, CMP, EOR, OR and SUB.
pub open spec fn spec_arithmetic_effects(
    isa: Isa,
    register: u8,
    direction: Direction,
    size: Size,
    mode: AddressingMode,
) -> Effects {
    if direction == Direction::DstReg {
        let read = spec_reads(
            spec_read_ea(spec_no_effect(), mode, Some(size)),
            register,
            Some(size),
            false,
        );
        if isa == Isa::Cmp {
            read
        } else {
            spec_writes_lanes(read, register, Some(size))
        }
    } else if direction == Direction::DstEa {
        spec_modify_ea(spec_reads(spec_no_effect(), register, Some(size), false), mode, Some(size))
    } else {
        spec_unsupported(spec_no_effect())
    }
}

/// The effects of ADD, AND, CMP, EOR, OR and SUB.
pub fn arithmetic_effects(
    isa: Isa,
    register: u8,
    direction: Direction,
    size: Size,
    mode: AddressingMode,
) -> (r: Effects)
    requires
        register < 8,
        mode.in_range(),
    ensures
        r == spec_arithmetic_effects(isa, register, direction, size, mode),
{
    if direction == Direction::DstReg {
        let read = reads(
            read_ea(no_effect(), mode, Some(size)),
            register,
            Some(size),
            false,
        );
        if isa == Isa::Cmp {
            read
        } else {
            writes_lanes(read, register, Some(size))
        }
    } else if direction == Direction::DstEa {
        modify_ea(reads(no_effect(), register, Some(size), false), mode, Some(size))
    } else {
        unsupported(no_effect())
    }
}

/// What the operands of an instruction say it does to registers.
pub open spec fn spec_operand_effects(instruction: Instruction) -> Effects {
    let isa = instruction.isa;
    match instruction.operands {
        Operands::NoOperands
        | Operands::Immediate(_)
        | Operands::Vector(_)
        | Operands::Displacement(_)
        | Operands::ConditionDisplacement(_, _) => spec_no_effect(),
        Operands::SizeEffectiveAddressImmediate(size, destination, _) => if isa == Isa::Cmpi {
            spec_read_ea(spec_no_effect(), destination, Some(size))
        } else {
            spec_modify_ea(spec_no_effect(), destination, Some(size))
        },
        Operands::EffectiveAddressCount(destination, count) => spec_bit_effects(
            isa,
            instruction.opcode & 0x0100 != 0,
            destination,
            count,
        ),
        Operands::EffectiveAddress(mode) => spec_lone_effects(isa, mode),
        Operands::SizeEffectiveAddress(size, mode) => if isa == Isa::Tst {
            spec_read_ea(spec_no_effect(), mode, Some(size))
        } else if isa == Isa::Clr {
            spec_write_ea(spec_no_effect(), mode, Some(size))
        } else {
            spec_modify_ea(spec_no_effect(), mode, Some(size))
        },
        Operands::RegisterEffectiveAddress(register, source) => spec_register_source_effects(
            isa,
            register,
            source,
        ),
        Operands::RegisterDirectionSizeRegisterDisplacement(data, direction, size, address, _) => {
            let based = spec_reads(spec_no_effect(), spec_address_bit(address), Some(Size::Long), true);
            if direction == Direction::MemoryToRegister {
                spec_writes_lanes(based, data, Some(size))
            } else if direction == Direction::RegisterToMemory {
                spec_reads(based, data, Some(size), false)
            } else {
                spec_unsupported(based)
            }
        },
        Operands::SizeRegisterEffectiveAddress(size, destination, source) => spec_writes_lanes(
            spec_read_ea(spec_no_effect(), source, Some(size)),
            spec_address_bit(destination),
            None,
        ),
        Operands::SizeEffectiveAddressEffectiveAddress(size, destination, source) => spec_write_ea(
            spec_read_ea(spec_no_effect(), source, Some(size)),
            destination,
            Some(size),
        ),
        Operands::RegisterOpmodeRegister(left, direction, right) => if direction
            == Direction::ExchangeData {
            spec_exchange(left, right)
        } else if direction == Direction::ExchangeAddress {
            spec_exchange(spec_address_bit(left), spec_address_bit(right))
        } else if direction == Direction::ExchangeDataAddress {
            spec_exchange(left, spec_address_bit(right))
        } else {
            spec_unsupported(spec_no_effect())
        },
        // EXT.W reads a byte; EXT.L a word.
        Operands::OpmodeRegister(opmode, register) => if opmode == 2 {
            spec_writes_lanes(
                spec_reads(spec_no_effect(), register, Some(Size::Byte), false),
                register,
                Some(Size::Word),
            )
        } else {
            spec_writes_lanes(
                spec_reads(spec_no_effect(), register, Some(Size::Word), false),
                register,
                Some(Size::Long),
            )
        },
        Operands::RegisterDisplacement(register, _) => spec_steps(
            spec_writes_lanes(
                spec_reads(spec_no_effect(), spec_address_bit(register), Some(Size::Long), false),
                spec_address_bit(register),
                None,
            ),
            15,
        ),
        Operands::Register(register) => {
            let bit: u8 = if isa == Isa::Swap {
                register
            } else {
                spec_address_bit(register)
            };
            let done = spec_writes_lanes(spec_reads(spec_no_effect(), bit, None, false), bit, None);
            if isa == Isa::Unlk {
                spec_writes_lanes(done, 15, None)
            } else {
                done
            }
        },
        Operands::DirectionRegister(direction, register) => if direction
            == Direction::RegisterToUsp {
            spec_reads(spec_no_effect(), spec_address_bit(register), Some(Size::Long), false)
        } else if direction == Direction::UspToRegister {
            spec_writes_lanes(spec_no_effect(), spec_address_bit(register), None)
        } else {
            spec_unsupported(spec_no_effect())
        },
        Operands::DirectionSizeEffectiveAddressList(direction, size, mode, list) => spec_movem_effects(
            direction,
            size,
            mode,
            list,
        ),
        Operands::DataSizeEffectiveAddress(_, size, mode) => spec_modify_ea(
            spec_no_effect(),
            mode,
            Some(size),
        ),
        Operands::ConditionEffectiveAddress(_, mode) => spec_write_ea(
            spec_no_effect(),
            mode,
            Some(Size::Byte),
        ),
        Operands::ConditionRegisterDisplacement(_, register, _) => spec_writes_lanes(
            spec_reads(spec_no_effect(), register, Some(Size::Word), false),
            register,
            Some(Size::Word),
        ),
        Operands::RegisterData(register, _) => spec_writes_lanes(spec_no_effect(), register, None),
        Operands::RegisterDirectionSizeEffectiveAddress(register, direction, size, mode) =>
        spec_arithmetic_effects(isa, register, direction, size, mode),
        Operands::RegisterSizeEffectiveAddress(register, size, source) => {
            let read = spec_reads(
                spec_read_ea(spec_no_effect(), source, Some(size)),
                spec_address_bit(register),
                Some(Size::Long),
                false,
            );
            if isa == Isa::Cmpa {
                read
            } else {
                spec_writes_lanes(read, spec_address_bit(register), None)
            }
        },
        Operands::RegisterSizeModeRegister(left, size, direction, right) => if direction
            == Direction::RegisterToRegister {
            spec_writes_lanes(
                spec_reads(
                    spec_reads(spec_no_effect(), left, Some(size), false),
                    right,
                    Some(size),
                    false,
                ),
                left,
                Some(size),
            )
        } else if direction == Direction::MemoryToMemory {
            spec_steps(spec_steps(spec_no_effect(), spec_address_bit(left)), spec_address_bit(right))
        } else {
            spec_unsupported(spec_no_effect())
        },
        Operands::RegisterSizeRegister(left, _, right) => spec_steps(
            spec_steps(spec_no_effect(), spec_address_bit(left)),
            spec_address_bit(right),
        ),
        Operands::DirectionEffectiveAddress(_, mode) => spec_modify_ea(spec_no_effect(), mode, None),
        Operands::RotationDirectionSizeModeRegister(
            count,
            _,
            size,
            register_count,
            destination,
        ) => spec_writes_lanes(
            spec_reads(
                if register_count {
                    spec_reads(spec_no_effect(), count, Some(Size::Long), false)
                } else {
                    spec_no_effect()
                },
                destination,
                Some(size),
                false,
            ),
            destination,
            Some(size),
        ),
    }
}

/// What the operands of an instruction say it does to registers.
pub fn operand_effects(instruction: Instruction) -> (r: Effects)
    requires
        instruction.wf(),
    ensures
        r == spec_operand_effects(instruction),
{
    let isa = instruction.isa;
    match instruction.operands {
        Operands::NoOperands
        | Operands::Immediate(_)
        | Operands::Vector(_)
        | Operands::Displacement(_)
        | Operands::ConditionDisplacement(_, _) => no_effect(),
        Operands::SizeEffectiveAddressImmediate(size, destination, _) => if isa == Isa::Cmpi {
            read_ea(no_effect(), destination, Some(size))
        } else {
            modify_ea(no_effect(), destination, Some(size))
        },
        Operands::EffectiveAddressCount(destination, count) => bit_effects(
            isa,
            instruction.opcode & 0x0100 != 0,
            destination,
            count,
        ),
        Operands::EffectiveAddress(mode) => lone_effects(isa, mode),
        Operands::SizeEffectiveAddress(size, mode) => if isa == Isa::Tst {
            read_ea(no_effect(), mode, Some(size))
        } else if isa == Isa::Clr {
            write_ea(no_effect(), mode, Some(size))
        } else {
            modify_ea(no_effect(), mode, Some(size))
        },
        Operands::RegisterEffectiveAddress(register, source) => register_source_effects(
            isa,
            register,
            source,
        ),
        Operands::RegisterDirectionSizeRegisterDisplacement(data, direction, size, address, _) => {
            let based = reads(no_effect(), address_bit(address), Some(Size::Long), true);
            if direction == Direction::MemoryToRegister {
                writes_lanes(based, data, Some(size))
            } else if direction == Direction::RegisterToMemory {
                reads(based, data, Some(size), false)
            } else {
                unsupported(based)
            }
        },
        Operands::SizeRegisterEffectiveAddress(size, destination, source) => writes_lanes(
            read_ea(no_effect(), source, Some(size)),
            address_bit(destination),
            None,
        ),
        Operands::SizeEffectiveAddressEffectiveAddress(size, destination, source) => write_ea(
            read_ea(no_effect(), source, Some(size)),
            destination,
            Some(size),
        ),
        Operands::RegisterOpmodeRegister(left, direction, right) => if direction
            == Direction::ExchangeData {
            exchange(left, right)
        } else if direction == Direction::ExchangeAddress {
            exchange(address_bit(left), address_bit(right))
        } else if direction == Direction::ExchangeDataAddress {
            exchange(left, address_bit(right))
        } else {
            unsupported(no_effect())
        },
        // EXT.W reads a byte; EXT.L a word.
        Operands::OpmodeRegister(opmode, register) => if opmode == 2 {
            writes_lanes(
                reads(no_effect(), register, Some(Size::Byte), false),
                register,
                Some(Size::Word),
            )
        } else {
            writes_lanes(
                reads(no_effect(), register, Some(Size::Word), false),
                register,
                Some(Size::Long),
            )
        },
        Operands::RegisterDisplacement(register, _) => steps(
            writes_lanes(
                reads(no_effect(), address_bit(register), Some(Size::Long), false),
                address_bit(register),
                None,
            ),
            15,
        ),
        Operands::Register(register) => {
            let bit: u8 = if isa == Isa::Swap {
                register
            } else {
                address_bit(register)
            };
            let done = writes_lanes(reads(no_effect(), bit, None, false), bit, None);
            if isa == Isa::Unlk {
                writes_lanes(done, 15, None)
            } else {
                done
            }
        },
        Operands::DirectionRegister(direction, register) => if direction
            == Direction::RegisterToUsp {
            reads(no_effect(), address_bit(register), Some(Size::Long), false)
        } else if direction == Direction::UspToRegister {
            writes_lanes(no_effect(), address_bit(register), None)
        } else {
            unsupported(no_effect())
        },
        Operands::DirectionSizeEffectiveAddressList(direction, size, mode, list) => movem_effects(
            direction,
            size,
            mode,
            list,
        ),
        Operands::DataSizeEffectiveAddress(_, size, mode) => modify_ea(
            no_effect(),
            mode,
            Some(size),
        ),
        Operands::ConditionEffectiveAddress(_, mode) => write_ea(
            no_effect(),
            mode,
            Some(Size::Byte),
        ),
        Operands::ConditionRegisterDisplacement(_, register, _) => writes_lanes(
            reads(no_effect(), register, Some(Size::Word), false),
            register,
            Some(Size::Word),
        ),
        Operands::RegisterData(register, _) => writes_lanes(no_effect(), register, None),
        Operands::RegisterDirectionSizeEffectiveAddress(register, direction, size, mode) =>
        arithmetic_effects(isa, register, direction, size, mode),
        Operands::RegisterSizeEffectiveAddress(register, size, source) => {
            let read = reads(
                read_ea(no_effect(), source, Some(size)),
                address_bit(register),
                Some(Size::Long),
                false,
            );
            if isa == Isa::Cmpa {
                read
            } else {
                writes_lanes(read, address_bit(register), None)
            }
        },
        Operands::RegisterSizeModeRegister(left, size, direction, right) => if direction
            == Direction::RegisterToRegister {
            writes_lanes(
                reads(
                    reads(no_effect(), left, Some(size), false),
                    right,
                    Some(size),
                    false,
                ),
                left,
                Some(size),
            )
        } else if direction == Direction::MemoryToMemory {
            steps(steps(no_effect(), address_bit(left)), address_bit(right))
        } else {
            unsupported(no_effect())
        },
        Operands::RegisterSizeRegister(left, _, right) => steps(
            steps(no_effect(), address_bit(left)),
            address_bit(right),
        ),
        Operands::DirectionEffectiveAddress(_, mode) => modify_ea(no_effect(), mode, None),
        Operands::RotationDirectionSizeModeRegister(
            count,
            _,
            size,
            register_count,
            destination,
        ) => writes_lanes(
            reads(
                if register_count {
                    reads(no_effect(), count, Some(Size::Long), false)
                } else {
                    no_effect()
                },
                destination,
                Some(size),
                false,
            ),
            destination,
            Some(size),
        ),
    }
}

/// What an instruction does to registers. A callee or a handler may overwrite any
/// of them; of a word that the decoder cannot name nothing more is known.
pub open spec fn spec_register_effects(instruction: Instruction) -> Effects {
    match instruction.isa {
        Isa::Jsr | Isa::Bsr | Isa::Trap | Isa::Trapv => spec_clobbers(
            spec_operand_effects(instruction),
            GENERAL_REGISTERS,
        ),
        Isa::Unknown => spec_unsupported(spec_clobbers(spec_operand_effects(instruction), GENERAL_REGISTERS)),
        _ => spec_operand_effects(instruction),
    }
}

/// What an instruction does to registers. A callee or a handler may overwrite any
/// of them; of a word that the decoder cannot name nothing more is known.
pub fn register_effects(instruction: Instruction) -> (r: Effects)
    requires
        instruction.wf(),
    ensures
        r == spec_register_effects(instruction),
{
    match instruction.isa {
        Isa::Jsr | Isa::Bsr | Isa::Trap | Isa::Trapv => clobbers(
            operand_effects(instruction),
            GENERAL_REGISTERS,
        ),
        Isa::Unknown => unsupported(clobbers(operand_effects(instruction), GENERAL_REGISTERS)),
        _ => operand_effects(instruction),
    }
}

/// The mask of a register that an addressing mode names.
pub open spec fn spec_direct_register_mask(mode: AddressingMode) -> u16 {
    match mode {
        AddressingMode::Drd(register) => 1u16 << (register as u16),
        AddressingMode::Ard(register) => 1u16 << (spec_address_bit(register) as u16),
        _ => 0,
    }
}

/// The mask of a register that an addressing mode names.
pub fn direct_register_mask(mode: AddressingMode) -> (r: u16)
    requires
        mode.in_range(),
    ensures
        r == spec_direct_register_mask(mode),
{
    match mode {
        AddressingMode::Drd(register) => 1u16 << (register as u16),
        AddressingMode::Ard(register) => 1u16 << (address_bit(register) as u16),
        _ => 0,
    }
}

/// The registers that an instruction pushes on the stack.
pub open spec fn spec_saved_register_mask(instruction: Instruction) -> u16 {
    match instruction.operands {
        Operands::DirectionSizeEffectiveAddressList(
            Direction::RegisterToMemory,
            _,
            AddressingMode::Ariwpr(base),
            list,
        ) => if base == 7 {
            spec_reversed_list(list)
        } else {
            0
        },
        Operands::SizeEffectiveAddressEffectiveAddress(
            Size::Long,
            AddressingMode::Ariwpr(base),
            source,
        ) => if base == 7 {
            spec_direct_register_mask(source)
        } else {
            0
        },
        Operands::RegisterDisplacement(register, _) => if instruction.isa == Isa::Link {
            1u16 << (spec_address_bit(register) as u16)
        } else {
            0
        },
        _ => 0,
    }
}

/// The registers that an instruction pushes on the stack.
pub fn saved_register_mask(instruction: Instruction) -> (r: u16)
    requires
        instruction.wf(),
    ensures
        r == spec_saved_register_mask(instruction),
{
    match instruction.operands {
        Operands::DirectionSizeEffectiveAddressList(
            Direction::RegisterToMemory,
            _,
            AddressingMode::Ariwpr(base),
            list,
        ) => if base == 7 {
            reversed_list(list)
        } else {
            0
        },
        Operands::SizeEffectiveAddressEffectiveAddress(
            Size::Long,
            AddressingMode::Ariwpr(base),
            source,
        ) => if base == 7 {
            direct_register_mask(source)
        } else {
            0
        },
        Operands::RegisterDisplacement(register, _) => if instruction.isa == Isa::Link {
            1u16 << (address_bit(register) as u16)
        } else {
            0
        },
        _ => 0,
    }
}

/// The registers that an instruction pops from the stack.
pub open spec fn spec_restored_register_mask(instruction: Instruction) -> u16 {
    match instruction.operands {
        Operands::DirectionSizeEffectiveAddressList(
            Direction::MemoryToRegister,
            _,
            AddressingMode::Ariwpo(base),
            list,
        ) => if base == 7 {
            list
        } else {
            0
        },
        Operands::SizeEffectiveAddressEffectiveAddress(
            Size::Long,
            destination,
            AddressingMode::Ariwpo(base),
        ) => if base == 7 {
            spec_direct_register_mask(destination)
        } else {
            0
        },
        Operands::Register(register) => if instruction.isa == Isa::Unlk {
            1u16 << (spec_address_bit(register) as u16)
        } else {
            0
        },
        _ => 0,
    }
}

/// The registers that an instruction pops from the stack.
pub fn restored_register_mask(instruction: Instruction) -> (r: u16)
    requires
        instruction.wf(),
    ensures
        r == spec_restored_register_mask(instruction),
{
    match instruction.operands {
        Operands::DirectionSizeEffectiveAddressList(
            Direction::MemoryToRegister,
            _,
            AddressingMode::Ariwpo(base),
            list,
        ) => if base == 7 {
            list
        } else {
            0
        },
        Operands::SizeEffectiveAddressEffectiveAddress(
            Size::Long,
            destination,
            AddressingMode::Ariwpo(base),
        ) => if base == 7 {
            direct_register_mask(destination)
        } else {
            0
        },
        Operands::Register(register) => if instruction.isa == Isa::Unlk {
            1u16 << (address_bit(register) as u16)
        } else {
            0
        },
        _ => 0,
    }
}

/// Whether lanes name a register.
pub open spec fn touches(lanes: u64, bit: u8) -> bool {
    spec_lanes_of(lanes, bit) != 0
}

proof fn lemma_touches(lanes: u64, bit: u8)
    requires
        bit < 16,
    ensures
        touches(lanes, bit) == ((lanes >> (((bit as u32) * 4) as u32)) & 0xf != 0),
{
    let part = (lanes >> (((bit as u32) * 4) as u32)) & 0xf;
    assert(part < 16) by (bit_vector)
        requires
            part == (lanes >> (((bit as u32) * 4) as u32)) & 0xf,
    ;
}

proof fn lemma_touches_either(lanes: u64, more: u64, bit: u8)
    requires
        bit < 16,
        touches(lanes | more, bit),
    ensures
        touches(lanes, bit) || touches(more, bit),
{
    lemma_touches(lanes | more, bit);
    lemma_touches(lanes, bit);
    lemma_touches(more, bit);
    let shift: u32 = ((bit as u32) * 4) as u32;
    assert((lanes >> shift) & 0xf != 0 || (more >> shift) & 0xf != 0) by (bit_vector)
        requires
            ((lanes | more) >> shift) & 0xf != 0,
    ;
}

proof fn lemma_touches_nothing(bit: u8)
    requires
        bit < 16,
    ensures
        !touches(0, bit),
{
    lemma_touches(0, bit);
    let shift: u32 = ((bit as u32) * 4) as u32;
    assert((0u64 >> shift) & 0xf == 0) by (bit_vector);
}

proof fn lemma_touches_shifted(mask: u64, lane: u32, bit: u8)
    requires
        mask < 16,
        lane < 64,
        bit < 16,
        mask < 2 || lane % 4 == 0,
        touches(mask << lane, bit),
    ensures
        lane / 4 == bit,
{
    lemma_touches(mask << lane, bit);
    let shift: u32 = ((bit as u32) * 4) as u32;
    assert(lane / 4 == shift / 4) by (bit_vector)
        requires
            mask < 16,
            lane < 64,
            shift < 64,
            shift % 4 == 0,
            mask < 2 || lane % 4 == 0,
            ((mask << lane) >> shift) & 0xf != 0,
    ;
}

proof fn lemma_touches_register(register: u8, size: Option<Size>, bit: u8)
    requires
        bit < 16,
        touches(spec_register_lanes(register, size), bit),
    ensures
        register == bit,
{
    if register >= 16 {
        lemma_touches_nothing(bit);
    } else if register >= 8 {
        lemma_touches_shifted(0xf, ((register as u32) * 4) as u32, bit);
    } else {
        lemma_touches_shifted(spec_lane_mask(size), ((register as u32) * 4) as u32, bit);
    }
}

proof fn lemma_touches_list(registers: u16, n: u8, bit: u8)
    requires
        bit < 16,
        n <= 16,
        touches(lanes_of_first(registers, n), bit),
    ensures
        spec_listed(registers, bit as u16),
    decreases n,
{
    if n == 0 {
        lemma_touches_nothing(bit);
    } else {
        let last = (n - 1) as u8;
        if spec_listed(registers, last as u16) {
            lemma_touches_either(
                lanes_of_first(registers, last),
                spec_register_lanes(last, None),
                bit,
            );
            if touches(spec_register_lanes(last, None), bit) {
                lemma_touches_register(last, None, bit);
            } else {
                lemma_touches_list(registers, last, bit);
            }
        } else {
            lemma_touches_list(registers, last, bit);
        }
    }
}

/// A listed register has all its lanes.
pub proof fn lemma_listed_lanes(registers: u16, n: u8, bit: u8)
    requires
        bit < n <= 16,
        spec_listed(registers, bit as u16),
    ensures
        (lanes_of_first(registers, n) >> (((bit as u32) * 4) as u32)) & 0xf == 0xf,
    decreases n,
{
    let shift: u32 = ((bit as u32) * 4) as u32;
    let last = (n - 1) as u8;
    let lower = lanes_of_first(registers, last);
    let more = spec_register_lanes(last, None);
    if last == bit {
        assert(((lower | (0xfu64 << shift)) >> shift) & 0xf == 0xf) by (bit_vector)
            requires
                shift <= 60,
        ;
    } else {
        lemma_listed_lanes(registers, last, bit);
        assert(((lower | more) >> shift) & 0xf == 0xf) by (bit_vector)
            requires
                (lower >> shift) & 0xf == 0xf,
        ;
    }
}

/// One more register written touches that register, and what was touched before.
proof fn lemma_touches_written(e: Effects, register: u8, size: Option<Size>, bit: u8)
    requires
        bit < 16,
        touches(spec_writes_lanes(e, register, size).writes, bit),
    ensures
        touches(e.writes, bit) || register == bit,
{
    lemma_touches_either(e.writes, spec_register_lanes(register, size), bit);
    if touches(spec_register_lanes(register, size), bit) {
        lemma_touches_register(register, size, bit);
    }
}

/// The register that an addressing mode steps.
pub open spec fn steps_register(mode: AddressingMode, bit: u8) -> bool {
    match mode {
        AddressingMode::Ariwpo(base) => bit == spec_address_bit(base),
        AddressingMode::Ariwpr(base) => bit == spec_address_bit(base),
        _ => false,
    }
}

/// The register that an addressing mode is.
pub open spec fn is_register(mode: AddressingMode, bit: u8) -> bool {
    match mode {
        AddressingMode::Drd(register) => bit == register,
        AddressingMode::Ard(register) => bit == spec_address_bit(register),
        _ => false,
    }
}

proof fn lemma_touches_operand(e: Effects, mode: AddressingMode, size: Option<Size>, bit: u8)
    requires
        bit < 16,
    ensures
        touches(spec_address_ea(e, mode).writes, bit) ==> touches(e.writes, bit) || steps_register(
            mode,
            bit,
        ),
        touches(spec_read_ea(e, mode, size).writes, bit) ==> touches(e.writes, bit)
            || steps_register(mode, bit),
        touches(spec_write_ea(e, mode, size).writes, bit) ==> touches(e.writes, bit)
            || steps_register(mode, bit) || is_register(mode, bit),
        touches(spec_modify_ea(e, mode, size).writes, bit) ==> touches(e.writes, bit)
            || steps_register(mode, bit) || is_register(mode, bit),
{
    let stepped = spec_address_ea(e, mode);
    match mode {
        AddressingMode::Ariwpo(register) | AddressingMode::Ariwpr(register) => {
            if touches(stepped.writes, bit) {
                lemma_touches_written(
                    spec_reads(e, spec_address_bit(register), Some(Size::Long), true),
                    spec_address_bit(register),
                    None,
                    bit,
                );
            }
        },
        AddressingMode::Drd(register) => {
            if touches(spec_write_ea(e, mode, size).writes, bit) {
                lemma_touches_written(e, register, size, bit);
            }
            if touches(spec_modify_ea(e, mode, size).writes, bit) {
                lemma_touches_written(spec_reads(e, register, size, false), register, size, bit);
            }
        },
        AddressingMode::Ard(register) => {
            if touches(spec_write_ea(e, mode, size).writes, bit) {
                lemma_touches_written(e, spec_address_bit(register), None, bit);
            }
            if touches(spec_modify_ea(e, mode, size).writes, bit) {
                lemma_touches_written(
                    spec_reads(e, spec_address_bit(register), size, false),
                    spec_address_bit(register),
                    None,
                    bit,
                );
            }
        },
        _ => {},
    }
}

/// Everything that reading a list does is to read.
proof fn lemma_reading_writes_nothing(e: Effects, list: u16, size: Size, n: u8)
    ensures
        reads_first(e, list, size, n).writes == e.writes,
    decreases n,
{
    if n > 0 {
        lemma_reading_writes_nothing(e, list, size, (n - 1) as u8);
    }
}

/// The registers whose lanes the operands of an instruction write: those that an
/// addressing mode steps, those that are a written operand, and those that the form
/// names. The stack pointer is left out, which some instructions move besides.
pub open spec fn operands_write(instruction: Instruction, bit: u8) -> bool {
    match instruction.operands {
        Operands::SizeEffectiveAddressImmediate(_, mode, _) => steps_register(mode, bit)
            || instruction.isa != Isa::Cmpi && is_register(mode, bit),
        Operands::EffectiveAddressCount(mode, _) => steps_register(mode, bit) || instruction.isa
            != Isa::Btst && is_register(mode, bit),
        Operands::EffectiveAddress(mode) => steps_register(mode, bit) || is_register(mode, bit),
        Operands::SizeEffectiveAddress(_, mode) => steps_register(mode, bit) || instruction.isa
            != Isa::Tst && is_register(mode, bit),
        Operands::RegisterEffectiveAddress(register, mode) => steps_register(mode, bit)
            || if instruction.isa == Isa::Lea {
            bit == spec_address_bit(register)
        } else {
            bit == register
        },
        Operands::RegisterDirectionSizeRegisterDisplacement(data, direction, _, _, _) => direction
            == Direction::MemoryToRegister && bit == data,
        Operands::SizeRegisterEffectiveAddress(_, register, mode) => steps_register(mode, bit)
            || bit == spec_address_bit(register),
        Operands::SizeEffectiveAddressEffectiveAddress(_, destination, source) => steps_register(
            source,
            bit,
        ) || steps_register(destination, bit) || is_register(destination, bit),
        Operands::OpmodeRegister(_, register) => bit == register,
        Operands::RegisterDisplacement(register, _) => bit == spec_address_bit(register),
        Operands::Register(register) => if instruction.isa == Isa::Swap {
            bit == register
        } else {
            bit == spec_address_bit(register)
        },
        Operands::DirectionRegister(direction, register) => direction == Direction::UspToRegister
            && bit == spec_address_bit(register),
        Operands::DirectionSizeEffectiveAddressList(direction, _, mode, list) => steps_register(
            mode,
            bit,
        ) || direction == Direction::RegisterToMemory && is_register(mode, bit) || direction
            == Direction::MemoryToRegister && spec_listed(list, bit as u16),
        Operands::DataSizeEffectiveAddress(_, _, mode) => steps_register(mode, bit) || is_register(
            mode,
            bit,
        ),
        Operands::ConditionEffectiveAddress(_, mode) => steps_register(mode, bit) || is_register(
            mode,
            bit,
        ),
        Operands::ConditionRegisterDisplacement(_, register, _) => bit == register,
        Operands::RegisterData(register, _) => bit == register,
        Operands::RegisterDirectionSizeEffectiveAddress(register, direction, _, mode) =>
        steps_register(mode, bit) || if direction == Direction::DstEa {
            is_register(mode, bit)
        } else {
            bit == register
        },
        Operands::RegisterSizeEffectiveAddress(register, _, mode) => steps_register(mode, bit)
            || bit == spec_address_bit(register),
        Operands::RegisterSizeModeRegister(left, _, direction, right) => if direction
            == Direction::RegisterToRegister {
            bit == left
        } else {
            direction == Direction::MemoryToMemory && (bit == spec_address_bit(left) || bit
                == spec_address_bit(right))
        },
        Operands::RegisterSizeRegister(left, _, right) => bit == spec_address_bit(left) || bit
            == spec_address_bit(right),
        Operands::DirectionEffectiveAddress(_, mode) => steps_register(mode, bit) || is_register(
            mode,
            bit,
        ),
        Operands::RotationDirectionSizeModeRegister(_, _, _, _, register) => bit == register,
        Operands::RegisterOpmodeRegister(left, direction, right) => if direction
            == Direction::ExchangeData {
            bit == left || bit == right
        } else if direction == Direction::ExchangeAddress {
            bit == spec_address_bit(left) || bit == spec_address_bit(right)
        } else {
            direction == Direction::ExchangeDataAddress && (bit == left || bit == spec_address_bit(
                right,
            ))
        },
        Operands::NoOperands
        | Operands::Immediate(_)
        | Operands::Vector(_)
        | Operands::Displacement(_)
        | Operands::ConditionDisplacement(_, _) => false,
    }
}

/// The effects of an instruction write no register but those that its operands write.
#[verifier::rlimit(80)]
pub proof fn effects_write_operands_only(instruction: Instruction, bit: u8)
    requires
        bit < 15,
        instruction.operands.in_range(),
        touches(spec_operand_effects(instruction).writes, bit),
    ensures
        operands_write(instruction, bit),
{
    let none = spec_no_effect();
    lemma_touches_nothing(bit);
    match instruction.operands {
        Operands::SizeEffectiveAddressImmediate(size, mode, _) => {
            lemma_touches_operand(none, mode, Some(size), bit);
        },
        Operands::EffectiveAddressCount(mode, count) => {
            let counted = spec_reads(none, count, Some(Size::Long), false);
            lemma_touches_operand(counted, mode, Some(Size::Long), bit);
            lemma_touches_operand(counted, mode, Some(Size::Byte), bit);
            lemma_touches_operand(none, mode, Some(Size::Byte), bit);
            if let AddressingMode::Drd(register) = mode {
                let lane: u32 = (register as u32 * 4 + ((count % 32) / 8) as u32) as u32;
                if touches(1u64 << lane, bit) {
                    lemma_touches_shifted(1, lane, bit);
                }
            }
        },
        Operands::EffectiveAddress(mode) => {
            lemma_touches_operand(none, mode, Some(Size::Word), bit);
            lemma_touches_operand(none, mode, Some(Size::Byte), bit);
            lemma_touches_operand(none, mode, None, bit);
        },
        Operands::SizeEffectiveAddress(size, mode) => {
            lemma_touches_operand(none, mode, Some(size), bit);
        },
        Operands::RegisterEffectiveAddress(register, mode) => {
            lemma_touches_operand(none, mode, Some(Size::Word), bit);
            let read = spec_read_ea(none, mode, Some(Size::Word));
            let effects = spec_operand_effects(instruction);
            if instruction.isa == Isa::Lea {
                lemma_touches_written(
                    spec_address_ea(none, mode),
                    spec_address_bit(register),
                    None,
                    bit,
                );
            } else if instruction.isa == Isa::Muls || instruction.isa == Isa::Mulu {
                lemma_touches_written(
                    spec_reads(read, register, Some(Size::Word), false),
                    register,
                    None,
                    bit,
                );
            } else if instruction.isa == Isa::Divs || instruction.isa == Isa::Divu {
                lemma_touches_written(
                    spec_reads(read, register, Some(Size::Long), false),
                    register,
                    None,
                    bit,
                );
            }
        },
        Operands::RegisterDirectionSizeRegisterDisplacement(data, direction, size, address, _) => {
            let based = spec_reads(none, spec_address_bit(address), Some(Size::Long), true);
            if direction == Direction::MemoryToRegister {
                lemma_touches_written(based, data, Some(size), bit);
            }
        },
        Operands::SizeRegisterEffectiveAddress(size, register, mode) => {
            lemma_touches_operand(none, mode, Some(size), bit);
            lemma_touches_written(
                spec_read_ea(none, mode, Some(size)),
                spec_address_bit(register),
                None,
                bit,
            );
        },
        Operands::SizeEffectiveAddressEffectiveAddress(size, destination, source) => {
            lemma_touches_operand(none, source, Some(size), bit);
            lemma_touches_operand(
                spec_read_ea(none, source, Some(size)),
                destination,
                Some(size),
                bit,
            );
        },
        Operands::RegisterOpmodeRegister(left, direction, right) => {
            let (first, second) = if direction == Direction::ExchangeData {
                (left, right)
            } else if direction == Direction::ExchangeAddress {
                (spec_address_bit(left), spec_address_bit(right))
            } else {
                (left, spec_address_bit(right))
            };
            let read = spec_reads(
                spec_reads(none, first, Some(Size::Long), false),
                second,
                Some(Size::Long),
                false,
            );
            if touches(spec_exchange(first, second).writes, bit) {
                lemma_touches_written(spec_writes_lanes(read, first, None), second, None, bit);
                if touches(spec_writes_lanes(read, first, None).writes, bit) {
                    lemma_touches_written(read, first, None, bit);
                }
            }
        },
        Operands::OpmodeRegister(opmode, register) => {
            if opmode == 2 {
                lemma_touches_written(
                    spec_reads(none, register, Some(Size::Byte), false),
                    register,
                    Some(Size::Word),
                    bit,
                );
            } else {
                lemma_touches_written(
                    spec_reads(none, register, Some(Size::Word), false),
                    register,
                    Some(Size::Long),
                    bit,
                );
            }
        },
        Operands::RegisterDisplacement(register, _) => {
            let read = spec_reads(none, spec_address_bit(register), Some(Size::Long), false);
            let first = spec_writes_lanes(read, spec_address_bit(register), None);
            lemma_touches_written(spec_reads(first, 15, Some(Size::Long), true), 15, None, bit);
            lemma_touches_written(read, spec_address_bit(register), None, bit);
        },
        Operands::Register(register) => {
            let own: u8 = if instruction.isa == Isa::Swap {
                register
            } else {
                spec_address_bit(register)
            };
            let read = spec_reads(none, own, None, false);
            let done = spec_writes_lanes(read, own, None);
            if instruction.isa == Isa::Unlk {
                lemma_touches_written(done, 15, None, bit);
            }
            lemma_touches_written(read, own, None, bit);
        },
        Operands::DirectionRegister(direction, register) => {
            if direction == Direction::UspToRegister {
                lemma_touches_written(none, spec_address_bit(register), None, bit);
            }
        },
        Operands::DirectionSizeEffectiveAddressList(direction, size, mode, list) => {
            lemma_reading_writes_nothing(none, list, size, 16);
            lemma_reading_writes_nothing(none, spec_reversed_list(list), size, 16);
            lemma_touches_operand(none, mode, Some(size), bit);
            lemma_touches_operand(spec_reads_list(none, list, size), mode, Some(size), bit);
            lemma_touches_operand(
                spec_reads_list(none, spec_reversed_list(list), size),
                mode,
                Some(size),
                bit,
            );
            if direction == Direction::MemoryToRegister {
                let read = spec_read_ea(none, mode, Some(size));
                lemma_touches_either(read.writes, spec_lanes_for_registers(list), bit);
                if touches(spec_lanes_for_registers(list), bit) {
                    lemma_touches_list(list, 16, bit);
                }
            }
        },
        Operands::DataSizeEffectiveAddress(_, size, mode) => {
            lemma_touches_operand(none, mode, Some(size), bit);
        },
        Operands::ConditionEffectiveAddress(_, mode) => {
            lemma_touches_operand(none, mode, Some(Size::Byte), bit);
        },
        Operands::ConditionRegisterDisplacement(_, register, _) => {
            lemma_touches_written(
                spec_reads(none, register, Some(Size::Word), false),
                register,
                Some(Size::Word),
                bit,
            );
        },
        Operands::RegisterData(register, _) => {
            lemma_touches_written(none, register, None, bit);
        },
        Operands::RegisterDirectionSizeEffectiveAddress(register, direction, size, mode) => {
            lemma_touches_operand(none, mode, Some(size), bit);
            let read = spec_reads(
                spec_read_ea(none, mode, Some(size)),
                register,
                Some(size),
                false,
            );
            if direction == Direction::DstReg && instruction.isa != Isa::Cmp {
                lemma_touches_written(read, register, Some(size), bit);
            }
            lemma_touches_operand(
                spec_reads(none, register, Some(size), false),
                mode,
                Some(size),
                bit,
            );
        },
        Operands::RegisterSizeEffectiveAddress(register, size, mode) => {
            lemma_touches_operand(none, mode, Some(size), bit);
            let read = spec_reads(
                spec_read_ea(none, mode, Some(size)),
                spec_address_bit(register),
                Some(Size::Long),
                false,
            );
            if instruction.isa != Isa::Cmpa {
                lemma_touches_written(read, spec_address_bit(register), None, bit);
            }
        },
        Operands::RegisterSizeModeRegister(left, size, direction, right) => {
            if direction == Direction::RegisterToRegister {
                lemma_touches_written(
                    spec_reads(
                        spec_reads(none, left, Some(size), false),
                        right,
                        Some(size),
                        false,
                    ),
                    left,
                    Some(size),
                    bit,
                );
            } else if direction == Direction::MemoryToMemory {
                lemma_touches_two_steps(left, right, bit);
            }
        },
        Operands::RegisterSizeRegister(left, _, right) => {
            lemma_touches_two_steps(left, right, bit);
        },
        Operands::DirectionEffectiveAddress(_, mode) => {
            lemma_touches_operand(none, mode, None, bit);
        },
        Operands::RotationDirectionSizeModeRegister(count, _, size, counted, register) => {
            let base = if counted {
                spec_reads(none, count, Some(Size::Long), false)
            } else {
                none
            };
            lemma_touches_written(
                spec_reads(base, register, Some(size), false),
                register,
                Some(size),
                bit,
            );
        },
        _ => {},
    }
}

proof fn lemma_touches_two_steps(left: u8, right: u8, bit: u8)
    requires
        bit < 16,
        touches(
            spec_steps(
                spec_steps(spec_no_effect(), spec_address_bit(left)),
                spec_address_bit(right),
            ).writes,
            bit,
        ),
    ensures
        bit == spec_address_bit(left) || bit == spec_address_bit(right),
{
    let none = spec_no_effect();
    let (first, second) = (spec_address_bit(left), spec_address_bit(right));
    lemma_touches_nothing(bit);
    let one = spec_steps(none, first);
    lemma_touches_written(spec_reads(one, second, Some(Size::Long), true), second, None, bit);
    if touches(one.writes, bit) {
        lemma_touches_written(spec_reads(none, first, Some(Size::Long), true), first, None, bit);
    }
}

} // verus!
