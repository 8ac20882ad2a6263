//! What an instruction does to each register.

use crate::analysis::{spec_operand_address, AnalysisView, ControlFlowAnalysis, OperandAddress};
use crate::decoded::{DecodedInstruction, DecodedView, OperandRole};
use crate::derived::{listed, quick_amount, spec_listed, spec_quick_amount};
use crate::effects::{effects_write_operands_only, spec_operand_effects, touches};
use crate::globals::{sign_extend_word, spec_sign_extend_word};
use crate::m68k::{
    AddressingMode, BriefExtensionWord, Direction, Instruction, Isa, Operands, Size,
};
use crate::values::{
    ExactOperation, RegisterKind, RegisterWrite, SymbolicLocation, SymbolicSubject,
};
use vstd::prelude::*;

verus! {

/// Whether this instruction transfers control to a subroutine, or is a word
/// the decoder cannot name: both clobber the propagated state because nothing
/// here can say what they left in the registers.
pub open spec fn spec_is_call(isa: Isa) -> bool {
    matches!(isa, Isa::Jsr | Isa::Bsr | Isa::Unknown)
}

/// Whether this instruction transfers control to a subroutine, or is a word
/// the decoder cannot name: both clobber the propagated state because nothing
/// here can say what they left in the registers.
pub fn is_call(isa: Isa) -> (r: bool)
    ensures
        r == spec_is_call(isa),
{
    matches!(isa, Isa::Jsr | Isa::Bsr | Isa::Unknown)
}

/// How many of the lowest `bits` bits of a register list are set.
pub open spec fn spec_bits_below(list: u16, bits: u16) -> u32
    decreases bits,
{
    if bits == 0 {
        0
    } else {
        (spec_bits_below(list, (bits - 1) as u16) + if spec_listed(list, (bits - 1) as u16) {
            1int
        } else {
            0int
        }) as u32
    }
}

/// How many of the lowest `bits` bits of a register list are set.
pub fn bits_below(list: u16, bits: u16) -> (r: u32)
    requires
        bits <= 16,
    ensures
        r == spec_bits_below(list, bits),
        r <= bits,
{
    let mut count: u32 = 0;
    let mut i: u16 = 0;
    while i < bits
        invariant
            i <= bits <= 16,
            count <= i,
            count == spec_bits_below(list, i),
        decreases bits - i,
    {
        if listed(list, i) {
            count += 1;
        }
        i += 1;
        assert((i - 1) as u16 == i - 1);
    }
    count
}

/// The bytes of one transfer of a `MOVEM`.
pub open spec fn spec_slot_bytes(size: Size) -> u32 {
    if size == Size::Long {
        4
    } else {
        2
    }
}

/// The bytes of one transfer of a `MOVEM`.
pub fn slot_bytes(size: Size) -> (r: u32)
    ensures
        r == spec_slot_bytes(size),
{
    if size == Size::Long {
        4
    } else {
        2
    }
}

/// The bit of a register in the list of a memory-to-register `MOVEM`.
pub open spec fn spec_list_bit(kind: RegisterKind, register: u8) -> u16 {
    match kind {
        RegisterKind::Data => register as u16,
        RegisterKind::Address => (8 + register as u16) as u16,
    }
}

/// The bit of a register in the list of a memory-to-register `MOVEM`.
pub fn list_bit(kind: RegisterKind, register: u8) -> (r: u16)
    requires
        register < 8,
    ensures
        r == spec_list_bit(kind, register),
{
    match kind {
        RegisterKind::Data => register as u16,
        RegisterKind::Address => (8 + register as u16) as u16,
    }
}

/// The addressing mode that names a register itself.
pub open spec fn spec_direct_mode(kind: RegisterKind, register: u8) -> AddressingMode {
    match kind {
        RegisterKind::Data => AddressingMode::Drd(register),
        RegisterKind::Address => AddressingMode::Ard(register),
    }
}

/// The addressing mode that names a register itself.
pub fn direct_mode(kind: RegisterKind, register: u8) -> (r: AddressingMode)
    ensures
        r == spec_direct_mode(kind, register),
{
    match kind {
        RegisterKind::Data => AddressingMode::Drd(register),
        RegisterKind::Address => AddressingMode::Ard(register),
    }
}

/// How far `MOVEM (An)+` moves the base: it writes the final address even when
/// An is in the load mask.
pub open spec fn spec_movem_base_step(operands: Operands, kind: RegisterKind, register: u8) -> Option<u32> {
    match operands {
        Operands::DirectionSizeEffectiveAddressList(
            Direction::MemoryToRegister,
            size,
            AddressingMode::Ariwpo(base),
            list,
        ) => if kind == RegisterKind::Address && register == base {
            Some((spec_bits_below(list, 16) * spec_slot_bytes(size)) as u32)
        } else {
            None
        },
        _ => None,
    }
}

/// How far `MOVEM (An)+` moves the base: it writes the final address even when
/// An is in the load mask.
pub fn movem_base_step(operands: Operands, kind: RegisterKind, register: u8) -> (r: Option<u32>)
    ensures
        r == spec_movem_base_step(operands, kind, register),
{
    match operands {
        Operands::DirectionSizeEffectiveAddressList(
            Direction::MemoryToRegister,
            size,
            AddressingMode::Ariwpo(base),
            list,
        ) => if kind == RegisterKind::Address && register == base {
            Some((bits_below(list, 16) * slot_bytes(size)) as u32)
        } else {
            None
        },
        _ => None,
    }
}

/// Whether an addressing mode post-increments or pre-decrements `An`.
pub open spec fn spec_adjusts(mode: AddressingMode, register: u8) -> bool {
    match mode {
        AddressingMode::Ariwpo(base) => base == register,
        AddressingMode::Ariwpr(base) => base == register,
        _ => false,
    }
}

/// Whether an addressing mode post-increments or pre-decrements `An`.
pub fn adjusts(mode: AddressingMode, register: u8) -> (r: bool)
    ensures
        r == spec_adjusts(mode, register),
{
    match mode {
        AddressingMode::Ariwpo(base) => base == register,
        AddressingMode::Ariwpr(base) => base == register,
        _ => false,
    }
}

/// Whether any operand post-increments or pre-decrements `An`.
///
/// The side effect belongs to the addressing mode, not to the instruction's
/// destination, so `MOVE.B (A1)+,D0` changes A1 while writing D0. CMPM and the
/// `-(Ay),-(Ax)` forms of ABCD/SBCD/ADDX/SUBX encode their increments as bare
/// register numbers, with no addressing mode to inspect.
pub open spec fn spec_adjusts_base(operands: Operands, register: u8) -> bool {
    match operands {
        Operands::SizeEffectiveAddressEffectiveAddress(_, left, right) => spec_adjusts(left, register)
            || spec_adjusts(right, register),
        Operands::SizeRegisterEffectiveAddress(_, _, mode) => spec_adjusts(mode, register),
        Operands::RegisterEffectiveAddress(_, mode) => spec_adjusts(mode, register),
        Operands::SizeEffectiveAddress(_, mode) => spec_adjusts(mode, register),
        Operands::DirectionEffectiveAddress(_, mode) => spec_adjusts(mode, register),
        Operands::RegisterDirectionSizeEffectiveAddress(_, _, _, mode) => spec_adjusts(mode, register),
        Operands::DataSizeEffectiveAddress(_, _, mode) => spec_adjusts(mode, register),
        Operands::SizeEffectiveAddressImmediate(_, mode, _) => spec_adjusts(mode, register),
        Operands::DirectionSizeEffectiveAddressList(_, _, mode, _) => spec_adjusts(mode, register),
        Operands::EffectiveAddress(mode) => spec_adjusts(mode, register),
        Operands::ConditionEffectiveAddress(_, mode) => spec_adjusts(mode, register),
        Operands::RegisterSizeEffectiveAddress(_, _, mode) => spec_adjusts(mode, register),
        Operands::EffectiveAddressCount(mode, _) => spec_adjusts(mode, register),
        Operands::RegisterSizeRegister(left, _, right) => left == register || right == register,
        Operands::RegisterSizeModeRegister(left, _, direction, right) => direction
            == Direction::MemoryToMemory && (left == register || right == register),
        _ => false,
    }
}

/// Whether any operand post-increments or pre-decrements `An`.
///
/// The side effect belongs to the addressing mode, not to the instruction's
/// destination, so `MOVE.B (A1)+,D0` changes A1 while writing D0. CMPM and the
/// `-(Ay),-(Ax)` forms of ABCD/SBCD/ADDX/SUBX encode their increments as bare
/// register numbers, with no addressing mode to inspect.
pub fn adjusts_base(operands: Operands, register: u8) -> (r: bool)
    ensures
        r == spec_adjusts_base(operands, register),
{
    match operands {
        Operands::SizeEffectiveAddressEffectiveAddress(_, left, right) => adjusts(left, register)
            || adjusts(right, register),
        Operands::SizeRegisterEffectiveAddress(_, _, mode) => adjusts(mode, register),
        Operands::RegisterEffectiveAddress(_, mode) => adjusts(mode, register),
        Operands::SizeEffectiveAddress(_, mode) => adjusts(mode, register),
        Operands::DirectionEffectiveAddress(_, mode) => adjusts(mode, register),
        Operands::RegisterDirectionSizeEffectiveAddress(_, _, _, mode) => adjusts(mode, register),
        Operands::DataSizeEffectiveAddress(_, _, mode) => adjusts(mode, register),
        Operands::SizeEffectiveAddressImmediate(_, mode, _) => adjusts(mode, register),
        Operands::DirectionSizeEffectiveAddressList(_, _, mode, _) => adjusts(mode, register),
        Operands::EffectiveAddress(mode) => adjusts(mode, register),
        Operands::ConditionEffectiveAddress(_, mode) => adjusts(mode, register),
        Operands::RegisterSizeEffectiveAddress(_, _, mode) => adjusts(mode, register),
        Operands::EffectiveAddressCount(mode, _) => adjusts(mode, register),
        Operands::RegisterSizeRegister(left, _, right) => left == register || right == register,
        Operands::RegisterSizeModeRegister(left, _, direction, right) => direction
            == Direction::MemoryToMemory && (left == register || right == register),
        _ => false,
    }
}

/// Whether an instruction is an `EXG` that swaps the register.
///
/// Read from the encoding rather than the decoded operands: the mnemonic covers
/// all three register-pair modes, and the operand form names registers without
/// marking either as written.
pub open spec fn spec_exchanges(instruction: Instruction, kind: RegisterKind, register: u8) -> bool {
    instruction.isa == Isa::Exg && {
        let left = ((instruction.opcode >> 9) & 7) as u8 == register;
        let right = (instruction.opcode & 7) as u8 == register;
        let mode = instruction.opcode & 0x00f8;
        if mode == 0x0040 {
            kind == RegisterKind::Data && (left || right)
        } else if mode == 0x0048 {
            kind == RegisterKind::Address && (left || right)
        } else if mode == 0x0088 {
            kind == RegisterKind::Data && left || kind == RegisterKind::Address && right
        } else {
            false
        }
    }
}

/// Whether an instruction is an `EXG` that swaps the register.
///
/// Read from the encoding rather than the decoded operands: the mnemonic covers
/// all three register-pair modes, and the operand form names registers without
/// marking either as written.
pub fn exchanges(instruction: Instruction, kind: RegisterKind, register: u8) -> (r: bool)
    ensures
        r == spec_exchanges(instruction, kind, register),
{
    instruction.isa == Isa::Exg && {
        let left = ((instruction.opcode >> 9) & 7) as u8 == register;
        let right = (instruction.opcode & 7) as u8 == register;
        let mode = instruction.opcode & 0x00f8;
        if mode == 0x0040 {
            kind == RegisterKind::Data && (left || right)
        } else if mode == 0x0048 {
            kind == RegisterKind::Address && (left || right)
        } else if mode == 0x0088 {
            kind == RegisterKind::Data && left || kind == RegisterKind::Address && right
        } else {
            false
        }
    }
}

/// A write with a value that is not tracked, where there is one.
pub open spec fn spec_unvalued(written: bool) -> Option<RegisterWrite> {
    if written {
        Some(RegisterWrite::Unknown)
    } else {
        None
    }
}

/// A write with a value that is not tracked, where there is one.
pub fn unvalued(written: bool) -> (r: Option<RegisterWrite>)
    ensures
        r == spec_unvalued(written),
{
    if written {
        Some(RegisterWrite::Unknown)
    } else {
        None
    }
}

/// An offset into the analyzed hunk as an absolute address where a mapped
/// origin proves one, and as the analysis' own coordinate otherwise.
pub open spec fn spec_runtime_address(offset: u32, image_origin: Option<u32>) -> Option<u32> {
    match image_origin {
        Some(origin) => origin.checked_add(offset),
        None => Some(offset),
    }
}

/// An offset into the analyzed hunk as an absolute address where a mapped
/// origin proves one, and as the analysis' own coordinate otherwise.
pub fn runtime_address(offset: u32, image_origin: Option<u32>) -> (r: Option<u32>)
    ensures
        r == spec_runtime_address(offset, image_origin),
{
    match image_origin {
        Some(origin) => origin.checked_add(offset),
        None => Some(offset),
    }
}

/// The write of an address, where it is one.
pub open spec fn spec_exact_if_some(address: Option<u32>) -> RegisterWrite {
    match address {
        Some(address) => RegisterWrite::Exact(address),
        None => RegisterWrite::Unknown,
    }
}

/// The write of an address, where it is one.
pub fn exact_if_some(address: Option<u32>) -> (r: RegisterWrite)
    ensures
        r == spec_exact_if_some(address),
{
    match address {
        Some(address) => RegisterWrite::Exact(address),
        None => RegisterWrite::Unknown,
    }
}

/// Whether a relocation patches the longword operand storing `addend`.
pub open spec fn spec_patched(analysis: AnalysisView, decoded: DecodedView, addend: u32) -> bool {
    match spec_operand_address(analysis.relocations, decoded, OperandRole::Source, addend) {
        OperandAddress::Encoded(_) => false,
        _ => true,
    }
}

/// Whether a relocation patches the longword operand storing `addend`.
pub fn patched(
    analysis: &ControlFlowAnalysis,
    decoded: &DecodedInstruction,
    addend: u32,
) -> (r: bool)
    requires
        analysis.wf(),
    ensures
        r == spec_patched(analysis@, decoded@, addend),
{
    match analysis.operand_address(decoded, OperandRole::Source, addend) {
        OperandAddress::Encoded(_) => false,
        _ => true,
    }
}

/// The write establishing an address-bearing longword operand as a value.
pub open spec fn spec_address_operand(
    analysis: AnalysisView,
    image_origin: Option<u32>,
    decoded: DecodedView,
    addend: u32,
) -> RegisterWrite {
    match spec_operand_address(analysis.relocations, decoded, OperandRole::Source, addend) {
        OperandAddress::Encoded(address) => RegisterWrite::Exact(address),
        OperandAddress::ThisHunk(offset) => spec_exact_if_some(spec_runtime_address(offset, image_origin)),
        OperandAddress::OtherHunk { hunk, offset } => RegisterWrite::Symbolic(
            SymbolicSubject::Address,
            SymbolicLocation::HunkRelative { hunk, offset },
        ),
    }
}

/// The write establishing an address-bearing longword operand as a value.
pub fn address_operand(
    analysis: &ControlFlowAnalysis,
    image_origin: Option<u32>,
    decoded: &DecodedInstruction,
    addend: u32,
) -> (r: RegisterWrite)
    requires
        analysis.wf(),
    ensures
        r == spec_address_operand(analysis@, image_origin, decoded@, addend),
{
    match analysis.operand_address(decoded, OperandRole::Source, addend) {
        OperandAddress::Encoded(address) => RegisterWrite::Exact(address),
        OperandAddress::ThisHunk(offset) => exact_if_some(runtime_address(offset, image_origin)),
        OperandAddress::OtherHunk { hunk, offset } => RegisterWrite::Symbolic(
            SymbolicSubject::Address,
            SymbolicLocation::HunkRelative { hunk, offset },
        ),
    }
}

/// An offset into the analyzed hunk, with its runtime address where an origin
/// proves one.
pub open spec fn spec_image_location(offset: u32, image_origin: Option<u32>) -> SymbolicLocation {
    SymbolicLocation::ImageRelative {
        offset,
        runtime_address: match image_origin {
            Some(origin) => origin.checked_add(offset),
            None => None,
        },
    }
}

/// An offset into the analyzed hunk, with its runtime address where an origin
/// proves one.
pub fn image_location(offset: u32, image_origin: Option<u32>) -> (r: SymbolicLocation)
    ensures
        r == spec_image_location(offset, image_origin),
{
    SymbolicLocation::ImageRelative {
        offset,
        runtime_address: match image_origin {
            Some(origin) => origin.checked_add(offset),
            None => None,
        },
    }
}

/// An indexed location. Constant-depth source trees: plain address, optionally
/// indexed, optionally a MOVEM slot. Scale and full-extension bits belong to
/// later processors.
pub open spec fn spec_indexed_memory(site: u32, extension: BriefExtensionWord, base: SymbolicLocation) -> Option<SymbolicLocation> {
    if extension.0 & 0x0700 != 0 {
        None
    } else {
        Some(
            SymbolicLocation::Indexed {
                base: Box::new(base),
                index_address: extension.spec_index_is_address(),
                index_register: extension.spec_index(),
                index_bytes: if extension.spec_index_is_long() {
                    4
                } else {
                    2
                },
                displacement: extension.spec_disp(),
                read_site: site,
            },
        )
    }
}

/// An indexed location. Constant-depth source trees: plain address, optionally
/// indexed, optionally a MOVEM slot. Scale and full-extension bits belong to
/// later processors.
pub fn indexed_memory(site: u32, extension: BriefExtensionWord, base: SymbolicLocation) -> (r: Option<SymbolicLocation>)
    ensures
        r == spec_indexed_memory(site, extension, base),
{
    if extension.0 & 0x0700 != 0 {
        None
    } else {
        Some(
            SymbolicLocation::Indexed {
                base: Box::new(base),
                index_address: extension.index_is_address(),
                index_register: extension.index(),
                index_bytes: if extension.index_is_long() {
                    4
                } else {
                    2
                },
                displacement: extension.disp(),
                read_site: site,
            },
        )
    }
}

/// A stable, non-mutating memory source whose contents can be named without
/// pretending to know the bytes stored there.
pub open spec fn spec_symbolic_memory(
    analysis: AnalysisView,
    image_origin: Option<u32>,
    decoded: DecodedView,
    mode: AddressingMode,
) -> Option<SymbolicLocation> {
    match mode {
        AddressingMode::Ari(register) => Some(
            SymbolicLocation::RegisterRelative { register, displacement: 0 },
        ),
        AddressingMode::Ariwd(register, displacement) => Some(
            SymbolicLocation::RegisterRelative { register, displacement: displacement as i32 },
        ),
        AddressingMode::Ariwpo(register) => Some(
            SymbolicLocation::RegisterPostincrement { register, site: decoded.address },
        ),
        AddressingMode::Ariwpr(register) => Some(
            SymbolicLocation::RegisterPredecrement { register, site: decoded.address },
        ),
        AddressingMode::AbsShort(address) => Some(
            SymbolicLocation::Absolute { address: spec_sign_extend_word(address) },
        ),
        AddressingMode::AbsLong(address) => Some(
            match spec_operand_address(analysis.relocations, decoded, OperandRole::Source, address) {
                OperandAddress::Encoded(address) => SymbolicLocation::Absolute { address },
                OperandAddress::ThisHunk(offset) => spec_image_location(offset, image_origin),
                OperandAddress::OtherHunk { hunk, offset } => SymbolicLocation::HunkRelative {
                    hunk,
                    offset,
                },
            },
        ),
        AddressingMode::Pciwd(pc, displacement) => match pc.checked_add_signed(
            displacement as i32,
        ) {
            Some(offset) => Some(spec_image_location(offset, image_origin)),
            None => None,
        },
        AddressingMode::Ariwi8(register, extension) => spec_indexed_memory(
            decoded.address,
            extension,
            SymbolicLocation::RegisterRelative { register, displacement: 0 },
        ),
        AddressingMode::Pciwi8(pc, extension) => spec_indexed_memory(
            decoded.address,
            extension,
            spec_image_location(pc, image_origin),
        ),
        AddressingMode::Drd(_) | AddressingMode::Ard(_) | AddressingMode::Immediate(_) => None,
    }
}

/// A stable, non-mutating memory source whose contents can be named without
/// pretending to know the bytes stored there.
pub fn symbolic_memory(
    analysis: &ControlFlowAnalysis,
    image_origin: Option<u32>,
    decoded: &DecodedInstruction,
    mode: AddressingMode,
) -> (r: Option<SymbolicLocation>)
    requires
        analysis.wf(),
    ensures
        r == spec_symbolic_memory(analysis@, image_origin, decoded@, mode),
{
    match mode {
        AddressingMode::Ari(register) => Some(
            SymbolicLocation::RegisterRelative { register, displacement: 0 },
        ),
        AddressingMode::Ariwd(register, displacement) => Some(
            SymbolicLocation::RegisterRelative { register, displacement: displacement as i32 },
        ),
        AddressingMode::Ariwpo(register) => Some(
            SymbolicLocation::RegisterPostincrement { register, site: decoded.address },
        ),
        AddressingMode::Ariwpr(register) => Some(
            SymbolicLocation::RegisterPredecrement { register, site: decoded.address },
        ),
        AddressingMode::AbsShort(address) => Some(
            SymbolicLocation::Absolute { address: sign_extend_word(address) },
        ),
        AddressingMode::AbsLong(address) => Some(
            match analysis.operand_address(decoded, OperandRole::Source, address) {
                OperandAddress::Encoded(address) => SymbolicLocation::Absolute { address },
                OperandAddress::ThisHunk(offset) => image_location(offset, image_origin),
                OperandAddress::OtherHunk { hunk, offset } => SymbolicLocation::HunkRelative {
                    hunk,
                    offset,
                },
            },
        ),
        AddressingMode::Pciwd(pc, displacement) => match pc.checked_add_signed(
            displacement as i32,
        ) {
            Some(offset) => Some(image_location(offset, image_origin)),
            None => None,
        },
        AddressingMode::Ariwi8(register, extension) => indexed_memory(
            decoded.address,
            extension,
            SymbolicLocation::RegisterRelative { register, displacement: 0 },
        ),
        AddressingMode::Pciwi8(pc, extension) => indexed_memory(
            decoded.address,
            extension,
            image_location(pc, image_origin),
        ),
        AddressingMode::Drd(_) | AddressingMode::Ard(_) | AddressingMode::Immediate(_) => None,
    }
}

/// A symbolic write, where the location can be named.
pub open spec fn spec_symbolic_if_some(subject: SymbolicSubject, location: Option<SymbolicLocation>) -> RegisterWrite {
    match location {
        Some(location) => RegisterWrite::Symbolic(subject, location),
        None => RegisterWrite::Unknown,
    }
}

/// A symbolic write, where the location can be named.
pub fn symbolic_if_some(subject: SymbolicSubject, location: Option<SymbolicLocation>) -> (r: RegisterWrite)
    ensures
        r == spec_symbolic_if_some(subject, location),
{
    match location {
        Some(location) => RegisterWrite::Symbolic(subject, location),
        None => RegisterWrite::Unknown,
    }
}

/// The write of a longword source.
pub open spec fn spec_long_source(
    analysis: AnalysisView,
    image_origin: Option<u32>,
    decoded: DecodedView,
    source: AddressingMode,
) -> RegisterWrite {
    match source {
        AddressingMode::Immediate(immediate) => spec_address_operand(
            analysis,
            image_origin,
            decoded,
            immediate,
        ),
        AddressingMode::Drd(register) => RegisterWrite::Copy(RegisterKind::Data, register),
        AddressingMode::Ard(register) => RegisterWrite::Copy(RegisterKind::Address, register),
        _ => spec_symbolic_if_some(
            SymbolicSubject::Contents,
            spec_symbolic_memory(analysis, image_origin, decoded, source),
        ),
    }
}

/// The write of a longword source.
pub fn long_source(
    analysis: &ControlFlowAnalysis,
    image_origin: Option<u32>,
    decoded: &DecodedInstruction,
    source: AddressingMode,
) -> (r: RegisterWrite)
    requires
        analysis.wf(),
        source.in_range(),
    ensures
        r == spec_long_source(analysis@, image_origin, decoded@, source),
        r matches RegisterWrite::Copy(_, register) ==> register < 8,
{
    match source {
        AddressingMode::Immediate(immediate) => address_operand(
            analysis,
            image_origin,
            decoded,
            immediate,
        ),
        AddressingMode::Drd(register) => RegisterWrite::Copy(RegisterKind::Data, register),
        AddressingMode::Ard(register) => RegisterWrite::Copy(RegisterKind::Address, register),
        _ => symbolic_if_some(
            SymbolicSubject::Contents,
            symbolic_memory(analysis, image_origin, decoded, source),
        ),
    }
}

/// `MOVE <ea>,<ea>` to a register: a longword immediate establishes it, a direct
/// memory source establishes a symbolic read, and a narrower data-register write
/// leaves part of its previous value in place.
pub open spec fn spec_move_write(
    analysis: AnalysisView,
    image_origin: Option<u32>,
    decoded: DecodedView,
    size: Size,
    source: AddressingMode,
    register: u8,
) -> RegisterWrite {
    if size == Size::Long {
        spec_long_source(analysis, image_origin, decoded, source)
    } else {
        spec_symbolic_if_some(
            SymbolicSubject::PreserveHigh {
                register,
                read_site: decoded.address,
                low_bytes: if size == Size::Byte {
                    1
                } else {
                    2
                },
            },
            spec_symbolic_memory(analysis, image_origin, decoded, source),
        )
    }
}

/// `MOVE <ea>,<ea>` to a register: a longword immediate establishes it, a direct
/// memory source establishes a symbolic read, and a narrower data-register write
/// leaves part of its previous value in place.
pub fn move_write(
    analysis: &ControlFlowAnalysis,
    image_origin: Option<u32>,
    decoded: &DecodedInstruction,
    size: Size,
    source: AddressingMode,
    register: u8,
) -> (r: RegisterWrite)
    requires
        analysis.wf(),
        source.in_range(),
    ensures
        r == spec_move_write(analysis@, image_origin, decoded@, size, source, register),
        r matches RegisterWrite::Copy(_, register) ==> register < 8,
{
    if size == Size::Long {
        long_source(analysis, image_origin, decoded, source)
    } else {
        symbolic_if_some(
            SymbolicSubject::PreserveHigh {
                register,
                read_site: decoded.address,
                low_bytes: if size == Size::Byte {
                    1
                } else {
                    2
                },
            },
            symbolic_memory(analysis, image_origin, decoded, source),
        )
    }
}

/// `MOVEA <ea>,An`. The word form sign-extends into the whole register.
pub open spec fn spec_movea_write(
    analysis: AnalysisView,
    image_origin: Option<u32>,
    decoded: DecodedView,
    size: Size,
    source: AddressingMode,
) -> RegisterWrite {
    if size == Size::Long {
        spec_long_source(analysis, image_origin, decoded, source)
    } else {
        match source {
            AddressingMode::Immediate(immediate) => RegisterWrite::Exact(
                spec_sign_extend_word(immediate as u16),
            ),
            _ => spec_symbolic_if_some(
                SymbolicSubject::SignExtendedWord,
                spec_symbolic_memory(analysis, image_origin, decoded, source),
            ),
        }
    }
}

/// `MOVEA <ea>,An`. The word form sign-extends into the whole register.
pub fn movea_write(
    analysis: &ControlFlowAnalysis,
    image_origin: Option<u32>,
    decoded: &DecodedInstruction,
    size: Size,
    source: AddressingMode,
) -> (r: RegisterWrite)
    requires
        analysis.wf(),
        source.in_range(),
    ensures
        r == spec_movea_write(analysis@, image_origin, decoded@, size, source),
        r matches RegisterWrite::Copy(_, register) ==> register < 8,
{
    if size == Size::Long {
        long_source(analysis, image_origin, decoded, source)
    } else {
        match source {
            AddressingMode::Immediate(immediate) => RegisterWrite::Exact(
                sign_extend_word(immediate as u16),
            ),
            _ => symbolic_if_some(
                SymbolicSubject::SignExtendedWord,
                symbolic_memory(analysis, image_origin, decoded, source),
            ),
        }
    }
}

/// `LEA <ea>,An`: an absolute address is a constant; anything computed is not.
/// The short form sign-extends.
pub open spec fn spec_lea_write(
    analysis: AnalysisView,
    image_origin: Option<u32>,
    decoded: DecodedView,
    source: AddressingMode,
) -> RegisterWrite {
    match source {
        AddressingMode::AbsShort(address) => RegisterWrite::Exact(spec_sign_extend_word(address)),
        AddressingMode::AbsLong(address) => spec_address_operand(
            analysis,
            image_origin,
            decoded,
            address,
        ),
        AddressingMode::Pciwd(pc, displacement) => match pc.checked_add_signed(
            displacement as i32,
        ) {
            Some(offset) => spec_exact_if_some(spec_runtime_address(offset, image_origin)),
            None => RegisterWrite::Unknown,
        },
        _ => RegisterWrite::Unknown,
    }
}

/// `LEA <ea>,An`: an absolute address is a constant; anything computed is not.
/// The short form sign-extends.
pub fn lea_write(
    analysis: &ControlFlowAnalysis,
    image_origin: Option<u32>,
    decoded: &DecodedInstruction,
    source: AddressingMode,
) -> (r: RegisterWrite)
    requires
        analysis.wf(),
    ensures
        r == spec_lea_write(analysis@, image_origin, decoded@, source),
{
    match source {
        AddressingMode::AbsShort(address) => RegisterWrite::Exact(sign_extend_word(address)),
        AddressingMode::AbsLong(address) => address_operand(
            analysis,
            image_origin,
            decoded,
            address,
        ),
        AddressingMode::Pciwd(pc, displacement) => match pc.checked_add_signed(
            displacement as i32,
        ) {
            Some(offset) => exact_if_some(runtime_address(offset, image_origin)),
            None => RegisterWrite::Unknown,
        },
        _ => RegisterWrite::Unknown,
    }
}

/// `CLR`, `NEG` and `NOT` of a whole data register.
pub open spec fn spec_unary_write(isa: Isa, size: Size, kind: RegisterKind) -> RegisterWrite {
    if size != Size::Long || kind != RegisterKind::Data {
        RegisterWrite::Unknown
    } else {
        match isa {
            Isa::Clr => RegisterWrite::Exact(0),
            Isa::Neg => RegisterWrite::Transform(ExactOperation::Negate),
            Isa::Not => RegisterWrite::Transform(ExactOperation::Not),
            _ => RegisterWrite::Unknown,
        }
    }
}

/// `CLR`, `NEG` and `NOT` of a whole data register.
pub fn unary_write(isa: Isa, size: Size, kind: RegisterKind) -> (r: RegisterWrite)
    ensures
        r == spec_unary_write(isa, size, kind),
{
    if size != Size::Long || kind != RegisterKind::Data {
        RegisterWrite::Unknown
    } else {
        match isa {
            Isa::Clr => RegisterWrite::Exact(0),
            Isa::Neg => RegisterWrite::Transform(ExactOperation::Negate),
            Isa::Not => RegisterWrite::Transform(ExactOperation::Not),
            _ => RegisterWrite::Unknown,
        }
    }
}

/// Immediate arithmetic on a whole data register. A relocation patching the
/// immediate makes the amount an address in a frame this arithmetic cannot add.
pub open spec fn spec_immediate_write(
    analysis: AnalysisView,
    decoded: DecodedView,
    size: Size,
    kind: RegisterKind,
    immediate: u32,
) -> RegisterWrite {
    if kind != RegisterKind::Data || size != Size::Long || spec_patched(analysis, decoded, immediate) {
        RegisterWrite::Unknown
    } else {
        match decoded.instruction.isa {
            Isa::Addi => RegisterWrite::Transform(ExactOperation::Add(immediate)),
            Isa::Subi => RegisterWrite::Transform(ExactOperation::Subtract(immediate)),
            Isa::Andi => RegisterWrite::Transform(ExactOperation::And(immediate)),
            Isa::Ori => RegisterWrite::Transform(ExactOperation::Or(immediate)),
            Isa::Eori => RegisterWrite::Transform(ExactOperation::ExclusiveOr(immediate)),
            _ => RegisterWrite::Unknown,
        }
    }
}

/// Immediate arithmetic on a whole data register. A relocation patching the
/// immediate makes the amount an address in a frame this arithmetic cannot add.
pub fn immediate_write(
    analysis: &ControlFlowAnalysis,
    decoded: &DecodedInstruction,
    size: Size,
    kind: RegisterKind,
    immediate: u32,
) -> (r: RegisterWrite)
    requires
        analysis.wf(),
    ensures
        r == spec_immediate_write(analysis@, decoded@, size, kind, immediate),
{
    if kind != RegisterKind::Data || size != Size::Long || patched(analysis, decoded, immediate) {
        RegisterWrite::Unknown
    } else {
        match decoded.instruction.isa {
            Isa::Addi => RegisterWrite::Transform(ExactOperation::Add(immediate)),
            Isa::Subi => RegisterWrite::Transform(ExactOperation::Subtract(immediate)),
            Isa::Andi => RegisterWrite::Transform(ExactOperation::And(immediate)),
            Isa::Ori => RegisterWrite::Transform(ExactOperation::Or(immediate)),
            Isa::Eori => RegisterWrite::Transform(ExactOperation::ExclusiveOr(immediate)),
            _ => RegisterWrite::Unknown,
        }
    }
}

/// `ADDQ` and `SUBQ`.
pub open spec fn spec_quick_write(isa: Isa, size: Size, kind: RegisterKind, amount: u8) -> RegisterWrite {
    if kind == RegisterKind::Data && size != Size::Long {
        RegisterWrite::Unknown
    } else {
        match isa {
            Isa::Addq => RegisterWrite::Transform(ExactOperation::Add(spec_quick_amount(amount))),
            Isa::Subq => RegisterWrite::Transform(ExactOperation::Subtract(spec_quick_amount(amount))),
            _ => RegisterWrite::Unknown,
        }
    }
}

/// `ADDQ` and `SUBQ`.
pub fn quick_write(isa: Isa, size: Size, kind: RegisterKind, amount: u8) -> (r: RegisterWrite)
    ensures
        r == spec_quick_write(isa, size, kind, amount),
{
    if kind == RegisterKind::Data && size != Size::Long {
        RegisterWrite::Unknown
    } else {
        match isa {
            Isa::Addq => RegisterWrite::Transform(ExactOperation::Add(quick_amount(amount))),
            Isa::Subq => RegisterWrite::Transform(ExactOperation::Subtract(quick_amount(amount))),
            _ => RegisterWrite::Unknown,
        }
    }
}

/// The amount that an immediate of address arithmetic gives: a word is
/// sign-extended.
pub open spec fn spec_address_amount(size: Size, value: u32) -> u32 {
    if size == Size::Word {
        spec_sign_extend_word(value as u16)
    } else {
        value
    }
}

/// The amount that an immediate of address arithmetic gives: a word is
/// sign-extended.
pub fn address_amount(size: Size, value: u32) -> (r: u32)
    ensures
        r == spec_address_amount(size, value),
{
    if size == Size::Word {
        sign_extend_word(value as u16)
    } else {
        value
    }
}

/// `ADDA` and `SUBA`; for `CMPA`, over-approximating a compare only loses
/// precision. A patched immediate is an address, not an amount.
pub open spec fn spec_address_arithmetic(
    analysis: AnalysisView,
    decoded: DecodedView,
    size: Size,
    source: AddressingMode,
) -> RegisterWrite {
    match source {
        AddressingMode::Immediate(immediate) => if size == Size::Long && spec_patched(
            analysis,
            decoded,
            immediate,
        ) {
            RegisterWrite::Unknown
        } else {
            match decoded.instruction.isa {
                Isa::Adda => RegisterWrite::Transform(
                    ExactOperation::Add(spec_address_amount(size, immediate)),
                ),
                Isa::Suba => RegisterWrite::Transform(
                    ExactOperation::Subtract(spec_address_amount(size, immediate)),
                ),
                _ => RegisterWrite::Unknown,
            }
        },
        _ => RegisterWrite::Unknown,
    }
}

/// `ADDA` and `SUBA`; for `CMPA`, over-approximating a compare only loses
/// precision. A patched immediate is an address, not an amount.
pub fn address_arithmetic(
    analysis: &ControlFlowAnalysis,
    decoded: &DecodedInstruction,
    size: Size,
    source: AddressingMode,
) -> (r: RegisterWrite)
    requires
        analysis.wf(),
    ensures
        r == spec_address_arithmetic(analysis@, decoded@, size, source),
{
    match source {
        AddressingMode::Immediate(immediate) => if size == Size::Long && patched(
            analysis,
            decoded,
            immediate,
        ) {
            RegisterWrite::Unknown
        } else {
            match decoded.instruction.isa {
                Isa::Adda => RegisterWrite::Transform(
                    ExactOperation::Add(address_amount(size, immediate)),
                ),
                Isa::Suba => RegisterWrite::Transform(
                    ExactOperation::Subtract(address_amount(size, immediate)),
                ),
                _ => RegisterWrite::Unknown,
            }
        },
        _ => RegisterWrite::Unknown,
    }
}

/// What a memory-to-register `MOVEM` loads into a register of its list.
/// Predecrement and register-direct loads are not valid sources.
pub open spec fn spec_movem_write(
    analysis: AnalysisView,
    image_origin: Option<u32>,
    decoded: DecodedView,
    size: Size,
    source: AddressingMode,
    list: u16,
    bit: u16,
) -> RegisterWrite {
    match source {
        AddressingMode::Ariwpr(_) => RegisterWrite::Unknown,
        _ => match spec_symbolic_memory(analysis, image_origin, decoded, source) {
            Some(base) => RegisterWrite::Symbolic(
                if size == Size::Long {
                    SymbolicSubject::Contents
                } else {
                    SymbolicSubject::SignExtendedWord
                },
                SymbolicLocation::MovemSlot {
                    base: Box::new(base),
                    byte_offset: (spec_bits_below(list, bit) * spec_slot_bytes(size)) as u32,
                    read_site: decoded.address,
                },
            ),
            None => RegisterWrite::Unknown,
        },
    }
}

/// What a memory-to-register `MOVEM` loads into a register of its list.
/// Predecrement and register-direct loads are not valid sources.
pub fn movem_write(
    analysis: &ControlFlowAnalysis,
    image_origin: Option<u32>,
    decoded: &DecodedInstruction,
    size: Size,
    source: AddressingMode,
    list: u16,
    bit: u16,
) -> (r: RegisterWrite)
    requires
        analysis.wf(),
        bit < 16,
    ensures
        r == spec_movem_write(analysis@, image_origin, decoded@, size, source, list, bit),
{
    match source {
        AddressingMode::Ariwpr(_) => RegisterWrite::Unknown,
        _ => match symbolic_memory(analysis, image_origin, decoded, source) {
            Some(base) => RegisterWrite::Symbolic(
                if size == Size::Long {
                    SymbolicSubject::Contents
                } else {
                    SymbolicSubject::SignExtendedWord
                },
                SymbolicLocation::MovemSlot {
                    base: Box::new(base),
                    byte_offset: (bits_below(list, bit) * slot_bytes(size)) as u32,
                    read_site: decoded.address,
                },
            ),
            None => RegisterWrite::Unknown,
        },
    }
}

/// What the operands of an instruction say it writes to a register.
///
/// Every operand form is named: a form left out would read as "leaves the
/// register alone", and preserve a stale value as current.
pub open spec fn spec_operand_write(
    analysis: AnalysisView,
    image_origin: Option<u32>,
    decoded: DecodedView,
    kind: RegisterKind,
    register: u8,
) -> Option<RegisterWrite> {
    let isa = decoded.instruction.isa;
    let is_data = kind == RegisterKind::Data;
    let is_address = kind == RegisterKind::Address;
    let target = spec_direct_mode(kind, register);
    match decoded.instruction.operands {
        // MOVEQ #n,Dn: sign-extended into the whole register.
        Operands::RegisterData(destination, immediate) => if is_data && destination == register {
            Some(RegisterWrite::Exact(immediate as i32 as u32))
        } else {
            None
        },
        Operands::SizeEffectiveAddressEffectiveAddress(size, destination, source) =>
        if destination == target {
            Some(spec_move_write(analysis, image_origin, decoded, size, source, register))
        } else {
            None
        },
        Operands::SizeRegisterEffectiveAddress(size, destination, source) => if is_address
            && destination == register {
            Some(spec_movea_write(analysis, image_origin, decoded, size, source))
        } else {
            None
        },
        // MULS/MULU/DIVS/DIVU and CHK share the form of LEA and write the named
        // data register.
        Operands::RegisterEffectiveAddress(destination, source) => if isa == Isa::Lea {
            if is_address && destination == register {
                Some(spec_lea_write(analysis, image_origin, decoded, source))
            } else {
                None
            }
        } else {
            spec_unvalued(is_data && destination == register)
        },
        Operands::OpmodeRegister(_, destination) => spec_unvalued(is_data && destination == register),
        // SWAP writes a data register; UNLK an address register.
        Operands::Register(destination) => spec_unvalued(
            destination == register && (is_data || isa != Isa::Swap),
        ),
        Operands::DirectionRegister(_, destination) => spec_unvalued(
            is_address && destination == register,
        ),
        Operands::EffectiveAddressCount(destination, _) => spec_unvalued(
            isa != Isa::Btst && destination == target,
        ),
        Operands::ConditionEffectiveAddress(_, destination) => spec_unvalued(destination == target),
        // DBcc decrements its counter.
        Operands::ConditionRegisterDisplacement(_, counter, _) => spec_unvalued(
            is_data && counter == register,
        ),
        // ABCD/SBCD/ADDX/SUBX: the register form writes a data register.
        Operands::RegisterSizeModeRegister(destination, _, direction, _) => spec_unvalued(
            direction == Direction::RegisterToRegister && is_data && destination == register,
        ),
        Operands::RegisterSizeRegister(_, _, _) => None,
        // MOVEP moves between memory and a data register.
        Operands::RegisterDirectionSizeRegisterDisplacement(data_register, direction, _, _, _) =>
        spec_unvalued(direction == Direction::MemoryToRegister && is_data && data_register == register),
        // CLR/NEG/NOT write their operand; TST reads it.
        Operands::SizeEffectiveAddress(size, destination) => if isa != Isa::Tst && destination
            == target {
            Some(spec_unary_write(isa, size, kind))
        } else {
            None
        },
        Operands::EffectiveAddress(destination) => spec_unvalued(destination == target),
        // Immediate arithmetic; CMPI only reads.
        Operands::SizeEffectiveAddressImmediate(size, destination, immediate) => if isa
            != Isa::Cmpi && destination == target {
            Some(spec_immediate_write(analysis, decoded, size, kind, immediate))
        } else {
            None
        },
        Operands::DataSizeEffectiveAddress(amount, size, destination) => if destination == target {
            Some(spec_quick_write(isa, size, kind, amount))
        } else {
            None
        },
        // Register arithmetic: one side or the other.
        Operands::RegisterDirectionSizeEffectiveAddress(source, direction, _, destination) =>
        if direction == Direction::DstEa {
            spec_unvalued(destination == target)
        } else {
            spec_unvalued(is_data && source == register)
        },
        Operands::RegisterSizeEffectiveAddress(destination, size, source) => if is_address
            && destination == register {
            Some(spec_address_arithmetic(analysis, decoded, size, source))
        } else {
            None
        },
        Operands::RegisterDisplacement(destination, _) => spec_unvalued(
            is_address && destination == register,
        ),
        Operands::RotationDirectionSizeModeRegister(_, _, _, _, destination) => spec_unvalued(
            is_data && destination == register,
        ),
        // MOVEM memory-to-register: bit 0 = D0 to bit 15 = A7.
        Operands::DirectionSizeEffectiveAddressList(direction, size, source, list) => if direction
            == Direction::MemoryToRegister && spec_listed(list, spec_list_bit(kind, register)) {
            Some(
                spec_movem_write(
                    analysis,
                    image_origin,
                    decoded,
                    size,
                    source,
                    list,
                    spec_list_bit(kind, register),
                ),
            )
        } else {
            None
        },
        Operands::DirectionEffectiveAddress(_, destination) => spec_unvalued(destination == target),
        Operands::RegisterOpmodeRegister(destination, direction, _) => spec_unvalued(
            direction != Direction::RegisterToMemory && is_data && destination == register,
        ),
        Operands::NoOperands
        | Operands::Immediate(_)
        | Operands::Vector(_)
        | Operands::Displacement(_)
        | Operands::ConditionDisplacement(_, _) => None,
    }
}

/// What the operands of an instruction say it writes to a register.
///
/// Every operand form is named: a form left out would read as "leaves the
/// register alone", and preserve a stale value as current.
pub fn operand_write(
    analysis: &ControlFlowAnalysis,
    image_origin: Option<u32>,
    decoded: &DecodedInstruction,
    kind: RegisterKind,
    register: u8,
) -> (r: Option<RegisterWrite>)
    requires
        analysis.wf(),
        decoded.wf(),
        register < 8,
    ensures
        r == spec_operand_write(analysis@, image_origin, decoded@, kind, register),
        r matches Some(RegisterWrite::Copy(_, register)) ==> register < 8,
{
    let isa = decoded.instruction.isa;
    let is_data = kind == RegisterKind::Data;
    let is_address = kind == RegisterKind::Address;
    let target = direct_mode(kind, register);
    match decoded.instruction.operands {
        // MOVEQ #n,Dn: sign-extended into the whole register.
        Operands::RegisterData(destination, immediate) => if is_data && destination == register {
            Some(RegisterWrite::Exact(immediate as i32 as u32))
        } else {
            None
        },
        Operands::SizeEffectiveAddressEffectiveAddress(size, destination, source) =>
        if destination == target {
            Some(move_write(analysis, image_origin, decoded, size, source, register))
        } else {
            None
        },
        Operands::SizeRegisterEffectiveAddress(size, destination, source) => if is_address
            && destination == register {
            Some(movea_write(analysis, image_origin, decoded, size, source))
        } else {
            None
        },
        // MULS/MULU/DIVS/DIVU and CHK share the form of LEA and write the named
        // data register.
        Operands::RegisterEffectiveAddress(destination, source) => if isa == Isa::Lea {
            if is_address && destination == register {
                Some(lea_write(analysis, image_origin, decoded, source))
            } else {
                None
            }
        } else {
            unvalued(is_data && destination == register)
        },
        Operands::OpmodeRegister(_, destination) => unvalued(is_data && destination == register),
        // SWAP writes a data register; UNLK an address register.
        Operands::Register(destination) => unvalued(
            destination == register && (is_data || isa != Isa::Swap),
        ),
        Operands::DirectionRegister(_, destination) => unvalued(
            is_address && destination == register,
        ),
        Operands::EffectiveAddressCount(destination, _) => unvalued(
            isa != Isa::Btst && destination == target,
        ),
        Operands::ConditionEffectiveAddress(_, destination) => unvalued(destination == target),
        // DBcc decrements its counter.
        Operands::ConditionRegisterDisplacement(_, counter, _) => unvalued(
            is_data && counter == register,
        ),
        // ABCD/SBCD/ADDX/SUBX: the register form writes a data register.
        Operands::RegisterSizeModeRegister(destination, _, direction, _) => unvalued(
            direction == Direction::RegisterToRegister && is_data && destination == register,
        ),
        Operands::RegisterSizeRegister(_, _, _) => None,
        // MOVEP moves between memory and a data register.
        Operands::RegisterDirectionSizeRegisterDisplacement(data_register, direction, _, _, _) =>
        unvalued(direction == Direction::MemoryToRegister && is_data && data_register == register),
        // CLR/NEG/NOT write their operand; TST reads it.
        Operands::SizeEffectiveAddress(size, destination) => if isa != Isa::Tst && destination
            == target {
            Some(unary_write(isa, size, kind))
        } else {
            None
        },
        Operands::EffectiveAddress(destination) => unvalued(destination == target),
        // Immediate arithmetic; CMPI only reads.
        Operands::SizeEffectiveAddressImmediate(size, destination, immediate) => if isa
            != Isa::Cmpi && destination == target {
            Some(immediate_write(analysis, decoded, size, kind, immediate))
        } else {
            None
        },
        Operands::DataSizeEffectiveAddress(amount, size, destination) => if destination == target {
            Some(quick_write(isa, size, kind, amount))
        } else {
            None
        },
        // Register arithmetic: one side or the other.
        Operands::RegisterDirectionSizeEffectiveAddress(source, direction, _, destination) =>
        if direction == Direction::DstEa {
            unvalued(destination == target)
        } else {
            unvalued(is_data && source == register)
        },
        Operands::RegisterSizeEffectiveAddress(destination, size, source) => if is_address
            && destination == register {
            Some(address_arithmetic(analysis, decoded, size, source))
        } else {
            None
        },
        Operands::RegisterDisplacement(destination, _) => unvalued(
            is_address && destination == register,
        ),
        Operands::RotationDirectionSizeModeRegister(_, _, _, _, destination) => unvalued(
            is_data && destination == register,
        ),
        // MOVEM memory-to-register: bit 0 = D0 to bit 15 = A7.
        Operands::DirectionSizeEffectiveAddressList(direction, size, source, list) => if direction
            == Direction::MemoryToRegister && listed(list, list_bit(kind, register)) {
            Some(
                movem_write(
                    analysis,
                    image_origin,
                    decoded,
                    size,
                    source,
                    list,
                    list_bit(kind, register),
                ),
            )
        } else {
            None
        },
        Operands::DirectionEffectiveAddress(_, destination) => unvalued(destination == target),
        Operands::RegisterOpmodeRegister(destination, direction, _) => unvalued(
            direction != Direction::RegisterToMemory && is_data && destination == register,
        ),
        Operands::NoOperands
        | Operands::Immediate(_)
        | Operands::Vector(_)
        | Operands::Displacement(_)
        | Operands::ConditionDisplacement(_, _) => None,
    }
}

/// What `decoded` writes to a register.
///
/// An addressing mode that increments or decrements its base changes that
/// register as a side effect, wherever in the instruction it appears. EXG swaps
/// two registers, so both hold something this tracker cannot value.
pub open spec fn spec_register_write(
    analysis: AnalysisView,
    image_origin: Option<u32>,
    decoded: DecodedView,
    kind: RegisterKind,
    register: u8,
) -> Option<RegisterWrite> {
    match spec_movem_base_step(decoded.instruction.operands, kind, register) {
        Some(amount) => Some(RegisterWrite::Transform(ExactOperation::Add(amount))),
        None => if kind == RegisterKind::Address && spec_adjusts_base(
            decoded.instruction.operands,
            register,
        ) || spec_exchanges(decoded.instruction, kind, register) {
            Some(RegisterWrite::Unknown)
        } else {
            spec_operand_write(analysis, image_origin, decoded, kind, register)
        },
    }
}

/// What `decoded` writes to a register.
///
/// An addressing mode that increments or decrements its base changes that
/// register as a side effect, wherever in the instruction it appears. EXG swaps
/// two registers, so both hold something this tracker cannot value.
pub fn register_write(
    analysis: &ControlFlowAnalysis,
    image_origin: Option<u32>,
    decoded: &DecodedInstruction,
    kind: RegisterKind,
    register: u8,
) -> (r: Option<RegisterWrite>)
    requires
        analysis.wf(),
        decoded.wf(),
        register < 8,
    ensures
        r == spec_register_write(analysis@, image_origin, decoded@, kind, register),
        r matches Some(RegisterWrite::Copy(_, register)) ==> register < 8,
{
    match movem_base_step(decoded.instruction.operands, kind, register) {
        Some(amount) => Some(RegisterWrite::Transform(ExactOperation::Add(amount))),
        None => if kind == RegisterKind::Address && adjusts_base(
            decoded.instruction.operands,
            register,
        ) || exchanges(decoded.instruction, kind, register) {
            Some(RegisterWrite::Unknown)
        } else {
            operand_write(analysis, image_origin, decoded, kind, register)
        },
    }
}

/// Whether a register list is moved to or from memory.
pub open spec fn lists_memory(operands: Operands) -> bool {
    operands matches Operands::DirectionSizeEffectiveAddressList(_, _, mode, _) ==> !(mode is Drd)
        && !(mode is Ard)
}

/// Every register whose lanes an instruction writes is one that it is known to write: a
/// form left out would preserve a stale value as current. The stack pointer is left
/// out, which calls and frames move besides, and EXG, whose registers are read from its
/// encoding.
pub proof fn written_registers_are_noticed(
    analysis: AnalysisView,
    image_origin: Option<u32>,
    decoded: DecodedView,
    kind: RegisterKind,
    register: u8,
)
    requires
        register < 8,
        spec_list_bit(kind, register) < 15,
        decoded.instruction.operands.in_range(),
        lists_memory(decoded.instruction.operands),
        decoded.instruction.isa.takes(decoded.instruction.operands),
        decoded.instruction.isa != Isa::Exg,
        touches(
            spec_operand_effects(decoded.instruction).writes,
            spec_list_bit(kind, register) as u8,
        ),
    ensures
        spec_register_write(analysis, image_origin, decoded, kind, register) is Some,
{
    effects_write_operands_only(decoded.instruction, spec_list_bit(kind, register) as u8);
}

} // verus!
