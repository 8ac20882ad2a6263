//! One decoded instruction: its bytes, its owners, and where its operands lie.

use crate::collections::OrderedSet;
use crate::globals::AccessKind;
use crate::m68k::{
    consumed, disassemble, disassembly, isa_of_opcode, opcode_isa, read_instruction,
    spec_read_instruction, AddressingMode, Instruction, Isa, Operands, Size,
};
use crate::text::{append_decimal, decimal};
use vstd::prelude::*;
use vstd::string::*;

verus! {

/// How many owners one instruction records before propagation stops.
///
/// Ownership costs one traversal per `(instruction, owner)` pair, so code that
/// every entry in a large executable falls into would otherwise be walked once
/// per entry.
pub const MAX_INSTRUCTION_OWNERS: usize = 64;

/// A decoded instruction and the set of function entries that reach it.
#[derive(Debug)]
pub struct DecodedInstruction {
    pub address: u32,
    pub end: u32,
    pub instruction: Instruction,
    pub encoded: Vec<u8>,
    /// Entries whose traversal reached this instruction, capped at
    /// [`MAX_INSTRUCTION_OWNERS`].
    pub owners: OrderedSet<u32>,
    /// Distinct owners that arrived here, counting those the cap refused, so a
    /// capped set never reads as a complete one.
    ///
    /// Beyond the cap this is a lower bound: a refused owner stops walking, so
    /// instructions further along the block never see it. `owner_total >
    /// owners.len()` is the signal that ownership was truncated.
    pub owner_total: usize,
}

/// A decoded instruction as a mathematical value.
#[verifier::ext_equal]
pub struct DecodedView {
    pub address: u32,
    pub end: u32,
    pub instruction: Instruction,
    pub encoded: Seq<u8>,
    pub owners: Set<u32>,
    pub owner_total: usize,
}

impl View for DecodedInstruction {
    type V = DecodedView;

    open spec fn view(&self) -> DecodedView {
        DecodedView {
            address: self.address,
            end: self.end,
            instruction: self.instruction,
            encoded: self.encoded@,
            owners: self.owners@,
            owner_total: self.owner_total,
        }
    }
}

/// Which encoded operand a consumer is resolving. MC68000 `MOVE` is the only
/// ordinary form with two arbitrary effective addresses; naming the role keeps
/// equal source and destination addends distinct.
#[derive(Clone, Copy, Debug, PartialEq, Eq, Structural)]
pub enum OperandRole {
    Source,
    Destination,
    /// The instruction has one effective-address operand.
    Only,
}

impl OperandRole {
    /// The encoded operand responsible for one classified access.
    pub open spec fn spec_for_access(operands: Operands, access: AccessKind) -> OperandRole {
        match operands {
            Operands::SizeEffectiveAddressEffectiveAddress(_, _, _) => match access {
                AccessKind::Read => OperandRole::Source,
                AccessKind::Write => OperandRole::Destination,
                _ => OperandRole::Only,
            },
            Operands::SizeEffectiveAddressImmediate(_, _, _) => OperandRole::Destination,
            _ => OperandRole::Only,
        }
    }

    /// Identify the encoded operand responsible for one classified access.
    pub fn for_access(operands: Operands, access: AccessKind) -> (r: OperandRole)
        ensures
            r == OperandRole::spec_for_access(operands, access),
    {
        match operands {
            Operands::SizeEffectiveAddressEffectiveAddress(_, _, _) => match access {
                AccessKind::Read => OperandRole::Source,
                AccessKind::Write => OperandRole::Destination,
                AccessKind::Modify | AccessKind::Address | AccessKind::Other => OperandRole::Only,
            },
            Operands::SizeEffectiveAddressImmediate(_, _, _) => OperandRole::Destination,
            _ => OperandRole::Only,
        }
    }
}

/// The two opcode words of `MOVEC`.
pub open spec fn spec_is_movec(opcode: u16) -> bool {
    opcode == 0x4e7a || opcode == 0x4e7b
}

/// Whether `opcode` is one of the two opcode words of `MOVEC`.
pub fn is_movec(opcode: u16) -> (r: bool)
    ensures
        r == spec_is_movec(opcode),
{
    opcode == 0x4e7a || opcode == 0x4e7b
}

/// The name of a control register that `MOVEC` can reach.
pub open spec fn spec_control_register(number: u16) -> Option<Seq<char>> {
    if number == 0x000 {
        Some("SFC"@)
    } else if number == 0x001 {
        Some("DFC"@)
    } else if number == 0x002 {
        Some("CACR"@)
    } else if number == 0x800 {
        Some("USP"@)
    } else if number == 0x801 {
        Some("VBR"@)
    } else if number == 0x802 {
        Some("CAAR"@)
    } else if number == 0x803 {
        Some("MSP"@)
    } else if number == 0x804 {
        Some("ISP"@)
    } else {
        None
    }
}

/// Two bytes as a big-endian word.
pub open spec fn word_at(bytes: Seq<u8>, at: int) -> u16 {
    (bytes[at] * 256 + bytes[at + 1]) as u16
}

/// Read two bytes as a big-endian word.
pub fn read_word(bytes: &[u8], at: usize) -> (r: u16)
    requires
        at + 2 <= bytes@.len(),
    ensures
        r == word_at(bytes@, at as int),
{
    (bytes[at] as u16) * 256 + bytes[at + 1] as u16
}

/// What `MOVEC` moves: whether the general register is an address register, its
/// number, and the name of the control register. `None` for any other word, and
/// for a control register that does not exist.
pub open spec fn spec_movec_fields(opcode: u16, encoded: Seq<u8>) -> Option<(bool, u8, Seq<char>)> {
    if !spec_is_movec(opcode) || encoded.len() != 4 {
        None
    } else {
        let extension = word_at(encoded, 2);
        match spec_control_register(extension & 0x0fff) {
            None => None,
            Some(control) => Some(
                (extension & 0x8000 != 0, ((extension >> 12) & 7) as u8, control),
            ),
        }
    }
}

/// What `MOVEC` moves: whether the general register is an address register, its
/// number, and the name of the control register.
pub fn movec_fields(opcode: u16, encoded: &[u8]) -> (r: Option<(bool, u8, &'static str)>)
    ensures
        match r {
            Some((address, register, control)) => {
                &&& spec_movec_fields(opcode, encoded@) == Some((address, register, control@))
                &&& register < 8
            },
            None => spec_movec_fields(opcode, encoded@) is None,
        },
{
    if !is_movec(opcode) || encoded.len() != 4 {
        return None;
    }
    let extension: u16 = read_word(encoded, 2);
    let number: u16 = extension & 0x0fff;
    let control = if number == 0x000 {
        "SFC"
    } else if number == 0x001 {
        "DFC"
    } else if number == 0x002 {
        "CACR"
    } else if number == 0x800 {
        "USP"
    } else if number == 0x801 {
        "VBR"
    } else if number == 0x802 {
        "CAAR"
    } else if number == 0x803 {
        "MSP"
    } else if number == 0x804 {
        "ISP"
    } else {
        return None;
    };
    proof {
        crate::m68k::lemma_three_bits(extension);
    }
    Some((extension & 0x8000 != 0, ((extension >> 12) & 7) as u8, control))
}

/// The text of a `MOVEC`, which the MC68000 decoder does not name.
pub open spec fn spec_opaque_text(opcode: u16, encoded: Seq<u8>) -> Option<Seq<char>> {
    match spec_movec_fields(opcode, encoded) {
        None => None,
        Some((address, register, control)) => {
            let general = (if address {
                "A"@
            } else {
                "D"@
            }) + decimal(register as nat);
            if opcode == 0x4e7a {
                Some("MOVEC "@ + control + ","@ + general)
            } else {
                Some("MOVEC "@ + general + ","@ + control)
            }
        },
    }
}

/// Render a `MOVEC`, which the MC68000 decoder does not name.
pub fn opaque_fallthrough_text(opcode: u16, encoded: &[u8]) -> (r: Option<String>)
    ensures
        match r {
            Some(text) => spec_opaque_text(opcode, encoded@) == Some(text@),
            None => spec_opaque_text(opcode, encoded@) is None,
        },
{
    match movec_fields(opcode, encoded) {
        None => None,
        Some((address, register, control)) => {
            let mut general = if address {
                "A".to_owned()
            } else {
                "D".to_owned()
            };
            append_decimal(&mut general, register as u64);
            let mut text = "MOVEC ".to_owned();
            if opcode == 0x4e7a {
                text.append(control);
                text.append(",");
                text.append(general.as_str());
            } else {
                text.append(general.as_str());
                text.append(",");
                text.append(control);
            }
            Some(text)
        },
    }
}

impl DecodedView {
    /// A straight-line instruction outside the decoder's set, with a known size.
    pub open spec fn is_opaque_fallthrough(self) -> bool {
        spec_movec_fields(self.instruction.opcode, self.encoded) is Some
    }

    /// The general register that `MOVEC` overwrites: whether it is an address
    /// register, and its number.
    pub open spec fn movec_destination(self) -> Option<(bool, u8)> {
        if self.instruction.opcode != 0x4e7a {
            None
        } else {
            match spec_movec_fields(self.instruction.opcode, self.encoded) {
                Some((address, register, _)) => Some((address, register)),
                None => None,
            }
        }
    }

    /// The text of the instruction.
    pub open spec fn text(self) -> Seq<char> {
        match spec_opaque_text(self.instruction.opcode, self.encoded) {
            Some(text) => text,
            None => disassembly(
                self.instruction.opcode,
                self.instruction.pc,
                self.instruction.operands,
            ),
        }
    }

    /// The same instruction after `owner` arrived at it.
    pub open spec fn with_owner(self, owner: u32) -> DecodedView {
        if self.owners.contains(owner) {
            self
        } else {
            DecodedView {
                owners: if self.owners.len() >= MAX_INSTRUCTION_OWNERS {
                    self.owners
                } else {
                    self.owners.insert(owner)
                },
                owner_total: if self.owner_total < usize::MAX {
                    (self.owner_total + 1) as usize
                } else {
                    usize::MAX
                },
                ..self
            }
        }
    }

    /// Whether a walk for `owner` may go on past this instruction.
    pub open spec fn admits(self, owner: u32) -> bool {
        self.owners.contains(owner) || self.owners.len() < MAX_INSTRUCTION_OWNERS
    }

    /// What holds of every instruction that was decoded from an image.
    pub open spec fn wf(self) -> bool {
        &&& self.instruction.wf()
        &&& self.instruction.pc == self.address
        &&& self.address % 2 == 0
        &&& self.address + 2 <= self.end <= self.address + 10
        &&& self.end % 2 == 0
        &&& self.encoded.len() == self.end - self.address
        &&& self.owners.finite()
        &&& 1 <= self.owners.len() <= MAX_INSTRUCTION_OWNERS
        &&& self.owners.len() <= self.owner_total
    }
}

impl DecodedInstruction {
    /// The owner set is in order, and the instruction came out of an image.
    pub open spec fn wf(&self) -> bool {
        self.owners.wf() && self@.wf()
    }

    /// Render this instruction, including the small set of later-family
    /// instructions the MC68000 decoder deliberately does not name.
    pub fn text(&self) -> (r: String)
        requires
            opcode_isa(self.instruction.opcode).takes(self.instruction.operands),
        ensures
            r@ == self@.text(),
    {
        match opaque_fallthrough_text(self.instruction.opcode, &self.encoded) {
            Some(text) => text,
            None => disassemble(self.instruction),
        }
    }

    /// Render this instruction if its operands are of the form that its opcode
    /// word is decoded with.
    pub fn checked_text(&self) -> (r: Option<String>)
        ensures
            match r {
                Some(text) => {
                    &&& opcode_isa(self.instruction.opcode).takes(self.instruction.operands)
                    &&& text@ == self@.text()
                },
                None => !opcode_isa(self.instruction.opcode).takes(self.instruction.operands),
            },
    {
        let isa: Isa = isa_of_opcode(self.instruction.opcode);
        if isa.accepts(self.instruction.operands) {
            Some(self.text())
        } else {
            None
        }
    }

    /// Whether this is a fully sized, straight-line instruction outside the
    /// decoder's MC68000 instruction set.
    pub fn is_opaque_fallthrough(&self) -> (r: bool)
        ensures
            r == self@.is_opaque_fallthrough(),
    {
        match movec_fields(self.instruction.opcode, &self.encoded) {
            Some(_) => true,
            None => false,
        }
    }

    /// The general register MOVEC overwrites, if it moves a control register
    /// into one. `true` identifies an address register and `false` a data
    /// register.
    pub fn movec_destination(&self) -> (r: Option<(bool, u8)>)
        ensures
            r == self@.movec_destination(),
            r matches Some((_, register)) ==> register < 8,
    {
        if self.instruction.opcode != 0x4e7a {
            return None;
        }
        match movec_fields(self.instruction.opcode, &self.encoded) {
            Some((address, register, _)) => Some((address, register)),
            None => None,
        }
    }

    /// Record `owner`, and report whether the traversal may keep walking.
    ///
    /// Returns `false` once the cap refuses a new owner: continuing would walk
    /// the rest of the block for an owner no consumer can be told about.
    pub fn add_owner(&mut self, owner: u32) -> (r: bool)
        requires
            old(self).owners.wf(),
        ensures
            final(self)@ == old(self)@.with_owner(owner),
            final(self).owners.wf(),
            r == old(self)@.admits(owner),
            old(self).wf() ==> final(self).wf(),
    {
        proof {
            self.owners.lemma_len();
        }
        if self.owners.contains(&owner) {
            return true;
        }
        if self.owner_total < usize::MAX {
            self.owner_total = self.owner_total + 1;
        }
        if self.owners.len() >= MAX_INSTRUCTION_OWNERS {
            return false;
        }
        self.owners.insert(owner);
        true
    }
}

/// The bytes a decoder may read at `address`: the image, with ten zero bytes
/// after it where fewer than ten are left.
pub open spec fn padded(code: Seq<u8>, address: u32) -> Seq<u8> {
    if code.len() - address < 10 {
        code + Seq::new(10, |i: int| 0u8)
    } else {
        code
    }
}

/// The instruction at `address`, owned by `owner` alone. `None` where the
/// decoder reads no instruction, or where it does not end inside the image.
pub open spec fn spec_decode(code: Seq<u8>, address: u32, owner: u32) -> Option<DecodedView> {
    if code.len() - address < 10 && code.len() + 10 > usize::MAX {
        None
    } else {
        match spec_read_instruction(padded(code, address), address) {
            None => None,
            Some((instruction, next)) => {
                let end: int = if spec_is_movec(instruction.opcode) {
                    address + 4
                } else {
                    next as int
                };
                if address <= end <= code.len() && end <= u32::MAX {
                    Some(
                        DecodedView {
                            address,
                            end: end as u32,
                            instruction,
                            encoded: code.subrange(address as int, end),
                            owners: set![owner],
                            owner_total: 1,
                        },
                    )
                } else {
                    None
                }
            },
        }
    }
}

/// A traversable address of the image: even, and inside it.
pub open spec fn spec_valid_address(code: Seq<u8>, address: u32) -> bool {
    address % 2 == 0 && address < code.len()
}

/// Whether `address` is even and inside the image.
pub fn valid_address(code: &[u8], address: u32) -> (r: bool)
    ensures
        r == spec_valid_address(code@, address),
{
    address % 2 == 0 && (address as u64) < code.len() as u64
}

/// The bytes from `start` to `end`.
pub fn copy_range(bytes: &[u8], start: usize, end: usize) -> (r: Vec<u8>)
    requires
        start <= end <= bytes@.len(),
    ensures
        r@ == bytes@.subrange(start as int, end as int),
{
    let mut out: Vec<u8> = Vec::new();
    let mut i: usize = start;
    while i < end
        invariant
            start <= i <= end <= bytes@.len(),
            out@ == bytes@.subrange(start as int, i as int),
        decreases end - i,
    {
        out.push(bytes[i]);
        i += 1;
        assert(out@ =~= bytes@.subrange(start as int, i as int));
    }
    out
}

/// The image with ten zero bytes after it.
fn with_padding(code: &[u8]) -> (r: Vec<u8>)
    requires
        code@.len() + 10 <= usize::MAX,
    ensures
        r@ == code@ + Seq::new(10, |i: int| 0u8),
{
    let mut bytes: Vec<u8> = copy_range(code, 0, code.len());
    let mut i: usize = 0;
    assert(bytes@ =~= code@ + Seq::new(0, |i: int| 0u8));
    while i < 10
        invariant
            i <= 10,
            bytes@ == code@ + Seq::new(i as nat, |i: int| 0u8),
        decreases 10 - i,
    {
        bytes.push(0);
        i += 1;
        assert(bytes@ =~= code@ + Seq::new(i as nat, |i: int| 0u8));
    }
    bytes
}

/// Decode the instruction at `address`, owned by `owner` alone.
pub fn decode(code: &[u8], address: u32, owner: u32) -> (r: Option<DecodedInstruction>)
    requires
        address < code@.len(),
    ensures
        match r {
            Some(decoded) => {
                &&& spec_decode(code@, address, owner) == Some(decoded@)
                &&& decoded.wf()
                &&& decoded.instruction.isa == opcode_isa(decoded.instruction.opcode)
            },
            None => spec_decode(code@, address, owner) is None,
        },
{
    let start: usize = address as usize;
    let read = if code.len() - start < 10 {
        if code.len() > usize::MAX - 10 {
            return None;
        }
        let image = with_padding(code);
        read_instruction(&image, address)
    } else {
        read_instruction(code, address)
    };
    let (instruction, next) = match read {
        Some(found) => found,
        None => {
            return None;
        },
    };
    let end: u32 = if is_movec(instruction.opcode) {
        if address > u32::MAX - 4 {
            return None;
        }
        address + 4
    } else {
        next
    };
    if end < address || (end as u64) > code.len() as u64 {
        return None;
    }
    let encoded = copy_range(code, start, end as usize);
    let mut owners: OrderedSet<u32> = OrderedSet::new();
    owners.insert(owner);
    let decoded = DecodedInstruction {
        address,
        end,
        instruction,
        encoded,
        owners,
        owner_total: 1,
    };
    proof {
        assert(Set::<u32>::empty().insert(owner) =~= set![owner]);
        decoded.owners.lemma_len();
        assert(consumed(address, next));
        assert(decoded.encoded@.len() == end - address);
    }
    Some(decoded)
}

/// How many bytes of extension an immediate of this size takes.
pub open spec fn spec_immediate_extension_bytes(size: Size) -> u32 {
    match size {
        Size::Byte | Size::Word => 2,
        Size::Long => 4,
    }
}

/// How many bytes of extension an immediate of this size takes.
pub fn immediate_extension_bytes(size: Size) -> (r: u32)
    ensures
        r == spec_immediate_extension_bytes(size),
{
    match size {
        Size::Byte | Size::Word => 2,
        Size::Long => 4,
    }
}

/// How many bytes of extension an effective address takes.
pub open spec fn spec_ea_extension_bytes(mode: AddressingMode, size: Size) -> u32 {
    match mode {
        AddressingMode::Drd(_)
        | AddressingMode::Ard(_)
        | AddressingMode::Ari(_)
        | AddressingMode::Ariwpo(_)
        | AddressingMode::Ariwpr(_) => 0,
        AddressingMode::Ariwd(_, _)
        | AddressingMode::Ariwi8(_, _)
        | AddressingMode::AbsShort(_)
        | AddressingMode::Pciwd(_, _)
        | AddressingMode::Pciwi8(_, _) => 2,
        AddressingMode::AbsLong(_) => 4,
        AddressingMode::Immediate(_) => spec_immediate_extension_bytes(size),
    }
}

/// How many bytes of extension an effective address takes.
pub fn ea_extension_bytes(mode: AddressingMode, size: Size) -> (r: u32)
    ensures
        r == spec_ea_extension_bytes(mode, size),
{
    match mode {
        AddressingMode::Drd(_)
        | AddressingMode::Ard(_)
        | AddressingMode::Ari(_)
        | AddressingMode::Ariwpo(_)
        | AddressingMode::Ariwpr(_) => 0,
        AddressingMode::Ariwd(_, _)
        | AddressingMode::Ariwi8(_, _)
        | AddressingMode::AbsShort(_)
        | AddressingMode::Pciwd(_, _)
        | AddressingMode::Pciwi8(_, _) => 2,
        AddressingMode::AbsLong(_) => 4,
        AddressingMode::Immediate(_) => immediate_extension_bytes(size),
    }
}

/// Whether the operand's extension is one longword.
pub open spec fn spec_is_longword_extension(mode: AddressingMode, size: Size) -> bool {
    mode is AbsLong || mode is Immediate && size == Size::Long
}

/// Whether the operand's extension is one longword.
pub fn is_longword_extension(mode: AddressingMode, size: Size) -> (r: bool)
    ensures
        r == spec_is_longword_extension(mode, size),
{
    match mode {
        AddressingMode::AbsLong(_) => true,
        AddressingMode::Immediate(_) => size.is_long(),
        _ => false,
    }
}

/// Byte displacement after the opcode word, addressing mode, and encoded size of
/// one operand.
///
/// Immediate fields precede their effective address, `MOVEM` has a mask word
/// first, and `MOVE` encodes source extensions before destination extensions
/// even though its operands name the destination first.
pub open spec fn spec_operand_layout(
    instruction: Instruction,
    role: OperandRole,
) -> Option<(u32, AddressingMode, Size)> {
    match instruction.operands {
        Operands::SizeEffectiveAddressEffectiveAddress(size, destination, source) => match role {
            OperandRole::Source => Some((0, source, size)),
            OperandRole::Destination => Some(
                (spec_ea_extension_bytes(source, size), destination, size),
            ),
            OperandRole::Only => None,
        },
        Operands::SizeEffectiveAddressImmediate(size, destination, value) => match role {
            OperandRole::Source => Some((0, AddressingMode::Immediate(value), size)),
            OperandRole::Destination => Some(
                (spec_immediate_extension_bytes(size), destination, size),
            ),
            OperandRole::Only => None,
        },
        Operands::DirectionSizeEffectiveAddressList(_, size, mode, _) => Some((2, mode, size)),
        Operands::EffectiveAddressCount(mode, _) => Some(
            (if instruction.opcode & 0xff00 == 0x0800 {
                2
            } else {
                0
            }, mode, Size::Long),
        ),
        Operands::SizeEffectiveAddress(size, mode)
        | Operands::SizeRegisterEffectiveAddress(size, _, mode)
        | Operands::DataSizeEffectiveAddress(_, size, mode)
        | Operands::RegisterDirectionSizeEffectiveAddress(_, _, size, mode)
        | Operands::RegisterSizeEffectiveAddress(_, size, mode) => Some((0, mode, size)),
        Operands::EffectiveAddress(mode)
        | Operands::RegisterEffectiveAddress(_, mode)
        | Operands::ConditionEffectiveAddress(_, mode)
        | Operands::DirectionEffectiveAddress(_, mode) => Some((0, mode, Size::Long)),
        _ => None,
    }
}

/// Byte displacement after the opcode word, addressing mode, and encoded size of
/// one operand. The match names every operand form.
pub fn operand_layout(instruction: Instruction, role: OperandRole) -> (r: Option<
    (u32, AddressingMode, Size),
>)
    ensures
        r == spec_operand_layout(instruction, role),
        r matches Some((relative, _, _)) ==> relative <= 4,
{
    match instruction.operands {
        Operands::SizeEffectiveAddressEffectiveAddress(size, destination, source) => match role {
            OperandRole::Source => Some((0, source, size)),
            OperandRole::Destination => Some((ea_extension_bytes(source, size), destination, size)),
            OperandRole::Only => None,
        },
        Operands::SizeEffectiveAddressImmediate(size, destination, value) => match role {
            OperandRole::Source => Some((0, AddressingMode::Immediate(value), size)),
            OperandRole::Destination => Some((immediate_extension_bytes(size), destination, size)),
            OperandRole::Only => None,
        },
        Operands::DirectionSizeEffectiveAddressList(_, size, mode, _) => Some((2, mode, size)),
        Operands::EffectiveAddressCount(mode, _) => {
            let relative: u32 = if instruction.opcode & 0xff00 == 0x0800 {
                2
            } else {
                0
            };
            Some((relative, mode, Size::Long))
        },
        Operands::SizeEffectiveAddress(size, mode)
        | Operands::SizeRegisterEffectiveAddress(size, _, mode)
        | Operands::DataSizeEffectiveAddress(_, size, mode)
        | Operands::RegisterDirectionSizeEffectiveAddress(_, _, size, mode)
        | Operands::RegisterSizeEffectiveAddress(_, size, mode) => Some((0, mode, size)),
        Operands::EffectiveAddress(mode)
        | Operands::RegisterEffectiveAddress(_, mode)
        | Operands::ConditionEffectiveAddress(_, mode)
        | Operands::DirectionEffectiveAddress(_, mode) => Some((0, mode, Size::Long)),
        Operands::NoOperands
        | Operands::Immediate(_)
        | Operands::Vector(_)
        | Operands::RegisterDirectionSizeRegisterDisplacement(_, _, _, _, _)
        | Operands::RegisterOpmodeRegister(_, _, _)
        | Operands::OpmodeRegister(_, _)
        | Operands::RegisterDisplacement(_, _)
        | Operands::Register(_)
        | Operands::DirectionRegister(_, _)
        | Operands::ConditionRegisterDisplacement(_, _, _)
        | Operands::Displacement(_)
        | Operands::ConditionDisplacement(_, _)
        | Operands::RegisterData(_, _)
        | Operands::RegisterSizeModeRegister(_, _, _, _)
        | Operands::RegisterSizeRegister(_, _, _)
        | Operands::RotationDirectionSizeModeRegister(_, _, _, _, _) => None,
    }
}

impl DecodedView {
    /// Hunk offset of the longword extension belonging to `role`, where the
    /// operand has one and it lies inside the instruction.
    pub open spec fn operand_longword_position(self, role: OperandRole) -> Option<u32> {
        match spec_operand_layout(self.instruction, role) {
            None => None,
            Some((relative, mode, size)) => {
                let patched = self.address + 2 + relative;
                if spec_is_longword_extension(mode, size) && patched + 4 <= self.end {
                    Some(patched as u32)
                } else {
                    None
                }
            },
        }
    }
}

/// Exact hunk offset of the longword extension belonging to `role`.
pub fn operand_longword_position(decoded: &DecodedInstruction, role: OperandRole) -> (r: Option<
    u32,
>)
    ensures
        r == decoded@.operand_longword_position(role),
{
    match operand_layout(decoded.instruction, role) {
        None => None,
        Some((relative, mode, size)) => {
            if !is_longword_extension(mode, size) {
                return None;
            }
            let patched: u64 = decoded.address as u64 + 2 + relative as u64;
            if patched + 4 <= decoded.end as u64 {
                Some(patched as u32)
            } else {
                None
            }
        },
    }
}

/// A position found for an operand's longword lies wholly inside the
/// instruction, after its opcode word.
pub proof fn operand_position_is_inside(decoded: DecodedView, role: OperandRole)
    ensures
        decoded.operand_longword_position(role) matches Some(patched) ==> decoded.address + 2
            <= patched && patched + 4 <= decoded.end,
{
}

/// The source and the destination longword of a `MOVE` never share a byte.
pub proof fn move_operands_do_not_overlap(decoded: DecodedView)
    requires
        decoded.instruction.operands is SizeEffectiveAddressEffectiveAddress,
    ensures
        (decoded.operand_longword_position(OperandRole::Source) matches Some(source)
            && decoded.operand_longword_position(OperandRole::Destination) matches Some(
            destination,
        )) ==> decoded.operand_longword_position(OperandRole::Source)->0 + 4
            <= decoded.operand_longword_position(OperandRole::Destination)->0,
{
}

} // verus!
