//! The MC68000 instruction vocabulary, and the boundary to the decoder.
//!
//! The `m68000` crate names the opcode, reads the extension words and renders
//! text. What it hands back is converted here, by verified matches, into the
//! plain types that every other module reads; nothing else in this crate sees a
//! decoder type.

use m68000::addressing_modes::AddressingMode as CoreMode;
use m68000::addressing_modes::BriefExtensionWord as CoreExtension;
use m68000::instruction::Direction as CoreDirection;
use m68000::instruction::Instruction as CoreInstruction;
use m68000::instruction::Operands as CoreOperands;
use m68000::instruction::Size as CoreSize;
use m68000::isa::Isa as CoreIsa;
use m68000::memory_access::MemoryAccess;
use vstd::prelude::*;

verus! {

/// The decoder's operation size, declared as it stands.
#[verifier::external_type_specification]
pub struct ExCoreSize(CoreSize);

/// The decoder's transfer direction, declared as it stands.
#[verifier::external_type_specification]
pub struct ExCoreDirection(CoreDirection);

/// The decoder's brief extension word, declared as it stands.
#[verifier::external_type_specification]
pub struct ExCoreExtension(CoreExtension);

/// The decoder's addressing mode, declared as it stands.
#[verifier::external_type_specification]
pub struct ExCoreMode(CoreMode);

/// The decoder's operand forms, declared as they stand.
#[verifier::external_type_specification]
pub struct ExCoreOperands(CoreOperands);

/// The decoder's mnemonics, declared as they stand.
#[verifier::external_type_specification]
pub struct ExCoreIsa(CoreIsa);

/// The decoder's instruction, declared as it stands.
#[verifier::external_type_specification]
pub struct ExCoreInstruction(CoreInstruction);

/// Size of an operation.
#[derive(Clone, Copy, Debug, PartialEq, Eq, Structural)]
pub enum Size {
    Byte,
    Word,
    Long,
}

impl Size {
    /// The number of bytes the size names.
    pub open spec fn spec_bytes(self) -> u8 {
        match self {
            Size::Byte => 1,
            Size::Word => 2,
            Size::Long => 4,
        }
    }

    /// The number of bytes the size names.
    pub fn bytes(self) -> (r: u8)
        ensures
            r == self.spec_bytes(),
    {
        match self {
            Size::Byte => 1,
            Size::Word => 2,
            Size::Long => 4,
        }
    }

    /// Whether this is the longword size.
    pub fn is_long(self) -> (r: bool)
        ensures
            r == (self == Size::Long),
    {
        matches!(self, Size::Long)
    }
}

/// Which way an operation moves its value.
#[derive(Clone, Copy, Debug, PartialEq, Eq, Structural)]
pub enum Direction {
    RegisterToMemory,
    MemoryToRegister,
    DstReg,
    DstEa,
    Left,
    Right,
    RegisterToUsp,
    UspToRegister,
    RegisterToRegister,
    MemoryToMemory,
    ExchangeData,
    ExchangeAddress,
    ExchangeDataAddress,
}

/// The index register, its width and the 8-bit displacement of an indexed mode.
#[derive(Clone, Copy, Debug, PartialEq, Eq, Structural)]
pub struct BriefExtensionWord(pub u16);

impl BriefExtensionWord {
    /// The signed displacement in the low byte.
    pub open spec fn spec_disp(self) -> i8 {
        self.0 as i8
    }

    /// The signed displacement in the low byte.
    pub fn disp(self) -> (r: i8)
        ensures
            r == self.spec_disp(),
    {
        self.0 as i8
    }

    /// The number of the index register, whichever kind it is.
    pub open spec fn spec_index(self) -> u8 {
        ((self.0 >> 12) & 7) as u8
    }

    /// The number of the index register, whichever kind it is.
    pub fn index(self) -> (r: u8)
        ensures
            r == self.spec_index(),
            r < 8,
    {
        let word: u16 = self.0;
        proof {
            lemma_three_bits(word);
        }
        ((word >> 12) & 7) as u8
    }

    /// Whether the index is an address register.
    pub open spec fn spec_index_is_address(self) -> bool {
        self.0 & 0x8000 != 0
    }

    /// Whether the index is an address register.
    pub fn index_is_address(self) -> (r: bool)
        ensures
            r == self.spec_index_is_address(),
    {
        self.0 & 0x8000 != 0
    }

    /// Whether the whole index register is used, rather than its low word.
    pub open spec fn spec_index_is_long(self) -> bool {
        self.0 & 0x0800 != 0
    }

    /// Whether the whole index register is used, rather than its low word.
    pub fn index_is_long(self) -> (r: bool)
        ensures
            r == self.spec_index_is_long(),
    {
        self.0 & 0x0800 != 0
    }
}

/// A three-bit field at the top of an extension word is a register number.
pub proof fn lemma_three_bits(word: u16)
    ensures
        ((word >> 12) & 7) < 8,
        (((word >> 12) & 7) as u8) < 8,
{
    assert(((word >> 12) & 7) < 8) by (bit_vector);
    assert((((word >> 12) & 7) as u8) < 8) by (bit_vector);
}

/// How an operand is addressed.
#[derive(Clone, Copy, Debug, PartialEq, Eq, Structural)]
pub enum AddressingMode {
    /// `Dn`.
    Drd(u8),
    /// `An`.
    Ard(u8),
    /// `(An)`.
    Ari(u8),
    /// `(An)+`.
    Ariwpo(u8),
    /// `-(An)`.
    Ariwpr(u8),
    /// `(d16,An)`.
    Ariwd(u8, i16),
    /// `(d8,An,Xn)`.
    Ariwi8(u8, BriefExtensionWord),
    /// `(xxx).W`.
    AbsShort(u16),
    /// `(xxx).L`.
    AbsLong(u32),
    /// `(d16,PC)`, with the PC value it is relative to.
    Pciwd(u32, i16),
    /// `(d8,PC,Xn)`, with the PC value it is relative to.
    Pciwi8(u32, BriefExtensionWord),
    /// `#imm`.
    Immediate(u32),
}

impl AddressingMode {
    /// The register number, where there is one, names one of eight registers.
    pub open spec fn in_range(self) -> bool {
        match self {
            AddressingMode::Drd(register) => register < 8,
            AddressingMode::Ard(register) => register < 8,
            AddressingMode::Ari(register) => register < 8,
            AddressingMode::Ariwpo(register) => register < 8,
            AddressingMode::Ariwpr(register) => register < 8,
            AddressingMode::Ariwd(register, _) => register < 8,
            AddressingMode::Ariwi8(register, _) => register < 8,
            _ => true,
        }
    }
}

/// The operands of an instruction, one form per encoding family.
#[derive(Clone, Copy, Debug, PartialEq, Eq, Structural)]
pub enum Operands {
    /// ILLEGAL, NOP, RESET, RTE, RTR, RTS, TRAPV.
    NoOperands,
    /// ANDI/EORI/ORI to CCR or SR, STOP.
    Immediate(u16),
    /// ADDI, ANDI, CMPI, EORI, ORI, SUBI.
    SizeEffectiveAddressImmediate(Size, AddressingMode, u32),
    /// BCHG, BCLR, BSET, BTST.
    EffectiveAddressCount(AddressingMode, u8),
    /// JMP, JSR, MOVE to or from SR/CCR, NBCD, PEA, TAS.
    EffectiveAddress(AddressingMode),
    /// CLR, NEG, NEGX, NOT, TST.
    SizeEffectiveAddress(Size, AddressingMode),
    /// CHK, DIVS, DIVU, LEA, MULS, MULU.
    RegisterEffectiveAddress(u8, AddressingMode),
    /// MOVEP.
    RegisterDirectionSizeRegisterDisplacement(u8, Direction, Size, u8, i16),
    /// MOVEA.
    SizeRegisterEffectiveAddress(Size, u8, AddressingMode),
    /// MOVE: size, destination, source.
    SizeEffectiveAddressEffectiveAddress(Size, AddressingMode, AddressingMode),
    /// EXG.
    RegisterOpmodeRegister(u8, Direction, u8),
    /// EXT.
    OpmodeRegister(u8, u8),
    /// TRAP.
    Vector(u8),
    /// LINK.
    RegisterDisplacement(u8, i16),
    /// SWAP, UNLK.
    Register(u8),
    /// MOVE USP.
    DirectionRegister(Direction, u8),
    /// MOVEM.
    DirectionSizeEffectiveAddressList(Direction, Size, AddressingMode, u16),
    /// ADDQ, SUBQ.
    DataSizeEffectiveAddress(u8, Size, AddressingMode),
    /// Scc.
    ConditionEffectiveAddress(u8, AddressingMode),
    /// DBcc.
    ConditionRegisterDisplacement(u8, u8, i16),
    /// BRA, BSR.
    Displacement(i16),
    /// Bcc.
    ConditionDisplacement(u8, i16),
    /// MOVEQ.
    RegisterData(u8, i8),
    /// ADD, AND, CMP, EOR, OR, SUB.
    RegisterDirectionSizeEffectiveAddress(u8, Direction, Size, AddressingMode),
    /// ADDA, CMPA, SUBA.
    RegisterSizeEffectiveAddress(u8, Size, AddressingMode),
    /// ABCD, ADDX, SBCD, SUBX.
    RegisterSizeModeRegister(u8, Size, Direction, u8),
    /// CMPM.
    RegisterSizeRegister(u8, Size, u8),
    /// memory shifts and rotates.
    DirectionEffectiveAddress(Direction, AddressingMode),
    /// register shifts and rotates.
    RotationDirectionSizeModeRegister(u8, Direction, Size, bool, u8),
}

impl Operands {
    /// Every register number names one of eight registers.
    pub open spec fn in_range(self) -> bool {
        match self {
            Operands::SizeEffectiveAddressImmediate(_, m1, _) => m1.in_range(),
            Operands::EffectiveAddressCount(m0, _) => m0.in_range(),
            Operands::EffectiveAddress(m0) => m0.in_range(),
            Operands::SizeEffectiveAddress(_, m1) => m1.in_range(),
            Operands::RegisterEffectiveAddress(r0, m1) => r0 < 8 && m1.in_range(),
            Operands::RegisterDirectionSizeRegisterDisplacement(r0, _, _, r3, _) => r0 < 8 && r3 < 8,
            Operands::SizeRegisterEffectiveAddress(_, r1, m2) => r1 < 8 && m2.in_range(),
            Operands::SizeEffectiveAddressEffectiveAddress(_, m1, m2) => m1.in_range() && m2.in_range(),
            Operands::RegisterOpmodeRegister(r0, _, r2) => r0 < 8 && r2 < 8,
            Operands::OpmodeRegister(_, r1) => r1 < 8,
            Operands::RegisterDisplacement(r0, _) => r0 < 8,
            Operands::Register(r0) => r0 < 8,
            Operands::DirectionRegister(_, r1) => r1 < 8,
            Operands::DirectionSizeEffectiveAddressList(_, _, m2, _) => m2.in_range(),
            Operands::DataSizeEffectiveAddress(r0, _, m2) => r0 < 8 && m2.in_range(),
            Operands::ConditionEffectiveAddress(_, m1) => m1.in_range(),
            Operands::ConditionRegisterDisplacement(_, r1, _) => r1 < 8,
            Operands::RegisterData(r0, _) => r0 < 8,
            Operands::RegisterDirectionSizeEffectiveAddress(r0, _, _, m3) => r0 < 8 && m3.in_range(),
            Operands::RegisterSizeEffectiveAddress(r0, _, m2) => r0 < 8 && m2.in_range(),
            Operands::RegisterSizeModeRegister(r0, _, _, r3) => r0 < 8 && r3 < 8,
            Operands::RegisterSizeRegister(r0, _, r2) => r0 < 8 && r2 < 8,
            Operands::DirectionEffectiveAddress(_, m1) => m1.in_range(),
            Operands::RotationDirectionSizeModeRegister(r0, _, _, _, r4) => r0 < 8 && r4 < 8,
            _ => true,
        }
    }
}

/// The instruction mnemonics; `Unknown` is a word the decoder cannot name.
#[derive(Clone, Copy, Debug, PartialEq, Eq, Structural)]
pub enum Isa {
    Unknown,
    Abcd,
    Add,
    Adda,
    Addi,
    Addq,
    Addx,
    And,
    Andi,
    Andiccr,
    Andisr,
    Asm,
    Asr,
    Bcc,
    Bchg,
    Bclr,
    Bra,
    Bset,
    Bsr,
    Btst,
    Chk,
    Clr,
    Cmp,
    Cmpa,
    Cmpi,
    Cmpm,
    Dbcc,
    Divs,
    Divu,
    Eor,
    Eori,
    Eoriccr,
    Eorisr,
    Exg,
    Ext,
    Illegal,
    Jmp,
    Jsr,
    Lea,
    Link,
    Lsm,
    Lsr,
    Move,
    Movea,
    Moveccr,
    Movefsr,
    Movesr,
    Moveusp,
    Movem,
    Movep,
    Moveq,
    Muls,
    Mulu,
    Nbcd,
    Neg,
    Negx,
    Nop,
    Not,
    Or,
    Ori,
    Oriccr,
    Orisr,
    Pea,
    Reset,
    Rom,
    Ror,
    Roxm,
    Roxr,
    Rte,
    Rtr,
    Rts,
    Sbcd,
    Scc,
    Stop,
    Sub,
    Suba,
    Subi,
    Subq,
    Subx,
    Swap,
    Tas,
    Trap,
    Trapv,
    Tst,
    Unlk,
}

impl Isa {
    /// Whether `operands` has the form that this mnemonic is encoded with.
    pub open spec fn takes(self, operands: Operands) -> bool {
        match self {
            Isa::Unknown | Isa::Illegal | Isa::Nop | Isa::Reset | Isa::Rte | Isa::Rtr | Isa::Rts | Isa::Trapv => operands is NoOperands,
            Isa::Abcd | Isa::Addx | Isa::Sbcd | Isa::Subx => operands is RegisterSizeModeRegister,
            Isa::Add | Isa::And | Isa::Cmp | Isa::Eor | Isa::Or | Isa::Sub => operands is RegisterDirectionSizeEffectiveAddress,
            Isa::Adda | Isa::Cmpa | Isa::Suba => operands is RegisterSizeEffectiveAddress,
            Isa::Addi | Isa::Andi | Isa::Cmpi | Isa::Eori | Isa::Ori | Isa::Subi => operands is SizeEffectiveAddressImmediate,
            Isa::Addq | Isa::Subq => operands is DataSizeEffectiveAddress,
            Isa::Andiccr | Isa::Andisr | Isa::Eoriccr | Isa::Eorisr | Isa::Oriccr | Isa::Orisr | Isa::Stop => operands is Immediate,
            Isa::Asm | Isa::Lsm | Isa::Rom | Isa::Roxm => operands is DirectionEffectiveAddress,
            Isa::Asr | Isa::Lsr | Isa::Ror | Isa::Roxr => operands is RotationDirectionSizeModeRegister,
            Isa::Bcc => operands is ConditionDisplacement,
            Isa::Bchg | Isa::Bclr | Isa::Bset | Isa::Btst => operands is EffectiveAddressCount,
            Isa::Bra | Isa::Bsr => operands is Displacement,
            Isa::Chk | Isa::Divs | Isa::Divu | Isa::Lea | Isa::Muls | Isa::Mulu => operands is RegisterEffectiveAddress,
            Isa::Clr | Isa::Neg | Isa::Negx | Isa::Not | Isa::Tst => operands is SizeEffectiveAddress,
            Isa::Cmpm => operands is RegisterSizeRegister,
            Isa::Dbcc => operands is ConditionRegisterDisplacement,
            Isa::Exg => operands is RegisterOpmodeRegister,
            Isa::Ext => operands is OpmodeRegister,
            Isa::Jmp | Isa::Jsr | Isa::Moveccr | Isa::Movefsr | Isa::Movesr | Isa::Nbcd | Isa::Pea | Isa::Tas => operands is EffectiveAddress,
            Isa::Link => operands is RegisterDisplacement,
            Isa::Move => operands is SizeEffectiveAddressEffectiveAddress,
            Isa::Movea => operands is SizeRegisterEffectiveAddress,
            Isa::Moveusp => operands is DirectionRegister,
            Isa::Movem => operands is DirectionSizeEffectiveAddressList,
            Isa::Movep => operands is RegisterDirectionSizeRegisterDisplacement,
            Isa::Moveq => operands is RegisterData,
            Isa::Scc => operands is ConditionEffectiveAddress,
            Isa::Swap | Isa::Unlk => operands is Register,
            Isa::Trap => operands is Vector,
        }
    }

    /// Whether `operands` has the form that this mnemonic is encoded with.
    pub fn accepts(self, operands: Operands) -> (r: bool)
        ensures
            r == self.takes(operands),
    {
        match self {
            Isa::Unknown | Isa::Illegal | Isa::Nop | Isa::Reset | Isa::Rte | Isa::Rtr | Isa::Rts | Isa::Trapv => matches!(operands, Operands::NoOperands),
            Isa::Abcd | Isa::Addx | Isa::Sbcd | Isa::Subx => matches!(operands, Operands::RegisterSizeModeRegister(_, _, _, _)),
            Isa::Add | Isa::And | Isa::Cmp | Isa::Eor | Isa::Or | Isa::Sub => matches!(operands, Operands::RegisterDirectionSizeEffectiveAddress(_, _, _, _)),
            Isa::Adda | Isa::Cmpa | Isa::Suba => matches!(operands, Operands::RegisterSizeEffectiveAddress(_, _, _)),
            Isa::Addi | Isa::Andi | Isa::Cmpi | Isa::Eori | Isa::Ori | Isa::Subi => matches!(operands, Operands::SizeEffectiveAddressImmediate(_, _, _)),
            Isa::Addq | Isa::Subq => matches!(operands, Operands::DataSizeEffectiveAddress(_, _, _)),
            Isa::Andiccr | Isa::Andisr | Isa::Eoriccr | Isa::Eorisr | Isa::Oriccr | Isa::Orisr | Isa::Stop => matches!(operands, Operands::Immediate(_)),
            Isa::Asm | Isa::Lsm | Isa::Rom | Isa::Roxm => matches!(operands, Operands::DirectionEffectiveAddress(_, _)),
            Isa::Asr | Isa::Lsr | Isa::Ror | Isa::Roxr => matches!(operands, Operands::RotationDirectionSizeModeRegister(_, _, _, _, _)),
            Isa::Bcc => matches!(operands, Operands::ConditionDisplacement(_, _)),
            Isa::Bchg | Isa::Bclr | Isa::Bset | Isa::Btst => matches!(operands, Operands::EffectiveAddressCount(_, _)),
            Isa::Bra | Isa::Bsr => matches!(operands, Operands::Displacement(_)),
            Isa::Chk | Isa::Divs | Isa::Divu | Isa::Lea | Isa::Muls | Isa::Mulu => matches!(operands, Operands::RegisterEffectiveAddress(_, _)),
            Isa::Clr | Isa::Neg | Isa::Negx | Isa::Not | Isa::Tst => matches!(operands, Operands::SizeEffectiveAddress(_, _)),
            Isa::Cmpm => matches!(operands, Operands::RegisterSizeRegister(_, _, _)),
            Isa::Dbcc => matches!(operands, Operands::ConditionRegisterDisplacement(_, _, _)),
            Isa::Exg => matches!(operands, Operands::RegisterOpmodeRegister(_, _, _)),
            Isa::Ext => matches!(operands, Operands::OpmodeRegister(_, _)),
            Isa::Jmp | Isa::Jsr | Isa::Moveccr | Isa::Movefsr | Isa::Movesr | Isa::Nbcd | Isa::Pea | Isa::Tas => matches!(operands, Operands::EffectiveAddress(_)),
            Isa::Link => matches!(operands, Operands::RegisterDisplacement(_, _)),
            Isa::Move => matches!(operands, Operands::SizeEffectiveAddressEffectiveAddress(_, _, _)),
            Isa::Movea => matches!(operands, Operands::SizeRegisterEffectiveAddress(_, _, _)),
            Isa::Moveusp => matches!(operands, Operands::DirectionRegister(_, _)),
            Isa::Movem => matches!(operands, Operands::DirectionSizeEffectiveAddressList(_, _, _, _)),
            Isa::Movep => matches!(operands, Operands::RegisterDirectionSizeRegisterDisplacement(_, _, _, _, _)),
            Isa::Moveq => matches!(operands, Operands::RegisterData(_, _)),
            Isa::Scc => matches!(operands, Operands::ConditionEffectiveAddress(_, _)),
            Isa::Swap | Isa::Unlk => matches!(operands, Operands::Register(_)),
            Isa::Trap => matches!(operands, Operands::Vector(_)),
        }
    }
}

/// One decoded instruction.
#[derive(Clone, Copy, Debug, PartialEq, Eq, Structural)]
pub struct Instruction {
    /// The opcode word.
    pub opcode: u16,
    /// The address it was decoded at.
    pub pc: u32,
    /// The mnemonic of the opcode word.
    pub isa: Isa,
    pub operands: Operands,
}

impl Instruction {
    /// The operands are those of the mnemonic, and their registers exist.
    pub open spec fn wf(self) -> bool {
        self.isa.takes(self.operands) && self.operands.in_range()
    }
}

/// The size that a decoder value stands for.
pub open spec fn size_of(value: CoreSize) -> Size {
    match value {
        CoreSize::Byte => Size::Byte,
        CoreSize::Word => Size::Word,
        CoreSize::Long => Size::Long,
    }
}

fn convert_size(value: CoreSize) -> (r: Size)
    ensures
        r == size_of(value),
{
    match value {
        CoreSize::Byte => Size::Byte,
        CoreSize::Word => Size::Word,
        CoreSize::Long => Size::Long,
    }
}

/// The decoder value that stands for a size.
pub open spec fn core_size_of(value: Size) -> CoreSize {
    match value {
        Size::Byte => CoreSize::Byte,
        Size::Word => CoreSize::Word,
        Size::Long => CoreSize::Long,
    }
}

fn core_size(value: Size) -> (r: CoreSize)
    ensures
        r == core_size_of(value),
{
    match value {
        Size::Byte => CoreSize::Byte,
        Size::Word => CoreSize::Word,
        Size::Long => CoreSize::Long,
    }
}

/// The direction that a decoder value stands for.
pub open spec fn direction_of(value: CoreDirection) -> Direction {
    match value {
        CoreDirection::RegisterToMemory => Direction::RegisterToMemory,
        CoreDirection::MemoryToRegister => Direction::MemoryToRegister,
        CoreDirection::DstReg => Direction::DstReg,
        CoreDirection::DstEa => Direction::DstEa,
        CoreDirection::Left => Direction::Left,
        CoreDirection::Right => Direction::Right,
        CoreDirection::RegisterToUsp => Direction::RegisterToUsp,
        CoreDirection::UspToRegister => Direction::UspToRegister,
        CoreDirection::RegisterToRegister => Direction::RegisterToRegister,
        CoreDirection::MemoryToMemory => Direction::MemoryToMemory,
        CoreDirection::ExchangeData => Direction::ExchangeData,
        CoreDirection::ExchangeAddress => Direction::ExchangeAddress,
        CoreDirection::ExchangeDataAddress => Direction::ExchangeDataAddress,
    }
}

fn convert_direction(value: CoreDirection) -> (r: Direction)
    ensures
        r == direction_of(value),
{
    match value {
        CoreDirection::RegisterToMemory => Direction::RegisterToMemory,
        CoreDirection::MemoryToRegister => Direction::MemoryToRegister,
        CoreDirection::DstReg => Direction::DstReg,
        CoreDirection::DstEa => Direction::DstEa,
        CoreDirection::Left => Direction::Left,
        CoreDirection::Right => Direction::Right,
        CoreDirection::RegisterToUsp => Direction::RegisterToUsp,
        CoreDirection::UspToRegister => Direction::UspToRegister,
        CoreDirection::RegisterToRegister => Direction::RegisterToRegister,
        CoreDirection::MemoryToMemory => Direction::MemoryToMemory,
        CoreDirection::ExchangeData => Direction::ExchangeData,
        CoreDirection::ExchangeAddress => Direction::ExchangeAddress,
        CoreDirection::ExchangeDataAddress => Direction::ExchangeDataAddress,
    }
}

/// The decoder value that stands for a direction.
pub open spec fn core_direction_of(value: Direction) -> CoreDirection {
    match value {
        Direction::RegisterToMemory => CoreDirection::RegisterToMemory,
        Direction::MemoryToRegister => CoreDirection::MemoryToRegister,
        Direction::DstReg => CoreDirection::DstReg,
        Direction::DstEa => CoreDirection::DstEa,
        Direction::Left => CoreDirection::Left,
        Direction::Right => CoreDirection::Right,
        Direction::RegisterToUsp => CoreDirection::RegisterToUsp,
        Direction::UspToRegister => CoreDirection::UspToRegister,
        Direction::RegisterToRegister => CoreDirection::RegisterToRegister,
        Direction::MemoryToMemory => CoreDirection::MemoryToMemory,
        Direction::ExchangeData => CoreDirection::ExchangeData,
        Direction::ExchangeAddress => CoreDirection::ExchangeAddress,
        Direction::ExchangeDataAddress => CoreDirection::ExchangeDataAddress,
    }
}

fn core_direction(value: Direction) -> (r: CoreDirection)
    ensures
        r == core_direction_of(value),
{
    match value {
        Direction::RegisterToMemory => CoreDirection::RegisterToMemory,
        Direction::MemoryToRegister => CoreDirection::MemoryToRegister,
        Direction::DstReg => CoreDirection::DstReg,
        Direction::DstEa => CoreDirection::DstEa,
        Direction::Left => CoreDirection::Left,
        Direction::Right => CoreDirection::Right,
        Direction::RegisterToUsp => CoreDirection::RegisterToUsp,
        Direction::UspToRegister => CoreDirection::UspToRegister,
        Direction::RegisterToRegister => CoreDirection::RegisterToRegister,
        Direction::MemoryToMemory => CoreDirection::MemoryToMemory,
        Direction::ExchangeData => CoreDirection::ExchangeData,
        Direction::ExchangeAddress => CoreDirection::ExchangeAddress,
        Direction::ExchangeDataAddress => CoreDirection::ExchangeDataAddress,
    }
}

/// The addressing mode that a decoder value stands for.
pub open spec fn mode_of(value: CoreMode) -> AddressingMode {
    match value {
        CoreMode::Drd(f0) => AddressingMode::Drd(f0),
        CoreMode::Ard(f0) => AddressingMode::Ard(f0),
        CoreMode::Ari(f0) => AddressingMode::Ari(f0),
        CoreMode::Ariwpo(f0) => AddressingMode::Ariwpo(f0),
        CoreMode::Ariwpr(f0) => AddressingMode::Ariwpr(f0),
        CoreMode::Ariwd(f0, f1) => AddressingMode::Ariwd(f0, f1),
        CoreMode::Ariwi8(f0, f1) => AddressingMode::Ariwi8(f0, BriefExtensionWord(f1.0)),
        CoreMode::AbsShort(f0) => AddressingMode::AbsShort(f0),
        CoreMode::AbsLong(f0) => AddressingMode::AbsLong(f0),
        CoreMode::Pciwd(f0, f1) => AddressingMode::Pciwd(f0, f1),
        CoreMode::Pciwi8(f0, f1) => AddressingMode::Pciwi8(f0, BriefExtensionWord(f1.0)),
        CoreMode::Immediate(f0) => AddressingMode::Immediate(f0),
    }
}

fn convert_mode(value: CoreMode) -> (r: AddressingMode)
    ensures
        r == mode_of(value),
{
    match value {
        CoreMode::Drd(f0) => AddressingMode::Drd(f0),
        CoreMode::Ard(f0) => AddressingMode::Ard(f0),
        CoreMode::Ari(f0) => AddressingMode::Ari(f0),
        CoreMode::Ariwpo(f0) => AddressingMode::Ariwpo(f0),
        CoreMode::Ariwpr(f0) => AddressingMode::Ariwpr(f0),
        CoreMode::Ariwd(f0, f1) => AddressingMode::Ariwd(f0, f1),
        CoreMode::Ariwi8(f0, f1) => AddressingMode::Ariwi8(f0, BriefExtensionWord(f1.0)),
        CoreMode::AbsShort(f0) => AddressingMode::AbsShort(f0),
        CoreMode::AbsLong(f0) => AddressingMode::AbsLong(f0),
        CoreMode::Pciwd(f0, f1) => AddressingMode::Pciwd(f0, f1),
        CoreMode::Pciwi8(f0, f1) => AddressingMode::Pciwi8(f0, BriefExtensionWord(f1.0)),
        CoreMode::Immediate(f0) => AddressingMode::Immediate(f0),
    }
}

/// The decoder value that stands for a addressing mode.
pub open spec fn core_mode_of(value: AddressingMode) -> CoreMode {
    match value {
        AddressingMode::Drd(f0) => CoreMode::Drd(f0),
        AddressingMode::Ard(f0) => CoreMode::Ard(f0),
        AddressingMode::Ari(f0) => CoreMode::Ari(f0),
        AddressingMode::Ariwpo(f0) => CoreMode::Ariwpo(f0),
        AddressingMode::Ariwpr(f0) => CoreMode::Ariwpr(f0),
        AddressingMode::Ariwd(f0, f1) => CoreMode::Ariwd(f0, f1),
        AddressingMode::Ariwi8(f0, f1) => CoreMode::Ariwi8(f0, CoreExtension(f1.0)),
        AddressingMode::AbsShort(f0) => CoreMode::AbsShort(f0),
        AddressingMode::AbsLong(f0) => CoreMode::AbsLong(f0),
        AddressingMode::Pciwd(f0, f1) => CoreMode::Pciwd(f0, f1),
        AddressingMode::Pciwi8(f0, f1) => CoreMode::Pciwi8(f0, CoreExtension(f1.0)),
        AddressingMode::Immediate(f0) => CoreMode::Immediate(f0),
    }
}

fn core_mode(value: AddressingMode) -> (r: CoreMode)
    ensures
        r == core_mode_of(value),
{
    match value {
        AddressingMode::Drd(f0) => CoreMode::Drd(f0),
        AddressingMode::Ard(f0) => CoreMode::Ard(f0),
        AddressingMode::Ari(f0) => CoreMode::Ari(f0),
        AddressingMode::Ariwpo(f0) => CoreMode::Ariwpo(f0),
        AddressingMode::Ariwpr(f0) => CoreMode::Ariwpr(f0),
        AddressingMode::Ariwd(f0, f1) => CoreMode::Ariwd(f0, f1),
        AddressingMode::Ariwi8(f0, f1) => CoreMode::Ariwi8(f0, CoreExtension(f1.0)),
        AddressingMode::AbsShort(f0) => CoreMode::AbsShort(f0),
        AddressingMode::AbsLong(f0) => CoreMode::AbsLong(f0),
        AddressingMode::Pciwd(f0, f1) => CoreMode::Pciwd(f0, f1),
        AddressingMode::Pciwi8(f0, f1) => CoreMode::Pciwi8(f0, CoreExtension(f1.0)),
        AddressingMode::Immediate(f0) => CoreMode::Immediate(f0),
    }
}

/// The operand form that a decoder value stands for.
pub open spec fn operands_of(value: CoreOperands) -> Operands {
    match value {
        CoreOperands::NoOperands => Operands::NoOperands,
        CoreOperands::Immediate(f0) => Operands::Immediate(f0),
        CoreOperands::SizeEffectiveAddressImmediate(f0, f1, f2) => Operands::SizeEffectiveAddressImmediate(size_of(f0), mode_of(f1), f2),
        CoreOperands::EffectiveAddressCount(f0, f1) => Operands::EffectiveAddressCount(mode_of(f0), f1),
        CoreOperands::EffectiveAddress(f0) => Operands::EffectiveAddress(mode_of(f0)),
        CoreOperands::SizeEffectiveAddress(f0, f1) => Operands::SizeEffectiveAddress(size_of(f0), mode_of(f1)),
        CoreOperands::RegisterEffectiveAddress(f0, f1) => Operands::RegisterEffectiveAddress(f0, mode_of(f1)),
        CoreOperands::RegisterDirectionSizeRegisterDisplacement(f0, f1, f2, f3, f4) => Operands::RegisterDirectionSizeRegisterDisplacement(f0, direction_of(f1), size_of(f2), f3, f4),
        CoreOperands::SizeRegisterEffectiveAddress(f0, f1, f2) => Operands::SizeRegisterEffectiveAddress(size_of(f0), f1, mode_of(f2)),
        CoreOperands::SizeEffectiveAddressEffectiveAddress(f0, f1, f2) => Operands::SizeEffectiveAddressEffectiveAddress(size_of(f0), mode_of(f1), mode_of(f2)),
        CoreOperands::RegisterOpmodeRegister(f0, f1, f2) => Operands::RegisterOpmodeRegister(f0, direction_of(f1), f2),
        CoreOperands::OpmodeRegister(f0, f1) => Operands::OpmodeRegister(f0, f1),
        CoreOperands::Vector(f0) => Operands::Vector(f0),
        CoreOperands::RegisterDisplacement(f0, f1) => Operands::RegisterDisplacement(f0, f1),
        CoreOperands::Register(f0) => Operands::Register(f0),
        CoreOperands::DirectionRegister(f0, f1) => Operands::DirectionRegister(direction_of(f0), f1),
        CoreOperands::DirectionSizeEffectiveAddressList(f0, f1, f2, f3) => Operands::DirectionSizeEffectiveAddressList(direction_of(f0), size_of(f1), mode_of(f2), f3),
        CoreOperands::DataSizeEffectiveAddress(f0, f1, f2) => Operands::DataSizeEffectiveAddress(f0, size_of(f1), mode_of(f2)),
        CoreOperands::ConditionEffectiveAddress(f0, f1) => Operands::ConditionEffectiveAddress(f0, mode_of(f1)),
        CoreOperands::ConditionRegisterDisplacement(f0, f1, f2) => Operands::ConditionRegisterDisplacement(f0, f1, f2),
        CoreOperands::Displacement(f0) => Operands::Displacement(f0),
        CoreOperands::ConditionDisplacement(f0, f1) => Operands::ConditionDisplacement(f0, f1),
        CoreOperands::RegisterData(f0, f1) => Operands::RegisterData(f0, f1),
        CoreOperands::RegisterDirectionSizeEffectiveAddress(f0, f1, f2, f3) => Operands::RegisterDirectionSizeEffectiveAddress(f0, direction_of(f1), size_of(f2), mode_of(f3)),
        CoreOperands::RegisterSizeEffectiveAddress(f0, f1, f2) => Operands::RegisterSizeEffectiveAddress(f0, size_of(f1), mode_of(f2)),
        CoreOperands::RegisterSizeModeRegister(f0, f1, f2, f3) => Operands::RegisterSizeModeRegister(f0, size_of(f1), direction_of(f2), f3),
        CoreOperands::RegisterSizeRegister(f0, f1, f2) => Operands::RegisterSizeRegister(f0, size_of(f1), f2),
        CoreOperands::DirectionEffectiveAddress(f0, f1) => Operands::DirectionEffectiveAddress(direction_of(f0), mode_of(f1)),
        CoreOperands::RotationDirectionSizeModeRegister(f0, f1, f2, f3, f4) => Operands::RotationDirectionSizeModeRegister(f0, direction_of(f1), size_of(f2), f3, f4),
    }
}

fn convert_operands(value: CoreOperands) -> (r: Operands)
    ensures
        r == operands_of(value),
{
    match value {
        CoreOperands::NoOperands => Operands::NoOperands,
        CoreOperands::Immediate(f0) => Operands::Immediate(f0),
        CoreOperands::SizeEffectiveAddressImmediate(f0, f1, f2) => Operands::SizeEffectiveAddressImmediate(convert_size(f0), convert_mode(f1), f2),
        CoreOperands::EffectiveAddressCount(f0, f1) => Operands::EffectiveAddressCount(convert_mode(f0), f1),
        CoreOperands::EffectiveAddress(f0) => Operands::EffectiveAddress(convert_mode(f0)),
        CoreOperands::SizeEffectiveAddress(f0, f1) => Operands::SizeEffectiveAddress(convert_size(f0), convert_mode(f1)),
        CoreOperands::RegisterEffectiveAddress(f0, f1) => Operands::RegisterEffectiveAddress(f0, convert_mode(f1)),
        CoreOperands::RegisterDirectionSizeRegisterDisplacement(f0, f1, f2, f3, f4) => Operands::RegisterDirectionSizeRegisterDisplacement(f0, convert_direction(f1), convert_size(f2), f3, f4),
        CoreOperands::SizeRegisterEffectiveAddress(f0, f1, f2) => Operands::SizeRegisterEffectiveAddress(convert_size(f0), f1, convert_mode(f2)),
        CoreOperands::SizeEffectiveAddressEffectiveAddress(f0, f1, f2) => Operands::SizeEffectiveAddressEffectiveAddress(convert_size(f0), convert_mode(f1), convert_mode(f2)),
        CoreOperands::RegisterOpmodeRegister(f0, f1, f2) => Operands::RegisterOpmodeRegister(f0, convert_direction(f1), f2),
        CoreOperands::OpmodeRegister(f0, f1) => Operands::OpmodeRegister(f0, f1),
        CoreOperands::Vector(f0) => Operands::Vector(f0),
        CoreOperands::RegisterDisplacement(f0, f1) => Operands::RegisterDisplacement(f0, f1),
        CoreOperands::Register(f0) => Operands::Register(f0),
        CoreOperands::DirectionRegister(f0, f1) => Operands::DirectionRegister(convert_direction(f0), f1),
        CoreOperands::DirectionSizeEffectiveAddressList(f0, f1, f2, f3) => Operands::DirectionSizeEffectiveAddressList(convert_direction(f0), convert_size(f1), convert_mode(f2), f3),
        CoreOperands::DataSizeEffectiveAddress(f0, f1, f2) => Operands::DataSizeEffectiveAddress(f0, convert_size(f1), convert_mode(f2)),
        CoreOperands::ConditionEffectiveAddress(f0, f1) => Operands::ConditionEffectiveAddress(f0, convert_mode(f1)),
        CoreOperands::ConditionRegisterDisplacement(f0, f1, f2) => Operands::ConditionRegisterDisplacement(f0, f1, f2),
        CoreOperands::Displacement(f0) => Operands::Displacement(f0),
        CoreOperands::ConditionDisplacement(f0, f1) => Operands::ConditionDisplacement(f0, f1),
        CoreOperands::RegisterData(f0, f1) => Operands::RegisterData(f0, f1),
        CoreOperands::RegisterDirectionSizeEffectiveAddress(f0, f1, f2, f3) => Operands::RegisterDirectionSizeEffectiveAddress(f0, convert_direction(f1), convert_size(f2), convert_mode(f3)),
        CoreOperands::RegisterSizeEffectiveAddress(f0, f1, f2) => Operands::RegisterSizeEffectiveAddress(f0, convert_size(f1), convert_mode(f2)),
        CoreOperands::RegisterSizeModeRegister(f0, f1, f2, f3) => Operands::RegisterSizeModeRegister(f0, convert_size(f1), convert_direction(f2), f3),
        CoreOperands::RegisterSizeRegister(f0, f1, f2) => Operands::RegisterSizeRegister(f0, convert_size(f1), f2),
        CoreOperands::DirectionEffectiveAddress(f0, f1) => Operands::DirectionEffectiveAddress(convert_direction(f0), convert_mode(f1)),
        CoreOperands::RotationDirectionSizeModeRegister(f0, f1, f2, f3, f4) => Operands::RotationDirectionSizeModeRegister(f0, convert_direction(f1), convert_size(f2), f3, f4),
    }
}

/// The decoder value that stands for a operand form.
pub open spec fn core_operands_of(value: Operands) -> CoreOperands {
    match value {
        Operands::NoOperands => CoreOperands::NoOperands,
        Operands::Immediate(f0) => CoreOperands::Immediate(f0),
        Operands::SizeEffectiveAddressImmediate(f0, f1, f2) => CoreOperands::SizeEffectiveAddressImmediate(core_size_of(f0), core_mode_of(f1), f2),
        Operands::EffectiveAddressCount(f0, f1) => CoreOperands::EffectiveAddressCount(core_mode_of(f0), f1),
        Operands::EffectiveAddress(f0) => CoreOperands::EffectiveAddress(core_mode_of(f0)),
        Operands::SizeEffectiveAddress(f0, f1) => CoreOperands::SizeEffectiveAddress(core_size_of(f0), core_mode_of(f1)),
        Operands::RegisterEffectiveAddress(f0, f1) => CoreOperands::RegisterEffectiveAddress(f0, core_mode_of(f1)),
        Operands::RegisterDirectionSizeRegisterDisplacement(f0, f1, f2, f3, f4) => CoreOperands::RegisterDirectionSizeRegisterDisplacement(f0, core_direction_of(f1), core_size_of(f2), f3, f4),
        Operands::SizeRegisterEffectiveAddress(f0, f1, f2) => CoreOperands::SizeRegisterEffectiveAddress(core_size_of(f0), f1, core_mode_of(f2)),
        Operands::SizeEffectiveAddressEffectiveAddress(f0, f1, f2) => CoreOperands::SizeEffectiveAddressEffectiveAddress(core_size_of(f0), core_mode_of(f1), core_mode_of(f2)),
        Operands::RegisterOpmodeRegister(f0, f1, f2) => CoreOperands::RegisterOpmodeRegister(f0, core_direction_of(f1), f2),
        Operands::OpmodeRegister(f0, f1) => CoreOperands::OpmodeRegister(f0, f1),
        Operands::Vector(f0) => CoreOperands::Vector(f0),
        Operands::RegisterDisplacement(f0, f1) => CoreOperands::RegisterDisplacement(f0, f1),
        Operands::Register(f0) => CoreOperands::Register(f0),
        Operands::DirectionRegister(f0, f1) => CoreOperands::DirectionRegister(core_direction_of(f0), f1),
        Operands::DirectionSizeEffectiveAddressList(f0, f1, f2, f3) => CoreOperands::DirectionSizeEffectiveAddressList(core_direction_of(f0), core_size_of(f1), core_mode_of(f2), f3),
        Operands::DataSizeEffectiveAddress(f0, f1, f2) => CoreOperands::DataSizeEffectiveAddress(f0, core_size_of(f1), core_mode_of(f2)),
        Operands::ConditionEffectiveAddress(f0, f1) => CoreOperands::ConditionEffectiveAddress(f0, core_mode_of(f1)),
        Operands::ConditionRegisterDisplacement(f0, f1, f2) => CoreOperands::ConditionRegisterDisplacement(f0, f1, f2),
        Operands::Displacement(f0) => CoreOperands::Displacement(f0),
        Operands::ConditionDisplacement(f0, f1) => CoreOperands::ConditionDisplacement(f0, f1),
        Operands::RegisterData(f0, f1) => CoreOperands::RegisterData(f0, f1),
        Operands::RegisterDirectionSizeEffectiveAddress(f0, f1, f2, f3) => CoreOperands::RegisterDirectionSizeEffectiveAddress(f0, core_direction_of(f1), core_size_of(f2), core_mode_of(f3)),
        Operands::RegisterSizeEffectiveAddress(f0, f1, f2) => CoreOperands::RegisterSizeEffectiveAddress(f0, core_size_of(f1), core_mode_of(f2)),
        Operands::RegisterSizeModeRegister(f0, f1, f2, f3) => CoreOperands::RegisterSizeModeRegister(f0, core_size_of(f1), core_direction_of(f2), f3),
        Operands::RegisterSizeRegister(f0, f1, f2) => CoreOperands::RegisterSizeRegister(f0, core_size_of(f1), f2),
        Operands::DirectionEffectiveAddress(f0, f1) => CoreOperands::DirectionEffectiveAddress(core_direction_of(f0), core_mode_of(f1)),
        Operands::RotationDirectionSizeModeRegister(f0, f1, f2, f3, f4) => CoreOperands::RotationDirectionSizeModeRegister(f0, core_direction_of(f1), core_size_of(f2), f3, f4),
    }
}

fn core_operands(value: Operands) -> (r: CoreOperands)
    ensures
        r == core_operands_of(value),
{
    match value {
        Operands::NoOperands => CoreOperands::NoOperands,
        Operands::Immediate(f0) => CoreOperands::Immediate(f0),
        Operands::SizeEffectiveAddressImmediate(f0, f1, f2) => CoreOperands::SizeEffectiveAddressImmediate(core_size(f0), core_mode(f1), f2),
        Operands::EffectiveAddressCount(f0, f1) => CoreOperands::EffectiveAddressCount(core_mode(f0), f1),
        Operands::EffectiveAddress(f0) => CoreOperands::EffectiveAddress(core_mode(f0)),
        Operands::SizeEffectiveAddress(f0, f1) => CoreOperands::SizeEffectiveAddress(core_size(f0), core_mode(f1)),
        Operands::RegisterEffectiveAddress(f0, f1) => CoreOperands::RegisterEffectiveAddress(f0, core_mode(f1)),
        Operands::RegisterDirectionSizeRegisterDisplacement(f0, f1, f2, f3, f4) => CoreOperands::RegisterDirectionSizeRegisterDisplacement(f0, core_direction(f1), core_size(f2), f3, f4),
        Operands::SizeRegisterEffectiveAddress(f0, f1, f2) => CoreOperands::SizeRegisterEffectiveAddress(core_size(f0), f1, core_mode(f2)),
        Operands::SizeEffectiveAddressEffectiveAddress(f0, f1, f2) => CoreOperands::SizeEffectiveAddressEffectiveAddress(core_size(f0), core_mode(f1), core_mode(f2)),
        Operands::RegisterOpmodeRegister(f0, f1, f2) => CoreOperands::RegisterOpmodeRegister(f0, core_direction(f1), f2),
        Operands::OpmodeRegister(f0, f1) => CoreOperands::OpmodeRegister(f0, f1),
        Operands::Vector(f0) => CoreOperands::Vector(f0),
        Operands::RegisterDisplacement(f0, f1) => CoreOperands::RegisterDisplacement(f0, f1),
        Operands::Register(f0) => CoreOperands::Register(f0),
        Operands::DirectionRegister(f0, f1) => CoreOperands::DirectionRegister(core_direction(f0), f1),
        Operands::DirectionSizeEffectiveAddressList(f0, f1, f2, f3) => CoreOperands::DirectionSizeEffectiveAddressList(core_direction(f0), core_size(f1), core_mode(f2), f3),
        Operands::DataSizeEffectiveAddress(f0, f1, f2) => CoreOperands::DataSizeEffectiveAddress(f0, core_size(f1), core_mode(f2)),
        Operands::ConditionEffectiveAddress(f0, f1) => CoreOperands::ConditionEffectiveAddress(f0, core_mode(f1)),
        Operands::ConditionRegisterDisplacement(f0, f1, f2) => CoreOperands::ConditionRegisterDisplacement(f0, f1, f2),
        Operands::Displacement(f0) => CoreOperands::Displacement(f0),
        Operands::ConditionDisplacement(f0, f1) => CoreOperands::ConditionDisplacement(f0, f1),
        Operands::RegisterData(f0, f1) => CoreOperands::RegisterData(f0, f1),
        Operands::RegisterDirectionSizeEffectiveAddress(f0, f1, f2, f3) => CoreOperands::RegisterDirectionSizeEffectiveAddress(f0, core_direction(f1), core_size(f2), core_mode(f3)),
        Operands::RegisterSizeEffectiveAddress(f0, f1, f2) => CoreOperands::RegisterSizeEffectiveAddress(f0, core_size(f1), core_mode(f2)),
        Operands::RegisterSizeModeRegister(f0, f1, f2, f3) => CoreOperands::RegisterSizeModeRegister(f0, core_size(f1), core_direction(f2), f3),
        Operands::RegisterSizeRegister(f0, f1, f2) => CoreOperands::RegisterSizeRegister(f0, core_size(f1), f2),
        Operands::DirectionEffectiveAddress(f0, f1) => CoreOperands::DirectionEffectiveAddress(core_direction(f0), core_mode(f1)),
        Operands::RotationDirectionSizeModeRegister(f0, f1, f2, f3, f4) => CoreOperands::RotationDirectionSizeModeRegister(f0, core_direction(f1), core_size(f2), f3, f4),
    }
}

/// The isa that a decoder value stands for.
pub open spec fn isa_of(value: CoreIsa) -> Isa {
    match value {
        CoreIsa::Unknown => Isa::Unknown,
        CoreIsa::Abcd => Isa::Abcd,
        CoreIsa::Add => Isa::Add,
        CoreIsa::Adda => Isa::Adda,
        CoreIsa::Addi => Isa::Addi,
        CoreIsa::Addq => Isa::Addq,
        CoreIsa::Addx => Isa::Addx,
        CoreIsa::And => Isa::And,
        CoreIsa::Andi => Isa::Andi,
        CoreIsa::Andiccr => Isa::Andiccr,
        CoreIsa::Andisr => Isa::Andisr,
        CoreIsa::Asm => Isa::Asm,
        CoreIsa::Asr => Isa::Asr,
        CoreIsa::Bcc => Isa::Bcc,
        CoreIsa::Bchg => Isa::Bchg,
        CoreIsa::Bclr => Isa::Bclr,
        CoreIsa::Bra => Isa::Bra,
        CoreIsa::Bset => Isa::Bset,
        CoreIsa::Bsr => Isa::Bsr,
        CoreIsa::Btst => Isa::Btst,
        CoreIsa::Chk => Isa::Chk,
        CoreIsa::Clr => Isa::Clr,
        CoreIsa::Cmp => Isa::Cmp,
        CoreIsa::Cmpa => Isa::Cmpa,
        CoreIsa::Cmpi => Isa::Cmpi,
        CoreIsa::Cmpm => Isa::Cmpm,
        CoreIsa::Dbcc => Isa::Dbcc,
        CoreIsa::Divs => Isa::Divs,
        CoreIsa::Divu => Isa::Divu,
        CoreIsa::Eor => Isa::Eor,
        CoreIsa::Eori => Isa::Eori,
        CoreIsa::Eoriccr => Isa::Eoriccr,
        CoreIsa::Eorisr => Isa::Eorisr,
        CoreIsa::Exg => Isa::Exg,
        CoreIsa::Ext => Isa::Ext,
        CoreIsa::Illegal => Isa::Illegal,
        CoreIsa::Jmp => Isa::Jmp,
        CoreIsa::Jsr => Isa::Jsr,
        CoreIsa::Lea => Isa::Lea,
        CoreIsa::Link => Isa::Link,
        CoreIsa::Lsm => Isa::Lsm,
        CoreIsa::Lsr => Isa::Lsr,
        CoreIsa::Move => Isa::Move,
        CoreIsa::Movea => Isa::Movea,
        CoreIsa::Moveccr => Isa::Moveccr,
        CoreIsa::Movefsr => Isa::Movefsr,
        CoreIsa::Movesr => Isa::Movesr,
        CoreIsa::Moveusp => Isa::Moveusp,
        CoreIsa::Movem => Isa::Movem,
        CoreIsa::Movep => Isa::Movep,
        CoreIsa::Moveq => Isa::Moveq,
        CoreIsa::Muls => Isa::Muls,
        CoreIsa::Mulu => Isa::Mulu,
        CoreIsa::Nbcd => Isa::Nbcd,
        CoreIsa::Neg => Isa::Neg,
        CoreIsa::Negx => Isa::Negx,
        CoreIsa::Nop => Isa::Nop,
        CoreIsa::Not => Isa::Not,
        CoreIsa::Or => Isa::Or,
        CoreIsa::Ori => Isa::Ori,
        CoreIsa::Oriccr => Isa::Oriccr,
        CoreIsa::Orisr => Isa::Orisr,
        CoreIsa::Pea => Isa::Pea,
        CoreIsa::Reset => Isa::Reset,
        CoreIsa::Rom => Isa::Rom,
        CoreIsa::Ror => Isa::Ror,
        CoreIsa::Roxm => Isa::Roxm,
        CoreIsa::Roxr => Isa::Roxr,
        CoreIsa::Rte => Isa::Rte,
        CoreIsa::Rtr => Isa::Rtr,
        CoreIsa::Rts => Isa::Rts,
        CoreIsa::Sbcd => Isa::Sbcd,
        CoreIsa::Scc => Isa::Scc,
        CoreIsa::Stop => Isa::Stop,
        CoreIsa::Sub => Isa::Sub,
        CoreIsa::Suba => Isa::Suba,
        CoreIsa::Subi => Isa::Subi,
        CoreIsa::Subq => Isa::Subq,
        CoreIsa::Subx => Isa::Subx,
        CoreIsa::Swap => Isa::Swap,
        CoreIsa::Tas => Isa::Tas,
        CoreIsa::Trap => Isa::Trap,
        CoreIsa::Trapv => Isa::Trapv,
        CoreIsa::Tst => Isa::Tst,
        CoreIsa::Unlk => Isa::Unlk,
        CoreIsa::_Size => Isa::Unknown,
    }
}

fn convert_isa(value: CoreIsa) -> (r: Isa)
    ensures
        r == isa_of(value),
{
    match value {
        CoreIsa::Unknown => Isa::Unknown,
        CoreIsa::Abcd => Isa::Abcd,
        CoreIsa::Add => Isa::Add,
        CoreIsa::Adda => Isa::Adda,
        CoreIsa::Addi => Isa::Addi,
        CoreIsa::Addq => Isa::Addq,
        CoreIsa::Addx => Isa::Addx,
        CoreIsa::And => Isa::And,
        CoreIsa::Andi => Isa::Andi,
        CoreIsa::Andiccr => Isa::Andiccr,
        CoreIsa::Andisr => Isa::Andisr,
        CoreIsa::Asm => Isa::Asm,
        CoreIsa::Asr => Isa::Asr,
        CoreIsa::Bcc => Isa::Bcc,
        CoreIsa::Bchg => Isa::Bchg,
        CoreIsa::Bclr => Isa::Bclr,
        CoreIsa::Bra => Isa::Bra,
        CoreIsa::Bset => Isa::Bset,
        CoreIsa::Bsr => Isa::Bsr,
        CoreIsa::Btst => Isa::Btst,
        CoreIsa::Chk => Isa::Chk,
        CoreIsa::Clr => Isa::Clr,
        CoreIsa::Cmp => Isa::Cmp,
        CoreIsa::Cmpa => Isa::Cmpa,
        CoreIsa::Cmpi => Isa::Cmpi,
        CoreIsa::Cmpm => Isa::Cmpm,
        CoreIsa::Dbcc => Isa::Dbcc,
        CoreIsa::Divs => Isa::Divs,
        CoreIsa::Divu => Isa::Divu,
        CoreIsa::Eor => Isa::Eor,
        CoreIsa::Eori => Isa::Eori,
        CoreIsa::Eoriccr => Isa::Eoriccr,
        CoreIsa::Eorisr => Isa::Eorisr,
        CoreIsa::Exg => Isa::Exg,
        CoreIsa::Ext => Isa::Ext,
        CoreIsa::Illegal => Isa::Illegal,
        CoreIsa::Jmp => Isa::Jmp,
        CoreIsa::Jsr => Isa::Jsr,
        CoreIsa::Lea => Isa::Lea,
        CoreIsa::Link => Isa::Link,
        CoreIsa::Lsm => Isa::Lsm,
        CoreIsa::Lsr => Isa::Lsr,
        CoreIsa::Move => Isa::Move,
        CoreIsa::Movea => Isa::Movea,
        CoreIsa::Moveccr => Isa::Moveccr,
        CoreIsa::Movefsr => Isa::Movefsr,
        CoreIsa::Movesr => Isa::Movesr,
        CoreIsa::Moveusp => Isa::Moveusp,
        CoreIsa::Movem => Isa::Movem,
        CoreIsa::Movep => Isa::Movep,
        CoreIsa::Moveq => Isa::Moveq,
        CoreIsa::Muls => Isa::Muls,
        CoreIsa::Mulu => Isa::Mulu,
        CoreIsa::Nbcd => Isa::Nbcd,
        CoreIsa::Neg => Isa::Neg,
        CoreIsa::Negx => Isa::Negx,
        CoreIsa::Nop => Isa::Nop,
        CoreIsa::Not => Isa::Not,
        CoreIsa::Or => Isa::Or,
        CoreIsa::Ori => Isa::Ori,
        CoreIsa::Oriccr => Isa::Oriccr,
        CoreIsa::Orisr => Isa::Orisr,
        CoreIsa::Pea => Isa::Pea,
        CoreIsa::Reset => Isa::Reset,
        CoreIsa::Rom => Isa::Rom,
        CoreIsa::Ror => Isa::Ror,
        CoreIsa::Roxm => Isa::Roxm,
        CoreIsa::Roxr => Isa::Roxr,
        CoreIsa::Rte => Isa::Rte,
        CoreIsa::Rtr => Isa::Rtr,
        CoreIsa::Rts => Isa::Rts,
        CoreIsa::Sbcd => Isa::Sbcd,
        CoreIsa::Scc => Isa::Scc,
        CoreIsa::Stop => Isa::Stop,
        CoreIsa::Sub => Isa::Sub,
        CoreIsa::Suba => Isa::Suba,
        CoreIsa::Subi => Isa::Subi,
        CoreIsa::Subq => Isa::Subq,
        CoreIsa::Subx => Isa::Subx,
        CoreIsa::Swap => Isa::Swap,
        CoreIsa::Tas => Isa::Tas,
        CoreIsa::Trap => Isa::Trap,
        CoreIsa::Trapv => Isa::Trapv,
        CoreIsa::Tst => Isa::Tst,
        CoreIsa::Unlk => Isa::Unlk,
        CoreIsa::_Size => Isa::Unknown,
    }
}

/// The mnemonic of an opcode word: `Isa::from` of the `m68000` crate, a table
/// with one entry per opcode word.
pub uninterp spec fn opcode_isa(opcode: u16) -> Isa;

/// What `Instruction::from_memory` of the `m68000` crate reads at `address` of a
/// big-endian byte image: the opcode word, the operands and the address after
/// the last word it consumed; `None` where it reports an address or bus error.
pub uninterp spec fn image_instruction(image: Seq<u8>, address: u32) -> Option<(u16, Operands, u32)>;

/// What `Instruction::disassemble` of the `m68000` crate prints for an
/// instruction with this opcode word, address and these operands.
pub uninterp spec fn disassembly(opcode: u16, pc: u32, operands: Operands) -> Seq<char>;

/// `Isa::from` of the `m68000` crate: a look-up in its table, which the name
/// [`opcode_isa`] stands for.
#[verifier::external_body]
fn look_up(opcode: u16) -> (r: CoreIsa)
    ensures
        isa_of(r) == opcode_isa(opcode),
{
    CoreIsa::from(opcode)
}

/// `Instruction::from_memory` of the `m68000` crate over a byte slice.
///
/// Claimed: the outcome is the named one. An odd address is an address error. A
/// decoded instruction carries its address; its operand form is the one its
/// mnemonic is decoded with; register fields are three bits wide, so they name
/// existing registers; one opcode word and at most four extension words were
/// read, each advancing the address by two, modulo the 32-bit address space.
/// The slice must hold ten bytes at `address`: the decoder panics where an
/// extension word is missing.
#[verifier::external_body]
fn read_image(image: &[u8], address: u32) -> (r: Option<(CoreInstruction, u32)>)
    requires
        address + 10 <= image@.len(),
    ensures
        match r {
            Some((core, end)) => {
                &&& image_instruction(image@, address) == Some(
                    (core.opcode, operands_of(core.operands), end),
                )
                &&& core.pc == address
                &&& address % 2 == 0
                &&& opcode_isa(core.opcode).takes(operands_of(core.operands))
                &&& operands_of(core.operands).in_range()
                &&& consumed(address, end)
            },
            None => image_instruction(image@, address) is None,
        },
{
    let mut memory = image;
    let mut words = memory.iter_u16(address);
    match CoreInstruction::from_memory(&mut words) {
        Ok(instruction) => Some((instruction, words.next_addr)),
        Err(_) => None,
    }
}

/// `end` lies two, four, six, eight or ten bytes after `address`, modulo the
/// 32-bit address space.
pub open spec fn consumed(address: u32, end: u32) -> bool {
    let length: int = if end >= address {
        end - address
    } else {
        end + 0x1_0000_0000 - address
    };
    2 <= length <= 10 && length % 2 == 0
}

/// `Instruction::disassemble` of the `m68000` crate: the text that the name
/// [`disassembly`] stands for. The operand form must be the one the opcode word
/// is decoded with: the printer panics on any other.
#[verifier::external_body]
fn print(core: CoreInstruction) -> (r: String)
    requires
        opcode_isa(core.opcode).takes(operands_of(core.operands)),
    ensures
        r@ == disassembly(core.opcode, core.pc, operands_of(core.operands)),
{
    core.disassemble()
}

/// The mnemonic of an opcode word.
pub fn isa_of_opcode(opcode: u16) -> (r: Isa)
    ensures
        r == opcode_isa(opcode),
{
    convert_isa(look_up(opcode))
}

/// The instruction that a decoder reading at `address` of `image` makes of it,
/// and the address after it.
pub open spec fn spec_read_instruction(image: Seq<u8>, address: u32) -> Option<(Instruction, u32)> {
    match image_instruction(image, address) {
        Some((opcode, operands, end)) => Some(
            (Instruction { opcode, pc: address, isa: opcode_isa(opcode), operands }, end),
        ),
        None => None,
    }
}

/// Decode the instruction at `address` of `image`, which must hold ten bytes
/// there, and report the address after it.
pub fn read_instruction(image: &[u8], address: u32) -> (r: Option<(Instruction, u32)>)
    requires
        address + 10 <= image@.len(),
    ensures
        r == spec_read_instruction(image@, address),
        r matches Some((instruction, end)) ==> {
            &&& instruction.wf()
            &&& instruction.pc == address
            &&& instruction.isa == opcode_isa(instruction.opcode)
            &&& address % 2 == 0
            &&& consumed(address, end)
        },
{
    match read_image(image, address) {
        Some((core, end)) => Some(
            (
                Instruction {
                    opcode: core.opcode,
                    pc: core.pc,
                    isa: isa_of_opcode(core.opcode),
                    operands: convert_operands(core.operands),
                },
                end,
            ),
        ),
        None => None,
    }
}

proof fn lemma_core_size_round_trip(size: Size)
    ensures
        size_of(core_size_of(size)) == size,
{
}

proof fn lemma_core_direction_round_trip(direction: Direction)
    ensures
        direction_of(core_direction_of(direction)) == direction,
{
}

proof fn lemma_core_mode_round_trip(mode: AddressingMode)
    ensures
        mode_of(core_mode_of(mode)) == mode,
{
}

/// Converting to the decoder's operands and back changes nothing.
proof fn lemma_core_operands_round_trip(operands: Operands)
    ensures
        operands_of(core_operands_of(operands)) == operands,
{
    match operands {
        Operands::SizeEffectiveAddressImmediate(f0, f1, _) => {
            lemma_core_size_round_trip(f0);
            lemma_core_mode_round_trip(f1);
        },
        Operands::EffectiveAddressCount(f0, _) => {
            lemma_core_mode_round_trip(f0);
        },
        Operands::EffectiveAddress(f0) => {
            lemma_core_mode_round_trip(f0);
        },
        Operands::SizeEffectiveAddress(f0, f1) => {
            lemma_core_size_round_trip(f0);
            lemma_core_mode_round_trip(f1);
        },
        Operands::RegisterEffectiveAddress(_, f1) => {
            lemma_core_mode_round_trip(f1);
        },
        Operands::RegisterDirectionSizeRegisterDisplacement(_, f1, f2, _, _) => {
            lemma_core_direction_round_trip(f1);
            lemma_core_size_round_trip(f2);
        },
        Operands::SizeRegisterEffectiveAddress(f0, _, f2) => {
            lemma_core_size_round_trip(f0);
            lemma_core_mode_round_trip(f2);
        },
        Operands::SizeEffectiveAddressEffectiveAddress(f0, f1, f2) => {
            lemma_core_size_round_trip(f0);
            lemma_core_mode_round_trip(f1);
            lemma_core_mode_round_trip(f2);
        },
        Operands::RegisterOpmodeRegister(_, f1, _) => {
            lemma_core_direction_round_trip(f1);
        },
        Operands::DirectionRegister(f0, _) => {
            lemma_core_direction_round_trip(f0);
        },
        Operands::DirectionSizeEffectiveAddressList(f0, f1, f2, _) => {
            lemma_core_direction_round_trip(f0);
            lemma_core_size_round_trip(f1);
            lemma_core_mode_round_trip(f2);
        },
        Operands::DataSizeEffectiveAddress(_, f1, f2) => {
            lemma_core_size_round_trip(f1);
            lemma_core_mode_round_trip(f2);
        },
        Operands::ConditionEffectiveAddress(_, f1) => {
            lemma_core_mode_round_trip(f1);
        },
        Operands::RegisterDirectionSizeEffectiveAddress(_, f1, f2, f3) => {
            lemma_core_direction_round_trip(f1);
            lemma_core_size_round_trip(f2);
            lemma_core_mode_round_trip(f3);
        },
        Operands::RegisterSizeEffectiveAddress(_, f1, f2) => {
            lemma_core_size_round_trip(f1);
            lemma_core_mode_round_trip(f2);
        },
        Operands::RegisterSizeModeRegister(_, f1, f2, _) => {
            lemma_core_size_round_trip(f1);
            lemma_core_direction_round_trip(f2);
        },
        Operands::RegisterSizeRegister(_, f1, _) => {
            lemma_core_size_round_trip(f1);
        },
        Operands::DirectionEffectiveAddress(f0, f1) => {
            lemma_core_direction_round_trip(f0);
            lemma_core_mode_round_trip(f1);
        },
        Operands::RotationDirectionSizeModeRegister(_, f1, f2, _, _) => {
            lemma_core_direction_round_trip(f1);
            lemma_core_size_round_trip(f2);
        },
        _ => {},
    }
}

/// The text of an instruction, as the decoder prints it.
pub(crate) fn disassemble(instruction: Instruction) -> (r: String)
    requires
        opcode_isa(instruction.opcode).takes(instruction.operands),
    ensures
        r@ == disassembly(instruction.opcode, instruction.pc, instruction.operands),
{
    proof {
        lemma_core_operands_round_trip(instruction.operands);
    }
    print(
        CoreInstruction {
            opcode: instruction.opcode,
            pc: instruction.pc,
            operands: core_operands(instruction.operands),
        },
    )
}

} // verus!
