//! The MC68000 as numbers: what its operations make of their operands.
//!
//! This is the processor's programming model, written down on its own. Registers hold
//! numbers from zero up to 2^32, a size names the low bytes of one, and arithmetic is that of
//! the integers, cut off at the size. The analyses are held against it.

use crate::m68k::{AddressingMode, BriefExtensionWord, Direction, Instruction, Isa, Operands, Size};
use vstd::prelude::*;

verus! {

/// How many values a size has.
pub open spec fn span_of(size: Size) -> int {
    match size {
        Size::Byte => 0x100,
        Size::Word => 0x1_0000,
        Size::Long => 0x1_0000_0000,
    }
}

/// The low bytes of a number.
pub open spec fn low(value: int, size: Size) -> int {
    value % span_of(size)
}

/// The low bytes of a number, read as two's complement.
pub open spec fn signed(value: int, size: Size) -> int {
    if 2 * low(value, size) < span_of(size) {
        low(value, size)
    } else {
        low(value, size) - span_of(size)
    }
}

/// A number with other low bytes.
pub open spec fn replaced(held: int, size: Size, value: int) -> int {
    held - low(held, size) + low(value, size)
}

/// A number in the 32-bit space.
pub open spec fn wrapped(value: int) -> int {
    value % 0x1_0000_0000
}

/// The condition codes of an operation.
pub struct Flags {
    pub negative: bool,
    pub zero: bool,
    pub overflow: bool,
    pub carry: bool,
}

/// The condition codes of subtracting one number from another, which is how they compare.
pub open spec fn compared(size: Size, value: int, other: int) -> Flags {
    let difference = signed(value, size) - signed(other, size);
    Flags {
        negative: signed(difference, size) < 0,
        zero: low(value, size) == low(other, size),
        overflow: signed(difference, size) != difference,
        carry: low(value, size) < low(other, size),
    }
}

/// Whether a condition holds, by its number.
pub open spec fn holds(condition: u8, flags: Flags) -> bool {
    if condition == 0 {
        true
    } else if condition == 1 {
        false
    } else if condition == 2 {
        !flags.carry && !flags.zero
    } else if condition == 3 {
        flags.carry || flags.zero
    } else if condition == 4 {
        !flags.carry
    } else if condition == 5 {
        flags.carry
    } else if condition == 6 {
        !flags.zero
    } else if condition == 7 {
        flags.zero
    } else if condition == 8 {
        !flags.overflow
    } else if condition == 9 {
        flags.overflow
    } else if condition == 10 {
        !flags.negative
    } else if condition == 11 {
        flags.negative
    } else if condition == 12 {
        flags.negative == flags.overflow
    } else if condition == 13 {
        flags.negative != flags.overflow
    } else if condition == 14 {
        !flags.zero && flags.negative == flags.overflow
    } else {
        flags.zero || flags.negative != flags.overflow
    }
}

/// What an instruction starts from: the sixteen registers, D0 first, the memory as the bytes
/// at its addresses, the other stack pointer, the address at which offset zero of the image
/// stands, and what those operations compute that are left open here.
pub struct Machine {
    pub registers: Seq<int>,
    pub memory: spec_fn(int) -> int,
    pub user_stack: int,
    pub origin: int,
    pub unit: spec_fn(Isa, int, int) -> int,
}

impl Machine {
    /// There are sixteen registers of 32 bits, and memory holds bytes.
    pub open spec fn wf(self) -> bool {
        &&& self.registers.len() == 16
        &&& forall|i: int|
            0 <= i < 16 ==> 0 <= #[trigger] self.registers[i] < 0x1_0000_0000
        &&& forall|at: int| 0 <= #[trigger] (self.memory)(at) < 0x100
        &&& 0 <= self.user_stack < 0x1_0000_0000
    }

    /// A data register.
    pub open spec fn data(self, number: u8) -> int {
        self.registers[number as int]
    }

    /// An address register.
    pub open spec fn address(self, number: u8) -> int {
        self.registers[8 + number]
    }

    /// With another number in a register.
    pub open spec fn holding(self, position: int, value: int) -> Machine {
        Machine { registers: self.registers.update(position, value), ..self }
    }

    /// The big-endian number of a size at an address.
    pub open spec fn load(self, at: int, size: Size) -> int {
        let byte = |k: int| (self.memory)(wrapped(at + k));
        match size {
            Size::Byte => byte(0),
            Size::Word => byte(0) * 0x100 + byte(1),
            Size::Long => byte(0) * 0x100_0000 + byte(1) * 0x1_0000 + byte(2) * 0x100 + byte(3),
        }
    }

    /// The number that `MOVEP` reads: every other byte.
    pub open spec fn load_spread(self, at: int, size: Size) -> int {
        let byte = |k: int| (self.memory)(wrapped(at + 2 * k));
        match size {
            Size::Long => byte(0) * 0x100_0000 + byte(1) * 0x1_0000 + byte(2) * 0x100 + byte(3),
            _ => byte(0) * 0x100 + byte(1),
        }
    }
}

/// How many bytes a size has.
pub open spec fn width(size: Size) -> int {
    match size {
        Size::Byte => 1,
        Size::Word => 2,
        Size::Long => 4,
    }
}

/// By how much an address register steps. The stack pointer stays even.
pub open spec fn stride(register: u8, size: Size) -> int {
    if register == 7 && size == Size::Byte {
        2
    } else {
        width(size)
    }
}

/// The place of the index register of an extension word: its top four bits count the sixteen
/// registers.
pub open spec fn index_position(extension: BriefExtensionWord) -> int {
    extension.0 as int / 0x1000
}

/// What an extension word adds to its base: the index register, whole if the word says so and
/// else its signed low word, and the signed low byte of the word itself.
pub open spec fn indexed(m: Machine, extension: BriefExtensionWord) -> int {
    let held = m.registers[index_position(extension)];
    (if (extension.0 as int / 0x800) % 2 == 1 {
        held
    } else {
        signed(held, Size::Word)
    }) + signed(extension.0 as int, Size::Byte)
}

/// Where a memory operand stands. What is relative to the program counter is counted in the
/// image, which stands at its origin.
pub open spec fn formed(m: Machine, mode: AddressingMode, size: Size) -> int {
    match mode {
        AddressingMode::Ari(register) => m.address(register),
        AddressingMode::Ariwpo(register) => m.address(register),
        AddressingMode::Ariwpr(register) => wrapped(m.address(register) - stride(register, size)),
        AddressingMode::Ariwd(register, distance) => wrapped(m.address(register) + distance),
        AddressingMode::Ariwi8(register, extension) => wrapped(
            m.address(register) + indexed(m, extension),
        ),
        AddressingMode::AbsShort(word) => wrapped(signed(word as int, Size::Word)),
        AddressingMode::AbsLong(address) => address as int,
        AddressingMode::Pciwd(base, distance) => wrapped(m.origin + base + distance),
        AddressingMode::Pciwi8(base, extension) => wrapped(
            m.origin + base + indexed(m, extension),
        ),
        AddressingMode::Drd(register) => m.data(register),
        AddressingMode::Ard(register) => m.address(register),
        AddressingMode::Immediate(value) => value as int,
    }
}

/// The machine after an operand was reached: one that steps has stepped.
pub open spec fn stepped(m: Machine, mode: AddressingMode, size: Size) -> Machine {
    match mode {
        AddressingMode::Ariwpo(register) => m.holding(
            8 + register,
            wrapped(m.address(register) + stride(register, size)),
        ),
        AddressingMode::Ariwpr(register) => m.holding(
            8 + register,
            wrapped(m.address(register) - stride(register, size)),
        ),
        _ => m,
    }
}

/// What an operand holds.
pub open spec fn fetched(m: Machine, mode: AddressingMode, size: Size) -> int {
    match mode {
        AddressingMode::Drd(register) => low(m.data(register), size),
        AddressingMode::Ard(register) => low(m.address(register), size),
        AddressingMode::Immediate(value) => low(value as int, size),
        _ => m.load(formed(m, mode, size), size),
    }
}

/// What an operation makes of a source and what its destination held.
pub open spec fn computed(m: Machine, isa: Isa, source: int, held: int) -> int {
    match isa {
        Isa::Move | Isa::Movea => source,
        Isa::Clr => 0,
        Isa::Neg => -held,
        Isa::Not => -1 - held,
        Isa::Add | Isa::Addi | Isa::Addq | Isa::Adda => held + source,
        Isa::Sub | Isa::Subi | Isa::Subq | Isa::Suba => held - source,
        Isa::And | Isa::Andi => ((held as u32) & (source as u32)) as int,
        Isa::Or | Isa::Ori => ((held as u32) | (source as u32)) as int,
        Isa::Eor | Isa::Eori => ((held as u32) ^ (source as u32)) as int,
        _ => (m.unit)(isa, source, held),
    }
}

/// Whether an operation ignores what its destination held.
pub open spec fn overwrites(isa: Isa) -> bool {
    matches!(isa, Isa::Move | Isa::Clr | Isa::Scc | Isa::Movefsr)
}

/// What an operation writes to its operand, which it may have read before.
pub open spec fn result(m: Machine, isa: Isa, mode: AddressingMode, size: Size, source: int) -> int {
    let held = if overwrites(isa) {
        0
    } else {
        match mode {
            AddressingMode::Ard(register) => m.address(register),
            _ => fetched(m, mode, size),
        }
    };
    computed(m, isa, source, held)
}

/// The machine after an operation on an operand. Address registers are written whole.
pub open spec fn operated(
    m: Machine,
    isa: Isa,
    mode: AddressingMode,
    size: Size,
    source: int,
) -> Machine {
    let value = result(m, isa, mode, size, source);
    match mode {
        AddressingMode::Drd(register) => m.holding(
            register as int,
            replaced(m.data(register), size, value),
        ),
        AddressingMode::Ard(register) => m.holding(8 + register, wrapped(value)),
        _ => stepped(m, mode, size),
    }
}

/// What an operation on an operand lets be seen outside the registers: where it reaches and
/// what it writes there.
pub open spec fn shown(
    m: Machine,
    isa: Isa,
    mode: AddressingMode,
    size: Size,
    source: int,
) -> Seq<int> {
    match mode {
        AddressingMode::Drd(_) | AddressingMode::Ard(_) => Seq::empty(),
        _ => seq![formed(m, mode, size), low(result(m, isa, mode, size, source), size)],
    }
}

/// Whether a register list holds the register at a position.
pub open spec fn lists(list: u16, position: int) -> bool {
    list & (1u16 << (position as u16)) != 0
}

/// How many of the first registers a list holds.
pub open spec fn slots(list: u16, count: int) -> int
    decreases count,
{
    if count <= 0 {
        0
    } else {
        slots(list, count - 1) + if lists(list, count - 1) {
            1int
        } else {
            0int
        }
    }
}

/// The bytes that a register takes in a list: a byte cannot be moved.
pub open spec fn slot_width(size: Size) -> int {
    if size == Size::Long {
        4
    } else {
        2
    }
}

/// The registers after a list of them was loaded from memory, one after the other from the
/// lowest on. A word is extended by its sign. The base of a stepping load ends up behind the
/// last of them, loaded or not.
pub open spec fn list_loaded(m: Machine, size: Size, mode: AddressingMode, list: u16) -> Machine {
    let start = formed(m, mode, size);
    let unit = if size == Size::Long {
        Size::Long
    } else {
        Size::Word
    };
    let loaded = Machine {
        registers: Seq::new(
            16,
            |i: int|
                if lists(list, i) {
                    wrapped(signed(m.load(start + slots(list, i) * slot_width(size), unit), unit))
                } else {
                    m.registers[i]
                },
        ),
        ..m
    };
    match mode {
        AddressingMode::Ariwpo(base) => loaded.holding(
            8 + base,
            wrapped(m.address(base) + slots(list, 16) * slot_width(size)),
        ),
        AddressingMode::Ariwpr(base) => loaded.holding(
            8 + base,
            wrapped(m.address(base) - slots(list, 16) * slot_width(size)),
        ),
        _ => loaded,
    }
}

/// Whether a list that is stored holds the register at a position. A predecrementing store
/// lists A7 first.
pub open spec fn list_stores(mode: AddressingMode, list: u16, position: int) -> bool {
    lists(
        list,
        if mode is Ariwpr {
            15 - position
        } else {
            position
        },
    )
}

/// The machine after a list of registers was stored.
pub open spec fn list_stored(m: Machine, size: Size, mode: AddressingMode, list: u16) -> Machine {
    match mode {
        AddressingMode::Ariwpo(base) => m.holding(
            8 + base,
            wrapped(m.address(base) + slots(list, 16) * slot_width(size)),
        ),
        AddressingMode::Ariwpr(base) => m.holding(
            8 + base,
            wrapped(m.address(base) - slots(list, 16) * slot_width(size)),
        ),
        _ => m,
    }
}

/// The weight of a byte of a register.
pub open spec fn weight(lane: int) -> int {
    if lane <= 0 {
        1
    } else if lane == 1 {
        0x100
    } else if lane == 2 {
        0x1_0000
    } else {
        0x100_0000
    }
}

/// One byte of a register.
pub open spec fn byte_of(held: int, lane: int) -> int {
    (held / weight(lane)) % 0x100
}

/// Whether the bit number of a bit operation comes from a register.
pub open spec fn is_dynamic(instruction: Instruction) -> bool {
    (instruction.opcode as int / 0x100) % 2 == 1
}

/// The byte of a data register that a bit operation on a fixed bit concerns.
pub open spec fn bit_lane(count: u8) -> int {
    (count as int % 32) / 8
}

/// The machine after a bit operation.
pub open spec fn bit_operated(
    m: Machine,
    instruction: Instruction,
    mode: AddressingMode,
    count: u8,
) -> Machine {
    let isa = instruction.isa;
    match mode {
        AddressingMode::Drd(register) => if isa == Isa::Btst {
            m
        } else if is_dynamic(instruction) {
            m.holding(
                register as int,
                wrapped((m.unit)(isa, m.data(count) % 32, m.data(register))),
            )
        } else {
            let held = byte_of(m.data(register), bit_lane(count));
            let now = low((m.unit)(isa, count as int % 8, held), Size::Byte);
            m.holding(
                register as int,
                m.data(register) + (now - held) * weight(bit_lane(count)),
            )
        },
        _ => stepped(m, mode, Size::Byte),
    }
}

/// What a bit operation lets be seen outside the registers.
pub open spec fn bit_shown(
    m: Machine,
    instruction: Instruction,
    mode: AddressingMode,
    count: u8,
) -> Seq<int> {
    let isa = instruction.isa;
    let number = if is_dynamic(instruction) {
        m.data(count)
    } else {
        count as int
    };
    match mode {
        AddressingMode::Drd(register) => if is_dynamic(instruction) {
            seq![(m.unit)(isa, number % 32, m.data(register))]
        } else {
            seq![(m.unit)(isa, number % 8, byte_of(m.data(register), bit_lane(count)))]
        },
        _ => seq![
            formed(m, mode, Size::Byte),
            (m.unit)(isa, number % 8, fetched(m, mode, Size::Byte)),
        ],
    }
}

/// The machine after two memory operands that step down, the second one first.
pub open spec fn both_down(m: Machine, left: u8, right: u8, size: Size) -> Machine {
    stepped(stepped(m, AddressingMode::Ariwpr(right), size), AddressingMode::Ariwpr(left), size)
}

/// The machine after two memory operands that step up, the second one first.
pub open spec fn both_up(m: Machine, left: u8, right: u8, size: Size) -> Machine {
    stepped(stepped(m, AddressingMode::Ariwpo(right), size), AddressingMode::Ariwpo(left), size)
}

/// The number that a quick operation encodes in three bits: zero stands for eight.
pub open spec fn quick(amount: u8) -> int {
    if amount == 0 {
        8
    } else {
        amount as int
    }
}

/// Two to some power.
pub open spec fn two_to(count: int) -> int
    decreases count,
{
    if count <= 0 {
        1
    } else {
        2 * two_to(count - 1)
    }
}

/// What a shift makes of a number: a left shift multiplies by a power of two, a right shift
/// divides by it and rounds down. Rotations are left open.
pub open spec fn shifted(
    m: Machine,
    isa: Isa,
    direction: Direction,
    size: Size,
    count: int,
    held: int,
) -> int {
    if (isa == Isa::Asr || isa == Isa::Lsr) && direction == Direction::Left {
        low(held, size) * two_to(count)
    } else if isa == Isa::Lsr && direction == Direction::Right {
        low(held, size) / two_to(count)
    } else if isa == Isa::Asr && direction == Direction::Right {
        signed(held, size) / two_to(count)
    } else {
        (m.unit)(isa, count, low(held, size))
    }
}

/// The machine after an instruction, as far as its registers go. Neither what a callee or an
/// exception handler does is in it, nor what a memory operand holds afterwards.
pub open spec fn executed(m: Machine, instruction: Instruction) -> Machine {
    let isa = instruction.isa;
    match instruction.operands {
        Operands::NoOperands => if isa == Isa::Rts {
            m.holding(15, wrapped(m.address(7) + 4))
        } else if isa == Isa::Rtr || isa == Isa::Rte {
            m.holding(15, wrapped(m.address(7) + 6))
        } else {
            m
        },
        Operands::SizeEffectiveAddressImmediate(size, mode, value) => if isa == Isa::Cmpi {
            stepped(m, mode, size)
        } else {
            operated(m, isa, mode, size, low(value as int, size))
        },
        Operands::EffectiveAddressCount(mode, count) => bit_operated(m, instruction, mode, count),
        Operands::EffectiveAddress(mode) => match isa {
            Isa::Pea => stepped(m, mode, Size::Long).holding(
                15,
                wrapped(stepped(m, mode, Size::Long).address(7) - 4),
            ),
            Isa::Jmp | Isa::Jsr => stepped(m, mode, Size::Long),
            Isa::Moveccr | Isa::Movesr => stepped(m, mode, Size::Word),
            Isa::Movefsr => operated(m, isa, mode, Size::Word, 0),
            _ => operated(m, isa, mode, Size::Byte, 0),
        },
        Operands::SizeEffectiveAddress(size, mode) => if isa == Isa::Tst {
            stepped(m, mode, size)
        } else {
            operated(m, isa, mode, size, 0)
        },
        Operands::RegisterEffectiveAddress(register, mode) => match isa {
            Isa::Lea => stepped(m, mode, Size::Long).holding(
                8 + register,
                formed(m, mode, Size::Long),
            ),
            Isa::Chk => stepped(m, mode, Size::Word),
            Isa::Muls | Isa::Mulu => stepped(m, mode, Size::Word).holding(
                register as int,
                wrapped(
                    (m.unit)(isa, fetched(m, mode, Size::Word), low(m.data(register), Size::Word)),
                ),
            ),
            _ => stepped(m, mode, Size::Word).holding(
                register as int,
                wrapped((m.unit)(isa, fetched(m, mode, Size::Word), m.data(register))),
            ),
        },
        Operands::RegisterDirectionSizeRegisterDisplacement(data, direction, size, base, distance) =>
        if direction == Direction::MemoryToRegister {
            m.holding(
                data as int,
                replaced(
                    m.data(data),
                    size,
                    m.load_spread(wrapped(m.address(base) + distance), size),
                ),
            )
        } else {
            m
        },
        Operands::SizeRegisterEffectiveAddress(size, register, mode) => stepped(
            m,
            mode,
            size,
        ).holding(8 + register, wrapped(signed(fetched(m, mode, size), size))),
        Operands::SizeEffectiveAddressEffectiveAddress(size, destination, source) => operated(
            stepped(m, source, size),
            isa,
            destination,
            size,
            fetched(m, source, size),
        ),
        Operands::RegisterOpmodeRegister(left, direction, right) => {
            let one = if direction == Direction::ExchangeAddress {
                8 + left
            } else {
                left as int
            };
            let other = if direction == Direction::ExchangeData {
                right as int
            } else {
                8 + right
            };
            m.holding(one, m.registers[other]).holding(other, m.registers[one])
        },
        Operands::OpmodeRegister(opmode, register) => if opmode == 2 {
            m.holding(
                register as int,
                replaced(m.data(register), Size::Word, signed(m.data(register), Size::Byte)),
            )
        } else {
            m.holding(register as int, wrapped(signed(m.data(register), Size::Word)))
        },
        Operands::RegisterDisplacement(register, distance) => {
            let pushed = m.holding(15, wrapped(m.address(7) - 4));
            let linked = pushed.holding(8 + register, pushed.address(7));
            linked.holding(15, wrapped(pushed.address(7) + distance))
        },
        Operands::Register(register) => if isa == Isa::Swap {
            m.holding(
                register as int,
                low(m.data(register), Size::Word) * 0x1_0000 + m.data(register) / 0x1_0000,
            )
        } else {
            m.holding(15, wrapped(m.address(register) + 4)).holding(
                8 + register,
                m.load(m.address(register), Size::Long),
            )
        },
        Operands::DirectionRegister(direction, register) => if direction
            == Direction::UspToRegister {
            m.holding(8 + register, m.user_stack)
        } else {
            m
        },
        Operands::DirectionSizeEffectiveAddressList(direction, size, mode, list) => if direction
            == Direction::MemoryToRegister {
            list_loaded(m, size, mode, list)
        } else {
            list_stored(m, size, mode, list)
        },
        Operands::DataSizeEffectiveAddress(amount, size, mode) => operated(
            m,
            isa,
            mode,
            size,
            quick(amount),
        ),
        Operands::ConditionEffectiveAddress(condition, mode) => operated(
            m,
            isa,
            mode,
            Size::Byte,
            condition as int,
        ),
        Operands::ConditionRegisterDisplacement(condition, register, _) => m.holding(
            register as int,
            replaced(
                m.data(register),
                Size::Word,
                (m.unit)(isa, condition as int, low(m.data(register), Size::Word)),
            ),
        ),
        Operands::RegisterData(register, value) => m.holding(
            register as int,
            wrapped(value as int),
        ),
        Operands::RegisterDirectionSizeEffectiveAddress(register, direction, size, mode) =>
        if direction == Direction::DstEa {
            operated(m, isa, mode, size, low(m.data(register), size))
        } else if isa == Isa::Cmp {
            stepped(m, mode, size)
        } else {
            stepped(m, mode, size).holding(
                register as int,
                replaced(
                    m.data(register),
                    size,
                    computed(m, isa, fetched(m, mode, size), low(m.data(register), size)),
                ),
            )
        },
        Operands::RegisterSizeEffectiveAddress(register, size, mode) => if isa == Isa::Cmpa {
            stepped(m, mode, size)
        } else {
            stepped(m, mode, size).holding(
                8 + register,
                wrapped(
                    computed(
                        m,
                        isa,
                        signed(fetched(m, mode, size), size),
                        stepped(m, mode, size).address(register),
                    ),
                ),
            )
        },
        Operands::RegisterSizeModeRegister(left, size, direction, right) => if direction
            == Direction::RegisterToRegister {
            m.holding(
                left as int,
                replaced(
                    m.data(left),
                    size,
                    (m.unit)(isa, low(m.data(right), size), low(m.data(left), size)),
                ),
            )
        } else {
            both_down(m, left, right, size)
        },
        Operands::RegisterSizeRegister(left, size, right) => both_up(m, left, right, size),
        Operands::DirectionEffectiveAddress(_, mode) => operated(m, isa, mode, Size::Word, 1),
        Operands::RotationDirectionSizeModeRegister(
            count,
            direction,
            size,
            from_register,
            register,
        ) => m.holding(
            register as int,
            replaced(
                m.data(register),
                size,
                shifted(
                    m,
                    isa,
                    direction,
                    size,
                    if from_register {
                        m.data(count) % 64
                    } else {
                        quick(count)
                    },
                    m.data(register),
                ),
            ),
        ),
        Operands::Immediate(_)
        | Operands::Vector(_)
        | Operands::Displacement(_)
        | Operands::ConditionDisplacement(_, _) => m,
    }
}

/// What an instruction lets be seen outside the registers: the addresses that it reaches,
/// what it stores there, and what it compares.
pub open spec fn emitted(m: Machine, instruction: Instruction) -> Seq<int> {
    let isa = instruction.isa;
    match instruction.operands {
        Operands::SizeEffectiveAddressImmediate(size, mode, value) => if isa == Isa::Cmpi {
            seq![formed_or_none(m, mode, size), fetched(m, mode, size)]
        } else {
            shown(m, isa, mode, size, low(value as int, size))
        },
        Operands::EffectiveAddressCount(mode, count) => bit_shown(m, instruction, mode, count),
        Operands::EffectiveAddress(mode) => match isa {
            Isa::Pea | Isa::Jmp | Isa::Jsr => seq![formed(m, mode, Size::Long)],
            Isa::Moveccr | Isa::Movesr => seq![fetched(m, mode, Size::Word)],
            Isa::Movefsr => shown(m, isa, mode, Size::Word, 0),
            _ => shown(m, isa, mode, Size::Byte, 0),
        },
        Operands::SizeEffectiveAddress(size, mode) => if isa == Isa::Tst {
            seq![formed_or_none(m, mode, size), fetched(m, mode, size)]
        } else {
            shown(m, isa, mode, size, 0)
        },
        Operands::RegisterEffectiveAddress(register, mode) => if isa == Isa::Lea {
            Seq::empty()
        } else if isa == Isa::Chk {
            seq![
                formed_or_none(m, mode, Size::Word),
                fetched(m, mode, Size::Word),
                low(m.data(register), Size::Word),
            ]
        } else {
            seq![formed_or_none(m, mode, Size::Word)]
        },
        Operands::RegisterDirectionSizeRegisterDisplacement(data, direction, size, base, distance) =>
        if direction == Direction::MemoryToRegister {
            seq![wrapped(m.address(base) + distance)]
        } else {
            seq![wrapped(m.address(base) + distance), low(m.data(data), size)]
        },
        Operands::SizeRegisterEffectiveAddress(size, _, mode) => seq![
            formed_or_none(m, mode, size),
        ],
        Operands::SizeEffectiveAddressEffectiveAddress(size, destination, source) => seq![
            formed_or_none(m, source, size),
        ] + shown(
            stepped(m, source, size),
            isa,
            destination,
            size,
            fetched(m, source, size),
        ),
        Operands::RegisterDisplacement(register, _) => seq![m.address(7), m.address(register)],
        Operands::DirectionRegister(direction, register) => if direction
            == Direction::RegisterToUsp {
            seq![m.address(register)]
        } else {
            Seq::empty()
        },
        Operands::DirectionSizeEffectiveAddressList(direction, size, mode, list) => if direction
            == Direction::MemoryToRegister {
            seq![formed_or_none(m, mode, size)]
        } else {
            seq![formed_or_none(m, mode, size)] + Seq::new(
                16,
                |i: int|
                    if list_stores(mode, list, i) {
                        low(m.registers[i], size)
                    } else {
                        0
                    },
            )
        },
        Operands::DataSizeEffectiveAddress(amount, size, mode) => shown(
            m,
            isa,
            mode,
            size,
            quick(amount),
        ),
        Operands::ConditionEffectiveAddress(condition, mode) => shown(
            m,
            isa,
            mode,
            Size::Byte,
            condition as int,
        ),
        Operands::RegisterDirectionSizeEffectiveAddress(register, direction, size, mode) =>
        if direction == Direction::DstEa {
            shown(m, isa, mode, size, low(m.data(register), size))
        } else {
            seq![
                formed_or_none(m, mode, size),
                fetched(m, mode, size),
                low(m.data(register), size),
            ]
        },
        Operands::RegisterSizeEffectiveAddress(register, size, mode) => seq![
            formed_or_none(m, mode, size),
            fetched(m, mode, size),
            m.address(register),
        ],
        Operands::RegisterSizeModeRegister(left, _, direction, right) => if direction
            == Direction::RegisterToRegister {
            Seq::empty()
        } else {
            seq![m.address(left), m.address(right)]
        },
        Operands::RegisterSizeRegister(left, _, right) => seq![m.address(left), m.address(right)],
        Operands::DirectionEffectiveAddress(_, mode) => shown(m, isa, mode, Size::Word, 1),
        _ => Seq::empty(),
    }
}

/// Where an operand stands, if it stands in memory.
pub open spec fn formed_or_none(m: Machine, mode: AddressingMode, size: Size) -> int {
    match mode {
        AddressingMode::Drd(_) | AddressingMode::Ard(_) | AddressingMode::Immediate(_) => 0,
        _ => formed(m, mode, size),
    }
}

/// Whether an instruction moves the stack pointer besides what its operands do.
pub open spec fn moves_stack(isa: Isa) -> bool {
    matches!(
        isa,
        Isa::Pea | Isa::Jsr | Isa::Bsr | Isa::Rts | Isa::Rtr | Isa::Rte | Isa::Link | Isa::Unlk
            | Isa::Trap | Isa::Trapv | Isa::Chk | Isa::Illegal | Isa::Unknown | Isa::Divs
            | Isa::Divu
    )
}

/// A signed number as an unsigned one.
pub proof fn lemma_unsigned(wide: i32)
    ensures
        wide as u32 == wrapped(wide as int),
{
    assert(wide as u32 == if wide >= 0 {
        wide + 0
    } else {
        wide + 0x1_0000_0000
    }) by (bit_vector);
}

/// The low bytes that were put into a number are its low bytes.
pub proof fn lemma_low_of_replaced(held: int, size: Size, value: int)
    ensures
        low(replaced(held, size, value), size) == low(value, size),
{
    let span = span_of(size);
    vstd::arithmetic::div_mod::lemma_fundamental_div_mod(held, span);
    vstd::arithmetic::div_mod::lemma_mod_multiples_vanish(held / span, value % span, span);
    vstd::arithmetic::div_mod::lemma_mod_twice(value, span);
}

} // verus!
