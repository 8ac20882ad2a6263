//! The registers of the processor that a run drives.

use crate::collections::gathered;
use crate::text::{append_decimal, decimal};
use vstd::prelude::*;
use vstd::string::*;

verus! {

/// The status register bits that the processor implements.
pub const STATUS_BITS: u16 = 0xa71f;

/// A CPU register, for reporting a per-instruction change.
#[derive(Clone, Copy, Debug, PartialEq, Eq, Structural)]
pub enum Register {
    /// A data register `D0`-`D7`.
    Data(u8),
    /// An address register `A0`-`A6`.
    Address(u8),
    /// The user stack pointer.
    Usp,
    /// The supervisor stack pointer (the active SP during sandbox execution).
    Ssp,
    /// The status register.
    Status,
}

impl Register {
    /// Conventional assembly spelling.
    pub open spec fn spec_label(self) -> Seq<char> {
        match self {
            Register::Data(index) => "D"@ + decimal(index as nat),
            Register::Address(index) => "A"@ + decimal(index as nat),
            Register::Usp => "USP"@,
            Register::Ssp => "SSP"@,
            Register::Status => "SR"@,
        }
    }

    /// Conventional assembly spelling.
    pub fn label(self) -> (r: String)
        ensures
            r@ == self.spec_label(),
    {
        match self {
            Register::Data(index) => {
                let mut text: String = "D".to_owned();
                append_decimal(&mut text, index as u64);
                text
            },
            Register::Address(index) => {
                let mut text: String = "A".to_owned();
                append_decimal(&mut text, index as u64);
                text
            },
            Register::Usp => "USP".to_owned(),
            Register::Ssp => "SSP".to_owned(),
            Register::Status => "SR".to_owned(),
        }
    }
}

/// A single register's change across one instruction.
#[derive(Clone, Copy, Debug, PartialEq, Eq, Structural)]
pub struct RegisterDelta {
    pub register: Register,
    pub before: u32,
    pub after: u32,
}

/// A snapshot of the whole register file.
#[derive(Clone, Copy, Debug, PartialEq, Eq)]
pub struct RegisterFile {
    /// Data registers `D0`-`D7`.
    pub d: [u32; 8],
    /// Address registers `A0`-`A6`.
    pub a: [u32; 7],
    /// User stack pointer.
    pub usp: u32,
    /// Supervisor stack pointer.
    pub ssp: u32,
    /// Program counter.
    pub pc: u32,
    /// Status register (packed).
    pub sr: u16,
}

/// A register file as a mathematical value.
#[verifier::ext_equal]
pub struct RegistersView {
    pub d: Seq<u32>,
    pub a: Seq<u32>,
    pub usp: u32,
    pub ssp: u32,
    pub pc: u32,
    pub sr: u16,
}

impl View for RegisterFile {
    type V = RegistersView;

    open spec fn view(&self) -> RegistersView {
        RegistersView {
            d: self.d@,
            a: self.a@,
            usp: self.usp,
            ssp: self.ssp,
            pc: self.pc,
            sr: self.sr,
        }
    }
}

/// What a position of the register file holds: the data registers, the address
/// registers, the two stack pointers and the status register.
pub open spec fn register_at(file: RegistersView, i: int) -> (Register, u32) {
    if i < 8 {
        (Register::Data(i as u8), file.d[i])
    } else if i < 15 {
        (Register::Address((i - 8) as u8), file.a[i - 8])
    } else if i == 15 {
        (Register::Usp, file.usp)
    } else if i == 16 {
        (Register::Ssp, file.ssp)
    } else {
        (Register::Status, file.sr as u32)
    }
}

/// The change of one position of the register file.
pub open spec fn delta_at(before: RegistersView, after: RegistersView, i: int) -> Option<
    RegisterDelta,
> {
    let (register, old_value) = register_at(before, i);
    let new_value = register_at(after, i).1;
    if old_value != new_value {
        Some(RegisterDelta { register, before: old_value, after: new_value })
    } else {
        None
    }
}

/// The registers that changed (the program counter is deliberately omitted, as it
/// changes every step).
pub open spec fn deltas(before: RegistersView, after: RegistersView) -> Seq<RegisterDelta> {
    gathered(18, |i: int| delta_at(before, after, i))
}

fn push_delta(
    list: &mut Vec<RegisterDelta>,
    register: Register,
    before: u32,
    after: u32,
)
    ensures
        final(list)@ == if before != after {
            old(list)@.push(RegisterDelta { register, before, after })
        } else {
            old(list)@
        },
{
    if before != after {
        list.push(RegisterDelta { register, before, after });
    }
}

/// The registers that changed between `before` and `after` (the program counter
/// is deliberately omitted, as it changes every step).
pub fn register_deltas(before: &RegisterFile, after: &RegisterFile) -> (r: Vec<RegisterDelta>)
    ensures
        r@ == deltas(before@, after@),
{
    let ghost each = |i: int| delta_at(before@, after@, i);
    let mut list: Vec<RegisterDelta> = Vec::new();
    let mut i: usize = 0;
    while i < 8
        invariant
            each == (|i: int| delta_at(before@, after@, i)),
            i <= 8,
            list@ == gathered(i as int, each),
        decreases 8 - i,
    {
        push_delta(&mut list, Register::Data(i as u8), before.d[i], after.d[i]);
        i += 1;
    }
    let mut j: usize = 0;
    while j < 7
        invariant
            each == (|i: int| delta_at(before@, after@, i)),
            j <= 7,
            list@ == gathered(8 + j, each),
        decreases 7 - j,
    {
        push_delta(&mut list, Register::Address(j as u8), before.a[j], after.a[j]);
        j += 1;
    }
    push_delta(&mut list, Register::Usp, before.usp, after.usp);
    assert(list@ == gathered(16, each));
    push_delta(&mut list, Register::Ssp, before.ssp, after.ssp);
    assert(list@ == gathered(17, each));
    push_delta(&mut list, Register::Status, before.sr as u32, after.sr as u32);
    list
}

/// A narrow, *mutable* view of the running CPU's registers, handed to a policy hook so
/// an emulated call takes effect.
#[derive(Clone, Copy, Debug, PartialEq, Eq)]
pub struct CpuContext {
    pub registers: RegisterFile,
}

impl View for CpuContext {
    type V = RegistersView;

    open spec fn view(&self) -> RegistersView {
        self.registers@
    }
}

impl CpuContext {
    /// Read data register `Dindex` (0..=7).
    pub fn d(&self, index: u8) -> (r: u32)
        ensures
            r == if index < 8 {
                self@.d[index as int]
            } else {
                0
            },
    {
        if index < 8 {
            self.registers.d[index as usize]
        } else {
            0
        }
    }

    /// Set data register `Dindex` (0..=7).
    pub fn set_d(&mut self, index: u8, value: u32)
        ensures
            final(self)@ == if index < 8 {
                RegistersView { d: old(self)@.d.update(index as int, value), ..old(self)@ }
            } else {
                old(self)@
            },
    {
        if index < 8 {
            self.registers.d[index as usize] = value;
        }
    }

    /// Read address register `Aindex` (0..=6).
    pub fn a(&self, index: u8) -> (r: u32)
        ensures
            r == if index < 7 {
                self@.a[index as int]
            } else {
                0
            },
    {
        if index < 7 {
            self.registers.a[index as usize]
        } else {
            0
        }
    }

    /// Set address register `Aindex` (0..=6).
    pub fn set_a(&mut self, index: u8, value: u32)
        ensures
            final(self)@ == if index < 7 {
                RegistersView { a: old(self)@.a.update(index as int, value), ..old(self)@ }
            } else {
                old(self)@
            },
    {
        if index < 7 {
            self.registers.a[index as usize] = value;
        }
    }

    /// The active (supervisor) stack pointer.
    pub fn sp(&self) -> (r: u32)
        ensures
            r == self@.ssp,
    {
        self.registers.ssp
    }

    /// Set the active (supervisor) stack pointer.
    pub fn set_sp(&mut self, value: u32)
        ensures
            final(self)@ == (RegistersView { ssp: value, ..old(self)@ }),
    {
        self.registers.ssp = value;
    }

    /// The program counter.
    pub fn pc(&self) -> (r: u32)
        ensures
            r == self@.pc,
    {
        self.registers.pc
    }

    /// Set the program counter.
    pub fn set_pc(&mut self, value: u32)
        ensures
            final(self)@ == (RegistersView { pc: value, ..old(self)@ }),
    {
        self.registers.pc = value;
    }

    /// The status register, as the exception frame spells it.
    pub fn sr(&self) -> (r: u16)
        ensures
            r == self@.sr,
    {
        self.registers.sr
    }
}

} // verus!
