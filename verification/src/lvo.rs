//! The AmigaOS library-call convention.
//!
//! A library's functions are reached through a jump table below its base, and
//! the ABI passes the base in A6: `JSR (-30,A6)`.

use crate::decoded::{DecodedInstruction, DecodedView};
use crate::m68k::{AddressingMode, Isa, Operands};
use vstd::prelude::*;

verus! {

/// The address register that holds a library base.
pub const LIBRARY_BASE_REGISTER: u8 = 6;

/// A library vector offset reached through the base register.
#[derive(Clone, Copy, Debug, PartialEq, Eq, Structural)]
pub struct LibraryCall {
    /// The address register that holds the library base.
    pub register: u8,
    /// The negative offset of the vector.
    pub offset: i16,
}

/// The library vector that an addressing mode names.
pub open spec fn spec_library_vector(mode: AddressingMode) -> Option<LibraryCall> {
    match mode {
        AddressingMode::Ariwd(register, offset) => if register == LIBRARY_BASE_REGISTER && offset
            < 0 {
            Some(LibraryCall { register, offset })
        } else {
            None
        },
        _ => None,
    }
}

/// The library vector that an addressing mode names.
pub fn library_vector(mode: AddressingMode) -> (r: Option<LibraryCall>)
    ensures
        r == spec_library_vector(mode),
{
    match mode {
        AddressingMode::Ariwd(register, offset) => if register == LIBRARY_BASE_REGISTER && offset
            < 0 {
            Some(LibraryCall { register, offset })
        } else {
            None
        },
        _ => None,
    }
}

/// Whether an addressing mode is that of a library call: `(d16,A6)` with a
/// negative displacement.
pub fn is_library_call_mode(mode: AddressingMode) -> (r: bool)
    ensures
        r == (spec_library_vector(mode) is Some),
{
    match library_vector(mode) {
        Some(_) => true,
        None => false,
    }
}

impl DecodedView {
    /// The library vector this instruction calls or jumps to.
    pub open spec fn library_call(self) -> Option<LibraryCall> {
        match self.instruction.operands {
            Operands::EffectiveAddress(mode) => if self.instruction.isa == Isa::Jsr
                || self.instruction.isa == Isa::Jmp {
                spec_library_vector(mode)
            } else {
                None
            },
            _ => None,
        }
    }
}

/// The library vector an instruction calls or jumps to.
pub fn library_call(decoded: &DecodedInstruction) -> (r: Option<LibraryCall>)
    ensures
        r == decoded@.library_call(),
        r matches Some(call) ==> call.register < 8,
{
    match decoded.instruction.operands {
        Operands::EffectiveAddress(mode) => if matches!(decoded.instruction.isa, Isa::Jsr | Isa::Jmp) {
            library_vector(mode)
        } else {
            None
        },
        _ => None,
    }
}

} // verus!
