//! Finding custom-chip register accesses in code.
//!
//! Amiga code touches the custom chips two ways: through an absolute-long
//! operand (`$DFFxxx`), or, the dominant idiom, through an address register
//! holding the `$DFF000` base with a displacement, e.g. `MOVE.W #x,(0x96,A6)`.
//!
//! This resolves both. Base registers are found by scanning for an address
//! register loaded with the custom base (`LEA $DFF000,An` or
//! `MOVEA.L #$DFF000,An`); the scan is deliberately conservative and sticky:
//! once a register is seen holding the base it is treated as the base for all
//! its displacement accesses, which is accurate for the common set-once idiom
//! but does not model a register later reused for a different base. The negative
//! displacements of AmigaOS library calls (`JSR (-30,A6)`) are excluded by
//! range, so they are never mistaken for register accesses.

use crate::analysis::{AnalysisView, ControlFlowAnalysis};
use crate::decoded::DecodedView;
use crate::globals::{
    both, lemma_accesses_in_range, operand_accesses, push_both, spec_operand_accesses, AccessKind,
    OperandAccess,
};
use crate::m68k::{AddressingMode, Isa, Operands, Size};
use vstd::prelude::*;

verus! {

/// The size of the custom-chip register block, in bytes.
pub const CUSTOM_RANGE: u32 = 0x200;

/// How an access names its register.
#[derive(Clone, Copy, Debug, PartialEq, Eq, Structural)]
pub enum AccessForm {
    /// An absolute-long `$DFFxxx` operand.
    Absolute,
    /// An `(displacement, An)` operand where `An` holds the custom base.
    BaseRelative,
}

/// One custom-chip register access.
#[derive(Clone, Copy, Debug, PartialEq, Eq, Structural)]
pub struct RegisterAccess {
    /// Address (hunk offset) of the accessing instruction.
    pub site: u32,
    /// Register offset from the custom base (e.g. `0x096` for `DMACON`).
    pub offset: u16,
    pub form: AccessForm,
    /// Whether the register is read, written, or read-modified.
    pub kind: AccessKind,
}

/// The address register that an instruction loads with `custom_base`: `LEA
/// $DFF000,An` or `MOVEA.L #$DFF000,An`. `CHK`, `MULx` and `DIVx` share their
/// operand form with `LEA` and load no address.
pub open spec fn spec_base_loaded(isa: Isa, operands: Operands, custom_base: u32) -> Option<u8> {
    match operands {
        Operands::RegisterEffectiveAddress(register, AddressingMode::AbsLong(address)) =>
        if isa == Isa::Lea && address == custom_base {
            Some(register)
        } else {
            None
        },
        Operands::SizeRegisterEffectiveAddress(size, register, AddressingMode::Immediate(value)) =>
        if size == Size::Long && value == custom_base {
            Some(register)
        } else {
            None
        },
        _ => None,
    }
}

/// The address register that an instruction loads with `custom_base`: `LEA
/// $DFF000,An` or `MOVEA.L #$DFF000,An`. `CHK`, `MULx` and `DIVx` share their
/// operand form with `LEA` and load no address.
pub fn base_loaded(isa: Isa, operands: Operands, custom_base: u32) -> (r: Option<u8>)
    ensures
        r == spec_base_loaded(isa, operands, custom_base),
{
    match operands {
        Operands::RegisterEffectiveAddress(register, AddressingMode::AbsLong(address)) =>
        if isa == Isa::Lea && address == custom_base {
            Some(register)
        } else {
            None
        },
        Operands::SizeRegisterEffectiveAddress(size, register, AddressingMode::Immediate(value)) =>
        if size == Size::Long && value == custom_base {
            Some(register)
        } else {
            None
        },
        _ => None,
    }
}

/// Whether some instruction loads the address register with `custom_base`.
pub open spec fn is_base_register(view: AnalysisView, custom_base: u32, register: int) -> bool {
    exists|site: u32| #[trigger]
        view.instructions.dom().contains(site) && spec_base_loaded(
            view.instructions[site].instruction.isa,
            view.instructions[site].instruction.operands,
            custom_base,
        ) == Some(register as u8)
}

/// Which of the eight address registers are seen loaded with `custom_base`.
pub open spec fn spec_base_registers(view: AnalysisView, custom_base: u32) -> Seq<bool> {
    Seq::new(8, |register: int| is_base_register(view, custom_base, register))
}

/// Which of the eight address registers are seen loaded with `custom_base`.
pub fn base_registers(analysis: &ControlFlowAnalysis, custom_base: u32) -> (r: [bool; 8])
    requires
        analysis.wf(),
    ensures
        r@ == spec_base_registers(analysis@, custom_base),
{
    let mut loaded: [bool; 8] = [false, false, false, false, false, false, false, false];
    let mut i: usize = 0;
    let ghost view = analysis@;
    while i < analysis.instructions.values.len()
        invariant
            analysis.wf(),
            view == analysis@,
            i <= analysis.instructions.values@.len(),
            forall|register: int|
                0 <= register < 8 && #[trigger] loaded@[register] ==> is_base_register(
                    view,
                    custom_base,
                    register,
                ),
            forall|k: int, register: int|
                0 <= k < i && 0 <= register < 8 && spec_base_loaded(
                    (#[trigger] analysis.instructions.values@[k]).instruction.isa,
                    analysis.instructions.values@[k].instruction.operands,
                    custom_base,
                ) == Some(register as u8) ==> #[trigger] loaded@[register],
        decreases analysis.instructions.values@.len() - i,
    {
        let decoded = &analysis.instructions.values[i];
        proof {
            analysis.lemma_listing(i as int);
        }
        if let Some(register) = base_loaded(decoded.instruction.isa, decoded.instruction.operands, custom_base) {
            assert(register < 8);
            proof {
                assert(view.instructions.dom().contains(analysis.instructions.keys@[i as int]));
                assert(is_base_register(view, custom_base, register as int));
            }
            loaded[register as usize] = true;
        }
        i += 1;
    }
    proof {
        assert forall|register: int| 0 <= register < 8 implies #[trigger] loaded@[register]
            == is_base_register(view, custom_base, register) by {
            if is_base_register(view, custom_base, register) {
                let site = choose|site: u32| #[trigger]
                    view.instructions.dom().contains(site) && spec_base_loaded(
                        view.instructions[site].instruction.isa,
                        view.instructions[site].instruction.operands,
                        custom_base,
                    ) == Some(register as u8);
                let k = analysis.instructions.lemma_position(site);
                analysis.lemma_listing(k);
                assert(analysis.instructions.values@[k].instruction
                    == view.instructions[site].instruction);
            }
        }
        assert(loaded@ =~= spec_base_registers(view, custom_base));
    }
    loaded
}

/// The register offset that an addressing mode names: absolute `$DFFxxx`,
/// excluding the base itself, or `(d16,An)` where An holds the custom base and
/// d16 is a register offset.
pub open spec fn spec_register_named(mode: AddressingMode, custom_base: u32, loaded: Seq<bool>) -> Option<(u16, AccessForm)> {
    match mode {
        AddressingMode::AbsLong(address) => if address > custom_base && address
            < custom_base.saturating_add(CUSTOM_RANGE) {
            Some(((address - custom_base) as u16, AccessForm::Absolute))
        } else {
            None
        },
        AddressingMode::Ariwd(register, displacement) => if loaded[register as int] && 0
            <= displacement && displacement < 0x200 {
            Some((displacement as u16, AccessForm::BaseRelative))
        } else {
            None
        },
        _ => None,
    }
}

/// The register offset that an addressing mode names: absolute `$DFFxxx`,
/// excluding the base itself, or `(d16,An)` where An holds the custom base and
/// d16 is a register offset.
pub fn register_named(mode: AddressingMode, custom_base: u32, loaded: &[bool; 8]) -> (r: Option<(u16, AccessForm)>)
    requires
        mode.in_range(),
    ensures
        r == spec_register_named(mode, custom_base, loaded@),
{
    match mode {
        AddressingMode::AbsLong(address) => if address > custom_base && address
            < custom_base.saturating_add(CUSTOM_RANGE) {
            Some(((address - custom_base) as u16, AccessForm::Absolute))
        } else {
            None
        },
        AddressingMode::Ariwd(register, displacement) => if loaded[register as usize] && 0
            <= displacement && displacement < 0x200 {
            Some((displacement as u16, AccessForm::BaseRelative))
        } else {
            None
        },
        _ => None,
    }
}

/// The register access of one operand.
pub open spec fn spec_chip_access(
    site: u32,
    access: Option<OperandAccess>,
    custom_base: u32,
    loaded: Seq<bool>,
) -> Option<RegisterAccess> {
    match access {
        Some(access) => match spec_register_named(access.mode, custom_base, loaded) {
            Some((offset, form)) => Some(RegisterAccess { site, offset, form, kind: access.kind }),
            None => None,
        },
        None => None,
    }
}

/// The register access of one operand.
pub fn chip_access(
    site: u32,
    access: Option<OperandAccess>,
    custom_base: u32,
    loaded: &[bool; 8],
) -> (r: Option<RegisterAccess>)
    requires
        access matches Some(access) ==> access.mode.in_range(),
    ensures
        r == spec_chip_access(site, access, custom_base, loaded@),
{
    match access {
        Some(access) => match register_named(access.mode, custom_base, loaded) {
            Some((offset, form)) => Some(RegisterAccess { site, offset, form, kind: access.kind }),
            None => None,
        },
        None => None,
    }
}

/// The register accesses of one instruction.
pub open spec fn instruction_registers(
    decoded: DecodedView,
    custom_base: u32,
    loaded: Seq<bool>,
) -> Seq<RegisterAccess> {
    let accesses = spec_operand_accesses(decoded.instruction.isa, decoded.instruction.operands);
    both(
        spec_chip_access(decoded.address, accesses.first, custom_base, loaded),
        spec_chip_access(decoded.address, accesses.second, custom_base, loaded),
    )
}

/// Find every custom-chip register access reached by `analysis`, treating
/// `custom_base` (normally `$DFF000`) as the chip register base.
///
/// The access direction (`kind`) comes from the same shared operand-access
/// classifier every other operand walk uses, so a `MOVE.W #x,DMACON` reports
/// [`AccessKind::Write`] and a `MOVE.W INTENAR,D0` reports [`AccessKind::Read`].
pub fn register_accesses(analysis: &ControlFlowAnalysis, custom_base: u32) -> (r: Vec<
    RegisterAccess,
>)
    requires
        analysis.wf(),
    ensures
        r@ == analysis@.listing().flat_map(
            |decoded: DecodedView|
                instruction_registers(
                    decoded,
                    custom_base,
                    spec_base_registers(analysis@, custom_base),
                ),
        ),
{
    let loaded = base_registers(analysis, custom_base);
    let mut found: Vec<RegisterAccess> = Vec::new();
    let mut i: usize = 0;
    let ghost listing = analysis.listing();
    let ghost each = |decoded: DecodedView|
        instruction_registers(decoded, custom_base, spec_base_registers(analysis@, custom_base));
    proof {
        analysis.lemma_listing_view();
        assert(listing.take(0).flat_map(each) =~= Seq::empty());
    }
    while i < analysis.instructions.values.len()
        invariant
            analysis.wf(),
            loaded@ == spec_base_registers(analysis@, custom_base),
            listing == analysis.listing(),
            i <= listing.len(),
            listing.len() == analysis.instructions.values@.len(),
            each == (|decoded: DecodedView|
                instruction_registers(
                    decoded,
                    custom_base,
                    spec_base_registers(analysis@, custom_base),
                )),
            found@ == listing.take(i as int).flat_map(each),
        decreases listing.len() - i,
    {
        let decoded = &analysis.instructions.values[i];
        proof {
            analysis.lemma_listing(i as int);
            listing.lemma_flat_map_take_append(each, i as int);
            lemma_accesses_in_range(decoded.instruction.isa, decoded.instruction.operands);
        }
        let accesses = operand_accesses(decoded.instruction.isa, decoded.instruction.operands);
        let first = chip_access(decoded.address, accesses.first, custom_base, &loaded);
        let second = chip_access(decoded.address, accesses.second, custom_base, &loaded);
        push_both(&mut found, first, second);
        i += 1;
    }
    assert(listing.take(i as int) =~= listing);
    found
}

/// The negative displacements of library calls are never mistaken for register accesses,
/// whatever the address register holds.
pub proof fn library_vectors_name_no_register(
    register: u8,
    displacement: i16,
    custom_base: u32,
    loaded: Seq<bool>,
)
    requires
        displacement < 0,
    ensures
        spec_register_named(AddressingMode::Ariwd(register, displacement), custom_base, loaded) is None,
{
}

} // verus!
