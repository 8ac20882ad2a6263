//! Recursive control-flow analysis of MC68000 code.
//!
//! Instruction decoding comes from the `m68000` crate; this module adds the
//! reverse-engineering layer on top: recursive-descent traversal that follows
//! branches, `BSR`/`JSR` calls, `DBcc`, direct `JMP`/`JSR` targets, and
//! PC-indexed branch/call tables of `BRA.W` stubs and range-checked data jump
//! tables, recording a call graph and any control flow it could not resolve.
//!
//! A traversal is stated as a machine: a configuration, and the one that comes
//! next. What the traversal returns is what the machine holds when it halts.

use crate::analysis::{
    filed, relocation_view, AnalysisView, CallEdge, ControlFlowAnalysis, ExternalFlow,
    ExternalKind, FlowEdge, FlowKind, UnresolvedFlow,
};
use crate::collections::{lemma_pair_count, AddressMap, AddressPair, OrderedSet};
use crate::decoded::{
    decode, read_word, spec_decode, spec_valid_address, valid_address, word_at, DecodedInstruction,
    DecodedView,
};
use crate::jump_tables::{instruction_map, loads_target, spec_loads_target};
use crate::lvo::{is_library_call_mode, spec_library_vector};
use crate::m68k::{AddressingMode, Isa, Operands};
use crate::relocation::{Rebase, Relocation, RelocationView, Relocations};
use std::collections::VecDeque;
use vstd::prelude::*;

verus! {

/// What the caller knows about how the analyzed code is addressed.
#[derive(Debug)]
pub struct FlowOptions {
    /// Rebase for an image copied to a fixed load address and executed there
    /// (see [`Rebase`]). `None` reads an absolute operand as a file offset,
    /// which is correct for a plain, in-place hunk.
    pub rebase: Option<Rebase>,
    /// The analyzed hunk's HUNK relocations, when the caller parsed them.
    /// Without them the stored addend is all the traversal has, and a
    /// cross-hunk call reads as an in-hunk one.
    pub relocations: Option<Relocations>,
}

/// The options as a mathematical value.
#[verifier::ext_equal]
pub struct OptionsView {
    pub rebase: Option<Rebase>,
    pub relocations: Option<RelocationView>,
}

impl View for FlowOptions {
    type V = OptionsView;

    open spec fn view(&self) -> OptionsView {
        OptionsView { rebase: self.rebase, relocations: relocation_view(self.relocations) }
    }
}

impl FlowOptions {
    /// The relocation index, where there is one, is in order.
    pub open spec fn wf(&self) -> bool {
        self.relocations matches Some(index) ==> index.wf()
    }
}

impl Default for FlowOptions {
    fn default() -> (r: Self)
        ensures
            r.rebase is None,
            r.relocations is None,
            r.wf(),
    {
        FlowOptions { rebase: None, relocations: None }
    }
}

/// Whether the instruction ends a subroutine.
pub open spec fn spec_is_return(isa: Isa) -> bool {
    isa == Isa::Rte || isa == Isa::Rts || isa == Isa::Rtr
}

/// Whether the instruction ends a subroutine.
pub fn is_return(isa: Isa) -> (r: bool)
    ensures
        r == spec_is_return(isa),
{
    matches!(isa, Isa::Rte | Isa::Rts | Isa::Rtr)
}

/// The target of a branch at `address`: its displacement counts from the word
/// after the opcode.
pub open spec fn spec_relative_target(address: u32, displacement: i16) -> u32 {
    address.wrapping_add(2).wrapping_add_signed(displacement as i32)
}

/// The target of a branch at `address`.
pub fn relative_target(address: u32, displacement: i16) -> (r: u32)
    ensures
        r == spec_relative_target(address, displacement),
{
    address.wrapping_add(2).wrapping_add_signed(displacement as i32)
}

/// What a direct `JSR`/`JMP` operand resolves to.
#[derive(Debug)]
pub enum DirectTarget {
    /// A hunk offset this traversal can continue into.
    Offset(u32),
    /// Several offsets, from an instruction or data dispatch table.
    Table(Vec<u32>),
    /// Another hunk, proved by the relocation patching the operand.
    External(Relocation),
    /// The AmigaOS library-call convention explains the target.
    LibraryCall,
    /// Nothing static explains the target.
    Unresolved,
}

/// A direct target as a mathematical value.
#[verifier::ext_equal]
pub enum DirectTargetView {
    Offset(u32),
    Table(Seq<u32>),
    External(Relocation),
    LibraryCall,
    Unresolved,
}

impl View for DirectTarget {
    type V = DirectTargetView;

    open spec fn view(&self) -> DirectTargetView {
        match self {
            DirectTarget::Offset(target) => DirectTargetView::Offset(*target),
            DirectTarget::Table(targets) => DirectTargetView::Table(targets@),
            DirectTarget::External(relocation) => DirectTargetView::External(*relocation),
            DirectTarget::LibraryCall => DirectTargetView::LibraryCall,
            DirectTarget::Unresolved => DirectTargetView::Unresolved,
        }
    }
}

/// The offset that an absolute or PC-relative operand names.
pub open spec fn spec_direct_address(
    mode: AddressingMode,
    rebase: Option<Rebase>,
    length: nat,
) -> Option<u32> {
    match mode {
        AddressingMode::AbsLong(address) => match rebase {
            Some(rebase) => rebase.spec_to_offset(address, length),
            None => Some(address),
        },
        AddressingMode::Pciwd(pc, displacement) => Some(
            pc.wrapping_add_signed(displacement as i32),
        ),
        _ => None,
    }
}

/// The offset that an absolute or PC-relative operand names.
pub fn direct_address(mode: AddressingMode, rebase: Option<Rebase>, length: usize) -> (r: Option<
    u32,
>)
    ensures
        r == spec_direct_address(mode, rebase, length as nat),
{
    match mode {
        AddressingMode::AbsLong(address) => match rebase {
            Some(rebase) => rebase.to_offset(address, length),
            None => Some(address),
        },
        AddressingMode::Pciwd(pc, displacement) => Some(
            pc.wrapping_add_signed(displacement as i32),
        ),
        _ => None,
    }
}

/// Whether the word at `at` is a whole `BRA.W` opcode word.
pub open spec fn stub_at(code: Seq<u8>, at: int) -> bool {
    at + 2 <= code.len() && word_at(code, at) == 0x6000
}

/// The first stub at an even distance of at least `offset` and at most 32 bytes
/// from `base`.
pub open spec fn first_stub(code: Seq<u8>, base: int, offset: int) -> Option<int>
    decreases 34 - offset,
{
    if offset > 32 {
        None
    } else if stub_at(code, base + offset) {
        Some(base + offset)
    } else {
        first_stub(code, base, offset + 2)
    }
}

/// The targets of consecutive stubs from `cursor` on, after `count` others, up to
/// 256 in all. `None` where the table runs past the end of the code.
pub open spec fn stub_targets(code: Seq<u8>, cursor: int, count: nat) -> Option<Seq<u32>>
    decreases 256 - count,
{
    if count >= 256 {
        Some(Seq::empty())
    } else if cursor + 4 > code.len() {
        None
    } else if word_at(code, cursor) != 0x6000 {
        Some(Seq::empty())
    } else if cursor > u32::MAX {
        None
    } else {
        match stub_targets(code, cursor + 4, count + 1) {
            None => None,
            Some(rest) => Some(
                seq![spec_relative_target(cursor as u32, word_at(code, cursor + 2) as i16)] + rest,
            ),
        }
    }
}

/// The targets of the table of `BRA.W` stubs that a PC-indexed operand reaches.
pub open spec fn spec_branch_jump_table_targets(code: Seq<u8>, mode: AddressingMode) -> Option<
    Seq<u32>,
> {
    match mode {
        AddressingMode::Pciwi8(pc, extension) => {
            let table = pc.wrapping_add_signed(extension.spec_disp() as i32);
            match first_stub(code, table as int, 0) {
                None => None,
                Some(cursor) => stub_targets(code, cursor, 0),
            }
        },
        _ => None,
    }
}

fn find_stub(code: &[u8], base: u32) -> (r: Option<usize>)
    ensures
        match r {
            Some(at) => first_stub(code@, base as int, 0) == Some(at as int) && stub_at(
                code@,
                at as int,
            ),
            None => first_stub(code@, base as int, 0) is None,
        },
{
    let mut offset: u64 = 0;
    while offset <= 32
        invariant
            offset <= 34,
            first_stub(code@, base as int, 0) == first_stub(code@, base as int, offset as int),
        decreases 34 - offset,
    {
        let at: u64 = base as u64 + offset;
        if at + 2 <= code.len() as u64 && read_word(code, at as usize) == 0x6000 {
            return Some(at as usize);
        }
        offset += 2;
    }
    None
}

/// The targets of the table of `BRA.W` stubs that a PC-indexed operand reaches.
///
/// The comparison is with a whole opcode word over *undecoded* bytes: `BRA.S`,
/// whose entries are two bytes wide, would misread the table's stride.
pub fn branch_jump_table_targets(code: &[u8], mode: AddressingMode) -> (r: Option<Vec<u32>>)
    ensures
        match r {
            Some(targets) => spec_branch_jump_table_targets(code@, mode) == Some(targets@),
            None => spec_branch_jump_table_targets(code@, mode) is None,
        },
{
    let (pc, extension) = match mode {
        AddressingMode::Pciwi8(pc, extension) => (pc, extension),
        _ => {
            return None;
        },
    };
    let table: u32 = pc.wrapping_add_signed(extension.disp() as i32);
    let start: usize = match find_stub(code, table) {
        Some(start) => start,
        None => {
            return None;
        },
    };
    let mut cursor: usize = start;
    let mut targets: Vec<u32> = Vec::new();
    let ghost all = stub_targets(code@, start as int, 0);
    assert(all matches Some(rest) ==> Seq::<u32>::empty() + rest =~= rest);
    while targets.len() < 256
        invariant
            targets@.len() <= 256,
            cursor <= code@.len(),
            spec_branch_jump_table_targets(code@, mode) == all,
            all == (match stub_targets(code@, cursor as int, targets@.len()) {
                None => None::<Seq<u32>>,
                Some(rest) => Some(targets@ + rest),
            }),
        ensures
            all == Some(targets@),
        decreases 256 - targets@.len(),
    {
        if code.len() - cursor < 4 {
            return None;
        }
        if read_word(code, cursor) != 0x6000 {
            assert(targets@ + Seq::<u32>::empty() =~= targets@);
            break;
        }
        if (cursor as u64) > u32::MAX as u64 {
            return None;
        }
        let displacement: i16 = read_word(code, cursor + 2) as i16;
        let target: u32 = relative_target(cursor as u32, displacement);
        let ghost rest = stub_targets(code@, cursor + 4, targets@.len() + 1);
        proof {
            if rest is Some {
                assert(targets@ + (seq![target] + rest->0) =~= targets@.push(target) + rest->0);
            }
        }
        targets.push(target);
        cursor = cursor + 4;
        proof {
            if targets@.len() >= 256 {
                assert(targets@ + Seq::<u32>::empty() =~= targets@);
            }
        }
    }
    Some(targets)
}

/// What the operand of a direct `JSR`/`JMP` spanning `site..end` resolves to.
///
/// A relocation patching the operand outranks every other reading. Into the
/// analyzed hunk the record's offset is the target; into another hunk the target
/// is external; a record naming no traversable address of this hunk describes no
/// reachable code.
pub open spec fn spec_resolve_direct(
    code: Seq<u8>,
    options: OptionsView,
    mode: AddressingMode,
    site: u32,
    end: u32,
) -> DirectTargetView {
    let patched = match (mode, options.relocations) {
        (AddressingMode::AbsLong(addend), Some(index)) => if site + 6 <= end {
            index.at((site + 2) as u32, addend)
        } else {
            None
        },
        _ => None,
    };
    match patched {
        Some(relocation) => if relocation.target_hunk != options.relocations->0.hunk {
            DirectTargetView::External(relocation)
        } else if spec_valid_address(code, relocation.target_offset) {
            DirectTargetView::Offset(relocation.target_offset)
        } else {
            DirectTargetView::Unresolved
        },
        None => match spec_direct_address(mode, options.rebase, code.len()) {
            Some(target) => DirectTargetView::Offset(target),
            None => match spec_branch_jump_table_targets(code, mode) {
                Some(targets) => DirectTargetView::Table(targets),
                None => if spec_library_vector(mode) is Some {
                    DirectTargetView::LibraryCall
                } else {
                    DirectTargetView::Unresolved
                },
            },
        },
    }
}

/// Resolve the operand of a direct `JSR`/`JMP` spanning `site..end`.
pub fn resolve_direct(
    code: &[u8],
    options: &FlowOptions,
    mode: AddressingMode,
    site: u32,
    end: u32,
) -> (r: DirectTarget)
    requires
        options.wf(),
    ensures
        r@ == spec_resolve_direct(code@, options@, mode, site, end),
{
    match mode {
        AddressingMode::AbsLong(addend) => {
            match &options.relocations {
                Some(index) => {
                    if site as u64 + 6 <= end as u64 {
                        match index.at(site + 2, addend) {
                            Some(relocation) => {
                                return if relocation.target_hunk != index.hunk() {
                                    DirectTarget::External(relocation)
                                } else if valid_address(code, relocation.target_offset) {
                                    DirectTarget::Offset(relocation.target_offset)
                                } else {
                                    DirectTarget::Unresolved
                                };
                            },
                            None => {},
                        }
                    }
                },
                None => {},
            }
        },
        _ => {},
    }
    match direct_address(mode, options.rebase, code.len()) {
        Some(target) => DirectTarget::Offset(target),
        None => match branch_jump_table_targets(code, mode) {
            Some(targets) => DirectTarget::Table(targets),
            None => if is_library_call_mode(mode) {
                DirectTarget::LibraryCall
            } else {
                DirectTarget::Unresolved
            },
        },
    }
}

/// A traversal in progress: what it found, the pairs of address and owner it has
/// still to walk from, and those it has walked.
#[verifier::ext_equal]
pub struct Walk {
    pub analysis: AnalysisView,
    pub queue: Seq<AddressPair>,
    pub visited: Set<AddressPair>,
}

impl Walk {
    /// One more edge.
    pub open spec fn flow(self, owner: u32, site: u32, target: u32, kind: FlowKind) -> Walk {
        Walk {
            analysis: AnalysisView {
                flows: self.analysis.flows.insert(FlowEdge { owner, site, target, kind }),
                ..self.analysis
            },
            ..self
        }
    }

    /// One more call: an edge, a function entry, and a place to walk from.
    pub open spec fn call(self, caller: u32, call_site: u32, callee: u32) -> Walk {
        let called = Walk {
            analysis: AnalysisView {
                functions: self.analysis.functions.insert(callee),
                calls: self.analysis.calls.insert(CallEdge { caller, call_site, callee }),
                ..self.analysis
            },
            ..self
        }.flow(caller, call_site, callee, FlowKind::Call);
        Walk {
            queue: called.queue.push(AddressPair { first: callee, second: callee }),
            ..called
        }
    }

    /// One more place to walk from, if it can be walked.
    pub open spec fn enqueue(self, code: Seq<u8>, address: u32, owner: u32) -> Walk {
        if spec_valid_address(code, address) {
            Walk { queue: self.queue.push(AddressPair { first: address, second: owner }), ..self }
        } else {
            self
        }
    }

    /// One more branch: an edge, and a place to walk from.
    pub open spec fn branch(self, code: Seq<u8>, owner: u32, site: u32, target: u32) -> Walk {
        self.flow(owner, site, target, FlowKind::Branch).enqueue(code, target, owner)
    }

    /// One more transfer that nothing explains.
    pub open spec fn unresolved(self, owner: u32, address: u32) -> Walk {
        Walk {
            analysis: AnalysisView {
                unresolved: self.analysis.unresolved.insert(UnresolvedFlow { owner, address }),
                ..self.analysis
            },
            ..self
        }
    }

    /// One more transfer that a relocation proves leaves the hunk.
    pub open spec fn external(self, site: u32, kind: ExternalKind, relocation: Relocation) -> Walk {
        Walk {
            analysis: AnalysisView {
                external: self.analysis.external.insert(
                    ExternalFlow {
                        site,
                        kind,
                        relocation: relocation.patched,
                        target_hunk: relocation.target_hunk,
                        target_offset: relocation.target_offset,
                    },
                ),
                ..self.analysis
            },
            ..self
        }
    }

    /// One more transfer that the library-call convention explains.
    pub open spec fn library_call(self, site: u32) -> Walk {
        Walk {
            analysis: AnalysisView {
                library_calls: self.analysis.library_calls.insert(site),
                ..self.analysis
            },
            ..self
        }
    }

    /// A call to each of several targets.
    pub open spec fn call_all(self, caller: u32, call_site: u32, callees: Seq<u32>) -> Walk
        decreases callees.len(),
    {
        if callees.len() == 0 {
            self
        } else {
            self.call_all(caller, call_site, callees.drop_last()).call(
                caller,
                call_site,
                callees.last(),
            )
        }
    }

    /// A branch to each of several targets.
    pub open spec fn branch_all(
        self,
        code: Seq<u8>,
        owner: u32,
        site: u32,
        targets: Seq<u32>,
    ) -> Walk
        decreases targets.len(),
    {
        if targets.len() == 0 {
            self
        } else {
            self.branch_all(code, owner, site, targets.drop_last()).branch(
                code,
                owner,
                site,
                targets.last(),
            )
        }
    }

    /// The instruction at `address` as it stands now.
    pub open spec fn with_instruction(self, address: u32, decoded: DecodedView) -> Walk {
        Walk {
            analysis: AnalysisView {
                instructions: self.analysis.instructions.insert(address, decoded),
                ..self.analysis
            },
            ..self
        }
    }

    /// What the call at `address` adds.
    pub open spec fn transfer_call(
        self,
        owner: u32,
        address: u32,
        target: DirectTargetView,
    ) -> Walk {
        match target {
            DirectTargetView::Offset(target) => self.call(owner, address, target),
            DirectTargetView::Table(targets) => self.call_all(owner, address, targets),
            DirectTargetView::External(relocation) => self.external(
                address,
                ExternalKind::Call,
                relocation,
            ),
            DirectTargetView::LibraryCall => self.library_call(address),
            DirectTargetView::Unresolved => self.unresolved(owner, address),
        }
    }

    /// What the jump at `address` adds.
    pub open spec fn transfer_jump(
        self,
        code: Seq<u8>,
        owner: u32,
        address: u32,
        target: DirectTargetView,
    ) -> Walk {
        match target {
            DirectTargetView::Offset(target) => self.branch(code, owner, address, target),
            DirectTargetView::Table(targets) => self.branch_all(code, owner, address, targets),
            DirectTargetView::External(relocation) => self.external(
                address,
                ExternalKind::Jump,
                relocation,
            ),
            DirectTargetView::LibraryCall => self.library_call(address),
            DirectTargetView::Unresolved => self.unresolved(owner, address),
        }
    }
}

/// What a traversal is given: the image, how it is addressed, and the data tables
/// recovered so far, by the site of their jump.
pub struct Image {
    pub code: Seq<u8>,
    pub options: OptionsView,
    pub tables: Map<u32, Seq<u32>>,
}

/// The target of the jump at `address`: its recovered table where there is one;
/// none where it was loaded from a table that was not recovered; the operand's
/// otherwise.
pub open spec fn jump_target(
    image: Image,
    instructions: Map<u32, DecodedView>,
    mode: AddressingMode,
    address: u32,
    end: u32,
) -> DirectTargetView {
    if image.tables.dom().contains(address) {
        DirectTargetView::Table(image.tables[address])
    } else if spec_loads_target(instructions, address) {
        DirectTargetView::Unresolved
    } else {
        spec_resolve_direct(image.code, image.options, mode, address, end)
    }
}

/// What the instruction at `address`, owned by `owner`, adds to a traversal, and
/// the address to go on at.
pub open spec fn follow(image: Image, w: Walk, address: u32, owner: u32) -> (Walk, Option<u32>) {
    let decoded = w.analysis.instructions[address];
    let isa = decoded.instruction.isa;
    let operands = decoded.instruction.operands;
    let end = decoded.end;
    if isa == Isa::Unknown && !decoded.is_opaque_fallthrough() {
        (w.unresolved(owner, address), None)
    } else if spec_is_return(isa) {
        (w, None)
    } else if isa == Isa::Bra || isa == Isa::Bsr || isa == Isa::Bcc {
        let displacement = match operands {
            Operands::Displacement(displacement) => Some(displacement),
            Operands::ConditionDisplacement(_, displacement) => Some(displacement),
            _ => None,
        };
        match displacement {
            None => (w.unresolved(owner, address), None),
            Some(displacement) => {
                let target = spec_relative_target(address, displacement);
                if isa == Isa::Bsr {
                    (
                        w.call(owner, address, target).flow(
                            owner,
                            address,
                            end,
                            FlowKind::Fallthrough,
                        ),
                        Some(end),
                    )
                } else if isa == Isa::Bra {
                    (w.branch(image.code, owner, address, target), None)
                } else {
                    (
                        w.branch(image.code, owner, address, target).flow(
                            owner,
                            address,
                            end,
                            FlowKind::Fallthrough,
                        ),
                        Some(end),
                    )
                }
            },
        }
    } else if isa == Isa::Dbcc {
        let taken = match operands {
            Operands::ConditionRegisterDisplacement(_, _, displacement) => w.branch(
                image.code,
                owner,
                address,
                spec_relative_target(address, displacement),
            ),
            _ => w.unresolved(owner, address),
        };
        (taken.flow(owner, address, end, FlowKind::Fallthrough), Some(end))
    } else if isa == Isa::Jsr {
        let taken = match operands {
            Operands::EffectiveAddress(mode) => w.transfer_call(
                owner,
                address,
                spec_resolve_direct(image.code, image.options, mode, address, end),
            ),
            _ => w,
        };
        (taken.flow(owner, address, end, FlowKind::Fallthrough), Some(end))
    } else if isa == Isa::Jmp {
        let taken = match operands {
            Operands::EffectiveAddress(mode) => w.transfer_jump(
                image.code,
                owner,
                address,
                jump_target(image, w.analysis.instructions, mode, address, end),
            ),
            _ => w,
        };
        (taken, None)
    } else {
        (w.flow(owner, address, end, FlowKind::Fallthrough), Some(end))
    }
}

/// What arriving at `address` for `owner` adds to a traversal, and the address to
/// go on at. An instruction that another traversal decoded gains the owner; a new
/// one is decoded.
pub open spec fn arrive(image: Image, w: Walk, address: u32, owner: u32) -> (Walk, Option<u32>) {
    let seen = Walk {
        visited: w.visited.insert(AddressPair { first: address, second: owner }),
        ..w
    };
    if seen.analysis.instructions.dom().contains(address) {
        let existing = seen.analysis.instructions[address];
        let owned = seen.with_instruction(address, existing.with_owner(owner));
        if existing.admits(owner) {
            follow(image, owned, address, owner)
        } else {
            (owned, None)
        }
    } else {
        match spec_decode(image.code, address, owner) {
            None => (seen.unresolved(owner, address), None),
            Some(decoded) => follow(
                image,
                seen.with_instruction(address, decoded),
                address,
                owner,
            ),
        }
    }
}

/// A traversal and the place it is walking from, if it is.
#[verifier::ext_equal]
pub struct Config {
    pub walk: Walk,
    pub cursor: Option<AddressPair>,
}

impl Config {
    /// Nothing is left to walk from.
    pub open spec fn halted(self) -> bool {
        self.cursor is None && self.walk.queue.len() == 0
    }
}

/// The configuration after this one. A walk stops at an address that cannot be
/// walked or that its owner has walked before; the next one starts at the front
/// of the queue.
pub open spec fn next(image: Image, c: Config) -> Config {
    match c.cursor {
        Some(at) => if spec_valid_address(image.code, at.first) && !c.walk.visited.contains(at) {
            let (walk, on) = arrive(image, c.walk, at.first, at.second);
            Config {
                walk,
                cursor: match on {
                    Some(address) => Some(AddressPair { first: address, second: at.second }),
                    None => None,
                },
            }
        } else {
            Config { cursor: None, ..c }
        },
        None => if c.walk.queue.len() > 0 {
            Config {
                walk: Walk { queue: c.walk.queue.subrange(1, c.walk.queue.len() as int), ..c.walk },
                cursor: Some(c.walk.queue[0]),
            }
        } else {
            c
        },
    }
}

/// The configuration `n` steps after this one.
pub open spec fn run(image: Image, c: Config, n: nat) -> Config
    decreases n,
{
    if n == 0 {
        c
    } else {
        next(image, run(image, c, (n - 1) as nat))
    }
}

/// The configuration a traversal starts in: the entries are functions, and each
/// is walked for itself.
pub open spec fn start(options: OptionsView, entries: Seq<u32>) -> Config {
    Config {
        walk: Walk {
            analysis: AnalysisView {
                instructions: Map::empty(),
                functions: entries.to_set(),
                calls: Set::empty(),
                flows: Set::empty(),
                unresolved: Set::empty(),
                library_calls: Set::empty(),
                external: Set::empty(),
                relocations: options.relocations,
                rebase: options.rebase,
            },
            queue: entries.map_values(|entry: u32| AddressPair { first: entry, second: entry }),
            visited: Set::empty(),
        },
        cursor: None,
    }
}

/// The traversal comes to a halt.
pub open spec fn settles(image: Image, c: Config) -> bool {
    exists|n: nat| (#[trigger] run(image, c, n)).halted()
}

/// The configuration in which the traversal halts.
pub open spec fn settled(image: Image, c: Config) -> Config {
    run(image, c, choose|n: nat| (#[trigger] run(image, c, n)).halted())
}

/// What one traversal of an image finds.
pub open spec fn traversed(image: Image, entries: Seq<u32>) -> AnalysisView {
    settled(image, start(image.options, entries)).walk.analysis
}

/// Steps add up.
pub proof fn lemma_run_adds(image: Image, c: Config, m: nat, n: nat)
    ensures
        run(image, run(image, c, m), n) == run(image, c, m + n),
    decreases n,
{
    if n > 0 {
        lemma_run_adds(image, c, m, (n - 1) as nat);
        assert(run(image, c, m + n) == next(image, run(image, c, (m + n - 1) as nat)));
    }
}

proof fn lemma_halted_stays(image: Image, c: Config, n: nat)
    requires
        c.halted(),
    ensures
        run(image, c, n) == c,
    decreases n,
{
    if n > 0 {
        lemma_halted_stays(image, c, (n - 1) as nat);
    }
}

/// A traversal has one outcome: wherever it halts, it holds the same.
pub proof fn outcome_is_unique(image: Image, c: Config, m: nat, n: nat)
    requires
        run(image, c, m).halted(),
        run(image, c, n).halted(),
    ensures
        run(image, c, m) == run(image, c, n),
{
    if m <= n {
        lemma_run_adds(image, c, m, (n - m) as nat);
        lemma_halted_stays(image, run(image, c, m), (n - m) as nat);
    } else {
        lemma_run_adds(image, c, n, (m - n) as nat);
        lemma_halted_stays(image, run(image, c, n), (m - n) as nat);
    }
}

proof fn lemma_settled(image: Image, c: Config, n: nat)
    requires
        run(image, c, n).halted(),
    ensures
        settles(image, c),
        settled(image, c) == run(image, c, n),
{
    let chosen = choose|n: nat| (#[trigger] run(image, c, n)).halted();
    outcome_is_unique(image, c, chosen, n);
}

/// How many items are taken from the queue within `n` steps.
pub open spec fn items_walked(image: Image, c: Config, n: nat) -> nat
    decreases n,
{
    if n == 0 {
        0
    } else {
        let before = run(image, c, (n - 1) as nat);
        let items = items_walked(image, c, (n - 1) as nat);
        if before.cursor is None && !before.halted() {
            items + 1
        } else {
            items
        }
    }
}

proof fn lemma_items_add(image: Image, c: Config, m: nat, n: nat)
    ensures
        items_walked(image, c, m + n) == items_walked(image, c, m) + items_walked(
            image,
            run(image, c, m),
            n,
        ),
    decreases n,
{
    if n > 0 {
        lemma_items_add(image, c, m, (n - 1) as nat);
        lemma_run_adds(image, c, m, (n - 1) as nat);
    }
}

/// A traversal that has halted takes no more items.
proof fn lemma_items_bounded(image: Image, c: Config, halt: nat, n: nat)
    requires
        run(image, c, halt).halted(),
    ensures
        items_walked(image, c, n) <= items_walked(image, c, halt),
{
    if n <= halt {
        lemma_items_add(image, c, n, (halt - n) as nat);
    } else {
        lemma_items_add(image, c, halt, (n - halt) as nat);
        lemma_no_more_items(image, run(image, c, halt), (n - halt) as nat);
    }
}

proof fn lemma_no_more_items(image: Image, c: Config, n: nat)
    requires
        c.halted(),
    ensures
        items_walked(image, c, n) == 0,
    decreases n,
{
    if n > 0 {
        lemma_no_more_items(image, c, (n - 1) as nat);
        lemma_halted_stays(image, c, (n - 1) as nat);
    }
}

/// A signal that asks a long traversal to stop.
pub trait Cancel {
    /// Whether the signal can ever fire.
    spec fn may_fire(&self) -> bool;

    /// Whether the signal is up, and stays up for as long as the traversal runs.
    spec fn is_up(&self) -> bool;

    /// Whether the signal has fired.
    fn is_cancelled(&self) -> (r: bool)
        ensures
            r ==> self.may_fire(),
            self.is_up() ==> r,
    ;
}

/// A signal that never fires.
#[derive(Clone, Copy, Debug)]
pub struct Never;

impl Cancel for Never {
    open spec fn may_fire(&self) -> bool {
        false
    }

    open spec fn is_up(&self) -> bool {
        false
    }

    fn is_cancelled(&self) -> bool {
        false
    }
}

/// The traversal was asked to stop.
#[derive(Clone, Copy, Debug, PartialEq, Eq, Structural)]
pub struct Cancelled;

/// How many queue items are walked between two looks at the signal.
pub const ITEMS_PER_CHECKPOINT: usize = 256;

/// A traversal in progress.
struct Traversal {
    analysis: ControlFlowAnalysis,
    queue: VecDeque<AddressPair>,
    visited: OrderedSet<AddressPair>,
}

impl Traversal {
    spec fn walk(&self) -> Walk {
        Walk { analysis: self.analysis@, queue: self.queue@, visited: self.visited@ }
    }

    spec fn wf(&self) -> bool {
        self.analysis.wf() && self.visited.wf()
    }

    fn add_flow(&mut self, owner: u32, site: u32, target: u32, kind: FlowKind)
        requires
            old(self).wf(),
        ensures
            final(self).wf(),
            final(self).walk() == old(self).walk().flow(owner, site, target, kind),
            final(self).visited == old(self).visited,
    {
        self.analysis.flows.insert(FlowEdge { owner, site, target, kind });
    }

    fn add_call(&mut self, caller: u32, call_site: u32, callee: u32)
        requires
            old(self).wf(),
        ensures
            final(self).wf(),
            final(self).walk() == old(self).walk().call(caller, call_site, callee),
            final(self).visited == old(self).visited,
    {
        self.analysis.functions.insert(callee);
        self.analysis.calls.insert(CallEdge { caller, call_site, callee });
        self.add_flow(caller, call_site, callee, FlowKind::Call);
        self.queue.push_back(AddressPair { first: callee, second: callee });
    }

    fn add_branch(&mut self, code: &[u8], owner: u32, site: u32, target: u32)
        requires
            old(self).wf(),
        ensures
            final(self).wf(),
            final(self).walk() == old(self).walk().branch(code@, owner, site, target),
            final(self).visited == old(self).visited,
    {
        self.add_flow(owner, site, target, FlowKind::Branch);
        if valid_address(code, target) {
            self.queue.push_back(AddressPair { first: target, second: owner });
        }
    }

    fn add_unresolved(&mut self, owner: u32, address: u32)
        requires
            old(self).wf(),
        ensures
            final(self).wf(),
            final(self).walk() == old(self).walk().unresolved(owner, address),
            final(self).visited == old(self).visited,
    {
        self.analysis.unresolved.insert(UnresolvedFlow { owner, address });
    }

    fn add_external(&mut self, site: u32, kind: ExternalKind, relocation: Relocation)
        requires
            old(self).wf(),
        ensures
            final(self).wf(),
            final(self).walk() == old(self).walk().external(site, kind, relocation),
            final(self).visited == old(self).visited,
    {
        self.analysis.external.insert(
            ExternalFlow {
                site,
                kind,
                relocation: relocation.patched,
                target_hunk: relocation.target_hunk,
                target_offset: relocation.target_offset,
            },
        );
    }

    fn add_library_call(&mut self, site: u32)
        requires
            old(self).wf(),
        ensures
            final(self).wf(),
            final(self).walk() == old(self).walk().library_call(site),
            final(self).visited == old(self).visited,
    {
        self.analysis.library_calls.insert(site);
    }

    fn take_call(&mut self, owner: u32, address: u32, target: DirectTarget)
        requires
            old(self).wf(),
        ensures
            final(self).wf(),
            final(self).walk() == old(self).walk().transfer_call(owner, address, target@),
            final(self).visited == old(self).visited,
    {
        match target {
            DirectTarget::Offset(target) => {
                self.add_call(owner, address, target);
            },
            DirectTarget::Table(targets) => {
                let mut i: usize = 0;
                while i < targets.len()
                    invariant
                        i <= targets@.len(),
                        self.wf(),
                        self.visited == old(self).visited,
                        self.walk() == old(self).walk().call_all(
                            owner,
                            address,
                            targets@.take(i as int),
                        ),
                    decreases targets@.len() - i,
                {
                    self.add_call(owner, address, targets[i]);
                    i += 1;
                    assert(targets@.take(i as int).drop_last() =~= targets@.take(i - 1));
                }
                assert(targets@.take(i as int) =~= targets@);
            },
            DirectTarget::External(relocation) => {
                self.add_external(address, ExternalKind::Call, relocation);
            },
            DirectTarget::LibraryCall => {
                self.add_library_call(address);
            },
            DirectTarget::Unresolved => {
                self.add_unresolved(owner, address);
            },
        }
    }

    fn take_jump(&mut self, code: &[u8], owner: u32, address: u32, target: DirectTarget)
        requires
            old(self).wf(),
        ensures
            final(self).wf(),
            final(self).walk() == old(self).walk().transfer_jump(code@, owner, address, target@),
            final(self).visited == old(self).visited,
    {
        match target {
            DirectTarget::Offset(target) => {
                self.add_branch(code, owner, address, target);
            },
            DirectTarget::Table(targets) => {
                let mut i: usize = 0;
                while i < targets.len()
                    invariant
                        i <= targets@.len(),
                        self.wf(),
                        self.visited == old(self).visited,
                        self.walk() == old(self).walk().branch_all(
                            code@,
                            owner,
                            address,
                            targets@.take(i as int),
                        ),
                    decreases targets@.len() - i,
                {
                    self.add_branch(code, owner, address, targets[i]);
                    i += 1;
                    assert(targets@.take(i as int).drop_last() =~= targets@.take(i - 1));
                }
                assert(targets@.take(i as int) =~= targets@);
            },
            DirectTarget::External(relocation) => {
                self.add_external(address, ExternalKind::Jump, relocation);
            },
            DirectTarget::LibraryCall => {
                self.add_library_call(address);
            },
            DirectTarget::Unresolved => {
                self.add_unresolved(owner, address);
            },
        }
    }
}

/// The recovered data tables as a mathematical map.
pub open spec fn table_map(tables: AddressMap<Vec<u32>>) -> Map<u32, Seq<u32>> {
    tables@.map_values(|targets: Vec<u32>| targets@)
}

/// What the traversal of `code` is given, as a mathematical value.
pub open spec fn image_of(
    code: Seq<u8>,
    options: OptionsView,
    tables: AddressMap<Vec<u32>>,
) -> Image {
    Image { code, options, tables: table_map(tables) }
}

/// The elements of a list, again.
pub fn copy_list(list: &[u32]) -> (r: Vec<u32>)
    ensures
        r@ == list@,
{
    let mut out: Vec<u32> = Vec::new();
    let mut i: usize = 0;
    while i < list.len()
        invariant
            i <= list@.len(),
            out@ == list@.take(i as int),
        decreases list@.len() - i,
    {
        out.push(list[i]);
        i += 1;
        assert(out@ =~= list@.take(i as int));
    }
    assert(out@ =~= list@);
    out
}

/// Replacing the value at a position replaces the map's value for its key.
proof fn lemma_value_replaced(
    old: AddressMap<DecodedInstruction>,
    new: AddressMap<DecodedInstruction>,
    i: int,
)
    requires
        old.wf(),
        0 <= i < old.keys@.len(),
        new.keys@ == old.keys@,
        new.values@ == old.values@.update(i, new.values@[i]),
    ensures
        new.wf(),
        instruction_map(new) == instruction_map(old).insert(old.keys@[i], new.values@[i]@),
{
    let inserted = instruction_map(old).insert(old.keys@[i], new.values@[i]@);
    old.lemma_entry(i);
    assert(instruction_map(new).dom() =~= inserted.dom());
    assert forall|k: u32| instruction_map(new).dom().contains(k) implies instruction_map(new)[k]
        == inserted[k] by {
        let j = new.lemma_position(k);
        old.lemma_entry(j);
        if j < i {
            assert(old.keys@[j] < old.keys@[i]);
        } else if i < j {
            assert(old.keys@[i] < old.keys@[j]);
        }
    }
    assert(instruction_map(new) =~= inserted);
}

/// A new key and its value are one more entry of the map.
proof fn lemma_value_inserted(
    old: AddressMap<DecodedInstruction>,
    new: AddressMap<DecodedInstruction>,
    key: u32,
    value: DecodedInstruction,
)
    requires
        new@ == old@.insert(key, value),
    ensures
        instruction_map(new) == instruction_map(old).insert(key, value@),
{
    assert(instruction_map(new) =~= instruction_map(old).insert(key, value@));
}

impl Traversal {
    /// The jump at `address`: its recovered table, or what its operand says.
    fn resolve_jump(
        &self,
        code: &[u8],
        options: &FlowOptions,
        tables: &AddressMap<Vec<u32>>,
        mode: AddressingMode,
        address: u32,
        end: u32,
    ) -> (r: DirectTarget)
        requires
            self.wf(),
            options.wf(),
            tables.wf(),
        ensures
            r@ == jump_target(
                image_of(code@, options@, *tables),
                self.walk().analysis.instructions,
                mode,
                address,
                end,
            ),
    {
        match tables.get(address) {
            Some(targets) => {
                let copied = copy_list(targets);
                assert(table_map(*tables)[address] == targets@);
                DirectTarget::Table(copied)
            },
            None => if loads_target(&self.analysis.instructions, address) {
                DirectTarget::Unresolved
            } else {
                resolve_direct(code, options, mode, address, end)
            },
        }
    }

    /// Follow the instruction at `address`, and report where to go on.
    #[verifier::rlimit(40)]
    fn follow(
        &mut self,
        code: &[u8],
        options: &FlowOptions,
        tables: &AddressMap<Vec<u32>>,
        address: u32,
        owner: u32,
    ) -> (r: Option<u32>)
        requires
            old(self).wf(),
            options.wf(),
            tables.wf(),
            old(self).walk().analysis.instructions.dom().contains(address),
        ensures
            final(self).wf(),
            final(self).visited == old(self).visited,
            (final(self).walk(), r) == follow(
                image_of(code@, options@, *tables),
                old(self).walk(),
                address,
                owner,
            ),
    {
        let at: usize = match self.analysis.instructions.find(address) {
            Some(at) => at,
            None => {
                return None;
            },
        };
        let decoded = &self.analysis.instructions.values[at];
        let isa: Isa = decoded.instruction.isa;
        let operands: Operands = decoded.instruction.operands;
        let end: u32 = decoded.end;
        let opaque: bool = decoded.is_opaque_fallthrough();
        if isa == Isa::Unknown && !opaque {
            self.add_unresolved(owner, address);
            return None;
        }
        if is_return(isa) {
            return None;
        }
        if matches!(isa, Isa::Bra | Isa::Bsr | Isa::Bcc) {
            let displacement: i16 = match operands {
                Operands::Displacement(displacement) => displacement,
                Operands::ConditionDisplacement(_, displacement) => displacement,
                _ => {
                    self.add_unresolved(owner, address);
                    return None;
                },
            };
            let target: u32 = relative_target(address, displacement);
            if isa == Isa::Bsr {
                self.add_call(owner, address, target);
                self.add_flow(owner, address, end, FlowKind::Fallthrough);
                return Some(end);
            }
            self.add_branch(code, owner, address, target);
            if isa == Isa::Bra {
                return None;
            }
            self.add_flow(owner, address, end, FlowKind::Fallthrough);
            return Some(end);
        }
        if isa == Isa::Dbcc {
            match operands {
                Operands::ConditionRegisterDisplacement(_, _, displacement) => {
                    self.add_branch(code, owner, address, relative_target(address, displacement));
                },
                _ => {
                    self.add_unresolved(owner, address);
                },
            }
            self.add_flow(owner, address, end, FlowKind::Fallthrough);
            return Some(end);
        }
        if isa == Isa::Jsr {
            match operands {
                Operands::EffectiveAddress(mode) => {
                    let target = resolve_direct(code, options, mode, address, end);
                    self.take_call(owner, address, target);
                },
                _ => {},
            }
            self.add_flow(owner, address, end, FlowKind::Fallthrough);
            return Some(end);
        }
        if isa == Isa::Jmp {
            match operands {
                Operands::EffectiveAddress(mode) => {
                    let target = self.resolve_jump(code, options, tables, mode, address, end);
                    self.take_jump(code, owner, address, target);
                },
                _ => {},
            }
            return None;
        }
        self.add_flow(owner, address, end, FlowKind::Fallthrough);
        Some(end)
    }

    /// Arrive at `address` for `owner`, and report where to go on.
    ///
    /// Arriving at an instruction another traversal already decoded adds this
    /// owner and keeps walking rather than stopping: an entry owns every
    /// instruction it reaches, not just the first one it shares. The visited set
    /// bounds the re-walk to one pass per pair of instruction and owner, and the
    /// owner cap bounds it again for code every entry falls into.
    fn arrive(
        &mut self,
        code: &[u8],
        options: &FlowOptions,
        tables: &AddressMap<Vec<u32>>,
        address: u32,
        owner: u32,
    ) -> (r: Option<u32>)
        requires
            old(self).wf(),
            options.wf(),
            tables.wf(),
            spec_valid_address(code@, address),
            !old(self).visited@.contains(AddressPair { first: address, second: owner }),
        ensures
            final(self).wf(),
            final(self).visited.items@.len() == old(self).visited.items@.len() + 1,
            (final(self).walk(), r) == arrive(
                image_of(code@, options@, *tables),
                old(self).walk(),
                address,
                owner,
            ),
    {
        self.visited.insert(AddressPair { first: address, second: owner });
        match self.analysis.instructions.find(address) {
            Some(at) => {
                let ghost before = self.analysis.instructions;
                let may_continue: bool = self.analysis.instructions.values[at].add_owner(owner);
                proof {
                    lemma_value_replaced(before, self.analysis.instructions, at as int);
                    assert(before.values@[at as int].wf());
                    assert(filed(self.analysis.instructions));
                }
                if !may_continue {
                    return None;
                }
            },
            None => {
                match decode(code, address, owner) {
                    None => {
                        self.add_unresolved(owner, address);
                        return None;
                    },
                    Some(decoded) => {
                        let ghost before = self.analysis.instructions;
                        let ghost added = decoded;
                        self.analysis.instructions.insert(address, decoded);
                        proof {
                            let after = self.analysis.instructions;
                            lemma_value_inserted(before, after, address, added);
                            assert forall|i: int| 0 <= i < after.values@.len() implies {
                                &&& (#[trigger] after.values@[i]).wf()
                                &&& after.values@[i].address == after.keys@[i]
                            } by {
                                after.lemma_entry(i);
                                if after.keys@[i] != address {
                                    let k = before.lemma_position(after.keys@[i]);
                                    assert(before.values@[k] == after.values@[i]);
                                }
                            }
                        }
                    },
                }
            },
        }
        self.follow(code, options, tables, address, owner)
    }

    /// Walk from `address` for `owner` until the walk stops.
    fn walk_from(
        &mut self,
        code: &[u8],
        options: &FlowOptions,
        tables: &AddressMap<Vec<u32>>,
        address: u32,
        owner: u32,
    )
        requires
            old(self).wf(),
            options.wf(),
            tables.wf(),
        ensures
            final(self).wf(),
            final(self).visited.items@.len() >= old(self).visited.items@.len(),
            final(self).visited.items@.len() == old(self).visited.items@.len() ==> final(self).queue@ == old(self).queue@,
            exists|n: nat|
                #[trigger] run(
                    image_of(code@, options@, *tables),
                    Config {
                        walk: old(self).walk(),
                        cursor: Some(AddressPair { first: address, second: owner }),
                    },
                    n,
                ) == (Config { walk: final(self).walk(), cursor: None }) && items_walked(
                    image_of(code@, options@, *tables),
                    Config {
                        walk: old(self).walk(),
                        cursor: Some(AddressPair { first: address, second: owner }),
                    },
                    n,
                ) == 0,
    {
        let ghost image = image_of(code@, options@, *tables);
        let ghost origin = Config {
            walk: self.walk(),
            cursor: Some(AddressPair { first: address, second: owner }),
        };
        let ghost mut steps: nat = 0;
        let mut address: u32 = address;
        while valid_address(code, address)
            invariant_except_break
                run(image, origin, steps) == (Config {
                    walk: self.walk(),
                    cursor: Some(AddressPair { first: address, second: owner }),
                }),
                items_walked(image, origin, steps) == 0,
            invariant
                self.wf(),
                options.wf(),
                tables.wf(),
                image == image_of(code@, options@, *tables),
                self.visited.items@.len() >= old(self).visited.items@.len(),
                self.visited.items@.len() == old(self).visited.items@.len() ==> self.queue@ == old(self).queue@,
            ensures
                exists|n: nat|
                    #[trigger] run(image, origin, n) == (Config {
                        walk: self.walk(),
                        cursor: None,
                    }) && items_walked(image, origin, n) == 0,
            decreases 0x1_0000_0000_0000_0000 - self.visited.items@.len(),
        {
            let pair = AddressPair { first: address, second: owner };
            let ghost was = Config { walk: self.walk(), cursor: Some(pair) };
            if self.visited.contains(&pair) {
                proof {
                    assert(run(image, origin, steps + 1) == next(image, was));
                    assert(items_walked(image, origin, steps + 1) == 0);
                }
                break;
            }
            let on = self.arrive(code, options, tables, address, owner);
            proof {
                lemma_pair_count(self.visited.items@);
                assert(run(image, origin, steps + 1) == next(image, was));
                assert(items_walked(image, origin, steps + 1) == 0);
                steps = steps + 1;
            }
            match on {
                Some(end) => {
                    address = end;
                },
                None => {
                    break;
                },
            }
        }
        proof {
            if !spec_valid_address(code@, address) {
                assert(run(image, origin, steps + 1) == next(image, run(image, origin, steps)));
            }
        }
    }
}

/// An analysis that has only its entries.
fn empty_analysis(entries: &[u32], options: &FlowOptions) -> (r: ControlFlowAnalysis)
    requires
        options.wf(),
    ensures
        r.wf(),
        r@ == start(options@, entries@).walk.analysis,
{
    let r = ControlFlowAnalysis {
        instructions: AddressMap::new(),
        functions: OrderedSet::from_slice(entries),
        calls: OrderedSet::new(),
        flows: OrderedSet::new(),
        unresolved: OrderedSet::new(),
        library_calls: OrderedSet::new(),
        external: OrderedSet::new(),
        relocations: match &options.relocations {
            Some(index) => Some(index.duplicate()),
            None => None,
        },
        rebase: options.rebase,
    };
    assert(r@.instructions =~= Map::<u32, DecodedView>::empty());
    r
}

/// Traverse `code` once from `entries`, with the data tables recovered so far.
///
/// The traversal looks at the signal once every [`ITEMS_PER_CHECKPOINT`] queue
/// items, so that a signal that is up stops every traversal that long, and returns
/// [`Cancelled`] rather than a partial analysis: a half-traversed graph would
/// report missing calls and spurious unresolved exits as if they were findings.
pub fn analyze_entries_once<C: Cancel>(
    code: &[u8],
    entries: &[u32],
    options: &FlowOptions,
    tables: &AddressMap<Vec<u32>>,
    cancel: &C,
) -> (r: Result<ControlFlowAnalysis, Cancelled>)
    requires
        options.wf(),
        tables.wf(),
    ensures
        match r {
            Ok(analysis) => {
                &&& analysis.wf()
                &&& settles(image_of(code@, options@, *tables), start(options@, entries@))
                &&& analysis@ == traversed(image_of(code@, options@, *tables), entries@)
                &&& cancel.is_up() ==> forall|n: nat|
                    #[trigger] items_walked(
                        image_of(code@, options@, *tables),
                        start(options@, entries@),
                        n,
                    ) < ITEMS_PER_CHECKPOINT
            },
            Err(_) => cancel.may_fire(),
        },
{
    let ghost image = image_of(code@, options@, *tables);
    let ghost origin = start(options@, entries@);
    let mut queue: VecDeque<AddressPair> = VecDeque::new();
    let mut i: usize = 0;
    while i < entries.len()
        invariant
            i <= entries@.len(),
            queue@ == entries@.take(i as int).map_values(
                |entry: u32| AddressPair { first: entry, second: entry },
            ),
        decreases entries@.len() - i,
    {
        queue.push_back(AddressPair { first: entries[i], second: entries[i] });
        i += 1;
        assert(queue@ =~= entries@.take(i as int).map_values(
            |entry: u32| AddressPair { first: entry, second: entry },
        ));
    }
    assert(entries@.take(i as int) =~= entries@);
    let mut traversal = Traversal {
        analysis: empty_analysis(entries, options),
        queue,
        visited: OrderedSet::new(),
    };
    let ghost mut steps: nat = 0;
    let mut items: usize = 0;
    assert(run(image, origin, 0) == (Config { walk: traversal.walk(), cursor: None }));
    while traversal.queue.len() > 0
        invariant
            traversal.wf(),
            options.wf(),
            tables.wf(),
            image == image_of(code@, options@, *tables),
            items < ITEMS_PER_CHECKPOINT,
            run(image, origin, steps) == (Config { walk: traversal.walk(), cursor: None }),
            cancel.is_up() ==> items == items_walked(image, origin, steps),
        decreases
                0x1_0000_0000_0000_0000 - traversal.visited.items@.len(),
                traversal.queue@.len(),
    {
        let ghost before = traversal.walk();
        let pair = traversal.queue.pop_front().unwrap();
        items += 1;
        if items == ITEMS_PER_CHECKPOINT {
            items = 0;
            if cancel.is_cancelled() {
                return Err(Cancelled);
            }
        }
        proof {
            lemma_pair_count(traversal.visited.items@);
            assert(run(image, origin, steps + 1) == next(
                image,
                Config { walk: before, cursor: None },
            ));
            assert(run(image, origin, steps + 1) == (Config {
                walk: traversal.walk(),
                cursor: Some(pair),
            }));
        }
        let ghost at = Config { walk: traversal.walk(), cursor: Some(pair) };
        traversal.walk_from(code, options, tables, pair.first, pair.second);
        proof {
            lemma_pair_count(traversal.visited.items@);
            let on = choose|n: nat|
                #[trigger] run(image, at, n) == (Config { walk: traversal.walk(), cursor: None })
                    && items_walked(image, at, n) == 0;
            lemma_run_adds(image, origin, steps + 1, on);
            lemma_items_add(image, origin, steps + 1, on);
            steps = steps + 1 + on;
        }
    }
    proof {
        lemma_settled(image, origin, steps);
        if cancel.is_up() {
            assert forall|n: nat| #[trigger] items_walked(image, origin, n)
                < ITEMS_PER_CHECKPOINT by {
                lemma_items_bounded(image, origin, steps, n);
            }
        }
    }
    Ok(traversal.analysis)
}

} // verus!
