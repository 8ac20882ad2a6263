use std::ops::Range;

use amiga_disasm::Bus;
use amiga_disasm::{
    changed_regions, run, run_with_host, touched_regions, Access, AccessSource, CpuContext, Device,
    DeviceAccess, DeviceBus, Fault, Host, HostAction, HostChain, HostMemory, Memory, MemoryError,
    MemoryWrite, NoHost, Register, RegisterDelta, RegisterFile, RunOptions, StopReason,
    TouchedRegion, WatchAccess, Watchpoint,
};
use amiga_disasm::bus::DeviceState;
use amiga_disasm::device::DmaMemory;
use amiga_disasm::host::Point;
use amiga_disasm::memory::{MemoryView, DEFAULT_RETAINED_WRITES};

/// A return marker outside the test RAM, so a fetch there would fault (the
/// run stops on it before any such fetch).
const MARKER: u32 = 0x00f0_0000;
const LOAD: u32 = 0x1000;

/// Build a sandbox with a single 0x3000-byte RAM region at address 0, `code`
/// loaded at [`LOAD`], and options whose stack sits near the top of RAM.
fn sandbox(code: &[u8]) -> (Memory, RunOptions) {
    let mut memory = Memory::new();
    memory
        .map(0, 0x3000)
        .unwrap_or_else(|error| panic!("{error:?}"));
    memory
        .load(LOAD, code)
        .unwrap_or_else(|error| panic!("{error:?}"));
    let options = RunOptions::new(0x2ffc, MARKER);
    (memory, options)
}

#[test]
fn guest_traps_are_opt_in_and_other_vectors_remain_refused() {
    for (opcode, enabled, vector) in [(0x4e40_u16, false, 32), (0x4afc, true, 4)] {
        let (mut memory, mut options) = sandbox(&opcode.to_be_bytes());
        memory
            .write_long(u32::from(vector) * 4, LOAD + 0x40)
            .unwrap();
        memory.load(LOAD + 0x40, &[0x4e, 0x73]).unwrap();
        options.guest_traps = enabled;
        let result = run(&mut memory, LOAD, &options);
        assert_eq!(result.stop, StopReason::Trap { vector, site: LOAD });
        assert_eq!(result.steps_executed, 1);
    }
}

#[test]
fn guest_trap_watches_observe_the_vector_fetch_and_no_speculative_handler_read() {
    for watch_address in [32 * 4, LOAD + 0x40] {
        let (mut memory, mut options) = sandbox(&[0x4e, 0x40]);
        memory.write_long(32 * 4, LOAD + 0x40).unwrap();
        memory.load(LOAD + 0x40, &[0x4e, 0x73]).unwrap();
        options.guest_traps = true;
        options.max_steps = 1;
        options.watchpoints =
            vec![Watchpoint::new(watch_address, 2, WatchAccess::Read).unwrap()];
        options.stop_on_watch = true;
        let result = run(&mut memory, LOAD, &options);
        if watch_address == 32 * 4 {
            assert!(matches!(result.stop, StopReason::Watch { site: LOAD, .. }));
            assert_eq!(result.steps[0].watch_events[0].address, 32 * 4);
            assert_eq!(result.steps[0].watch_events[0].after, LOAD + 0x40);
        } else {
            assert_eq!(result.stop, StopReason::StepLimit);
            assert!(result.steps[0].watch_events.is_empty());
        }
    }
}

#[test]
fn guest_trap_frames_restore_user_status_and_both_stacks() {
    for retained_steps in [Some(0), Some(10)] {
        let (mut memory, mut options) = sandbox(&[0x4e, 0x4f]); // TRAP #15
        memory.write_long(47 * 4, LOAD + 0x40).unwrap();
        memory.load(LOAD + 0x40, &[0x4e, 0x73]).unwrap(); // RTE
        options.guest_traps = true;
        options.retained_steps = retained_steps;
        options.max_steps = 2;
        let initial = RegisterFile {
            d: [0; 8],
            a: [0; 7],
            usp: 0x2800,
            ssp: 0x2ff8,
            pc: LOAD,
            sr: 0x0515,
        };
        options.resume = Some(initial);
        let result = run(&mut memory, LOAD, &options);
        assert_eq!(result.stop, StopReason::StepLimit);
        assert_eq!(
            result.registers,
            RegisterFile {
                pc: LOAD + 2,
                ..initial
            }
        );
        assert_eq!(memory.slice(0x2ff2, 2).unwrap(), &[0x05, 0x15]);
        assert_eq!(memory.peek_long(0x2ff4), Some(LOAD + 2));
    }
}

#[test]
fn guest_trap_frame_writes_honor_watchpoints_even_without_retained_events() {
    let (mut memory, mut options) = sandbox(&[0x4e, 0x40]);
    memory.write_long(32 * 4, LOAD + 0x40).unwrap();
    memory.load(LOAD + 0x40, &[0x4e, 0x73]).unwrap();
    options.guest_traps = true;
    options.watchpoints = vec![Watchpoint::new(0x2ff2, 6, WatchAccess::Write).unwrap()];
    options.stop_on_watch = true;
    options.retained_watch_events = 0;
    let result = run(&mut memory, LOAD, &options);
    assert!(matches!(result.stop, StopReason::Watch { site: LOAD, .. }));
    assert_eq!(result.steps_executed, 1);
    assert_eq!(result.registers.pc, LOAD + 0x40);
}

#[test]
fn guest_trap_refuses_missing_vector_table_and_invalid_frames() {
    for stack in [0, 4, 0x2003, 0x4000] {
        let (mut memory, mut options) = sandbox(&[0x4e, 0x40]);
        memory.write_long(32 * 4, LOAD + 0x40).unwrap();
        memory.load(LOAD + 0x40, &[0x4e, 0x73]).unwrap();
        options.guest_traps = true;
        options.stack_pointer = stack;
        let result = run(&mut memory, LOAD, &options);
        assert_eq!(
            result.stop,
            StopReason::Trap {
                vector: 32,
                site: LOAD
            }
        );
        assert!(result.steps[0].writes.is_empty());
    }
    let mut memory = Memory::new();
    memory.map(LOAD, 0x100).unwrap();
    memory.load(LOAD, &[0x4e, 0x40]).unwrap();
    let mut options = RunOptions::new(LOAD + 0x100, MARKER);
    options.guest_traps = true;
    assert_eq!(
        run(&mut memory, LOAD, &options).stop,
        StopReason::Trap {
            vector: 32,
            site: LOAD
        }
    );
}

#[test]
fn runs_arithmetic_and_returns() {
    // MOVEQ #5,D0 ; ADDQ.L #3,D0 ; RTS
    let code = [0x70, 0x05, 0x56, 0x80, 0x4e, 0x75];
    let (mut memory, options) = sandbox(&code);
    let execution = run(&mut memory, LOAD, &options);
    assert_eq!(execution.stop, StopReason::Returned);
    assert_eq!(execution.registers.d[0], 8);
    // Three steps: MOVEQ, ADDQ, RTS.
    assert_eq!(execution.steps_executed, 3);
}

/// A run stopped by its budget continues from exactly where it left off,
/// and the stack it left is the stack it resumes on.
///
/// The second half is what the option exists for: the first run pushed the
/// return marker under the routine's own frame, and a resume that pushed a
/// second marker would let the inner `RTS` end the run one level early —
/// which reads exactly like a routine that returned.
#[test]
fn a_resumed_run_continues_the_machine_the_previous_one_left() {
    // MOVEQ #5,D0 ; JSR (helper) ; ADDQ.L #1,D0 ; RTS
    // helper: ADDQ.L #3,D0 ; RTS
    let code = [
        0x70, 0x05, // MOVEQ #5,D0
        0x4e, 0xb9, 0x00, 0x00, 0x10, 0x0c, // JSR $100c
        0x52, 0x80, // ADDQ.L #1,D0
        0x4e, 0x75, // RTS
        0x56, 0x80, // helper: ADDQ.L #3,D0
        0x4e, 0x75, // RTS
    ];
    let (mut memory, mut options) = sandbox(&code);
    // Stop inside the helper, one instruction after the JSR.
    options.max_steps = 2;
    let first = run(&mut memory, LOAD, &options);
    assert_eq!(first.stop, StopReason::StepLimit);
    assert_eq!(first.registers.pc, LOAD + 12);
    assert_eq!(first.registers.d[0], 5);

    let mut resumed = RunOptions::new(0, MARKER);
    resumed.resume = Some(first.registers);
    let second = run(&mut memory, first.registers.pc, &resumed);
    // The helper's RTS returned into the caller, whose own RTS then popped
    // the marker the *first* run pushed: 5 + 3 + 1.
    assert_eq!(second.stop, StopReason::Returned);
    assert_eq!(second.registers.d[0], 9);
}

#[test]
fn records_a_memory_write() {
    // MOVE.W D0,(A0) ; RTS, with D0 and A0 seeded.
    let code = [0x30, 0x80, 0x4e, 0x75];
    let (mut memory, mut options) = sandbox(&code);
    options.data[0] = 0x1234;
    options.address[0] = 0x2000;
    let execution = run(&mut memory, LOAD, &options);
    assert_eq!(execution.stop, StopReason::Returned);
    assert!(memory.writes().contains(&MemoryWrite {
        address: 0x2000,
        size: 2,
        value: 0x1234,
    }));
    assert_eq!(memory.slice(0x2000, 2), Some(&[0x12, 0x34][..]));
    // The step trace attributes the write to the MOVE instruction.
    let move_step = &execution.steps[0];
    assert_eq!(move_step.writes.len(), 1);
    assert_eq!(move_step.address, LOAD);
}

#[test]
fn watchpoint_records_old_and_new_bytes_and_stops() {
    // MOVE.W #$1234,(A0) ; RTS
    let code = [0x30, 0xbc, 0x12, 0x34, 0x4e, 0x75];
    let (mut memory, mut options) = sandbox(&code);
    options.address[0] = 0x1800;
    options.watchpoints = vec![
        Watchpoint::new(0x1800, 2, WatchAccess::Write)
            .unwrap_or_else(|| panic!("valid watchpoint")),
    ];
    options.stop_on_watch = true;
    let execution = run(&mut memory, LOAD, &options);
    assert_eq!(execution.steps_executed, 1);
    assert_eq!(execution.steps[0].watch_events.len(), 1);
    assert_eq!(execution.steps[0].watch_events[0].before, 0);
    assert_eq!(execution.steps[0].watch_events[0].after, 0x1234);
    assert!(matches!(execution.stop, StopReason::Watch { .. }));
}

/// `MOVEM.L D0-D7,(A0) ; RTS` — one instruction, eight longword writes.
/// A blitter turns one instruction into tens of thousands of accesses; this
/// is the same shape at a size a test can assert exactly.
const BURST: [u8; 6] = [0x48, 0xd0, 0x00, 0xff, 0x4e, 0x75];
const BURST_TARGET: u32 = 0x2000;

fn burst_sandbox() -> (Memory, RunOptions) {
    let (memory, mut options) = sandbox(&BURST);
    options.address[0] = BURST_TARGET;
    options.watchpoints = vec![
        Watchpoint::new(BURST_TARGET, 32, WatchAccess::Write)
            .unwrap_or_else(|| panic!("valid watchpoint")),
    ];
    (memory, options)
}

#[test]
fn a_burst_past_the_retention_cap_still_stops_and_reports_its_first_access() {
    // The case that made the latch necessary. `stop_on_watch` used to be
    // decided by re-reading the stored window after the instruction, so an
    // instruction whose matches all overran the cap left an empty window and
    // the run did not stop at all — losing behaviour, not just reporting.
    let (mut memory, mut options) = burst_sandbox();
    options.retained_watch_events = 1;
    options.stop_on_watch = true;
    let execution = run(&mut memory, LOAD, &options);

    let StopReason::Watch { event, site } = execution.stop else {
        panic!("expected a watch stop, got {:?}", execution.stop);
    };
    assert_eq!(site, LOAD);
    assert_eq!(
        event.address, BURST_TARGET,
        "the reported event must be the first match, not whichever one survived retention"
    );
    assert_eq!(event.access, Access::Write);
    assert_eq!(execution.steps_executed, 1);
    assert_eq!(execution.watch_events_total, 8);
    assert!(execution.watch_events_truncated);
    assert_eq!(execution.steps[0].watch_events.len(), 1);
}

#[test]
fn a_truncated_burst_says_so_and_the_run_continues() {
    let (mut memory, mut options) = burst_sandbox();
    options.retained_watch_events = 3;
    let execution = run(&mut memory, LOAD, &options);

    assert_eq!(execution.stop, StopReason::Returned);
    assert_eq!(execution.watch_events_total, 8);
    assert!(execution.watch_events_truncated);
    assert_eq!(execution.steps[0].watch_events.len(), 3);
    // Retained events are the first three, in the order they happened.
    let addresses: Vec<u32> = execution.steps[0]
        .watch_events
        .iter()
        .map(|event| event.address)
        .collect();
    assert_eq!(addresses, vec![0x2000, 0x2004, 0x2008]);
}

#[test]
fn an_untruncated_run_reports_every_match_and_no_truncation() {
    let (mut memory, options) = burst_sandbox();
    let execution = run(&mut memory, LOAD, &options);

    assert_eq!(execution.stop, StopReason::Returned);
    assert_eq!(execution.watch_events_total, 8);
    assert!(!execution.watch_events_truncated);
    assert_eq!(execution.steps[0].watch_events.len(), 8);
}

#[test]
fn accesses_that_match_nothing_are_never_stored() {
    // Filtering at record time is what bounds the log; storing everything
    // and filtering afterwards would mean the unbounded set already existed.
    let (mut memory, mut options) = burst_sandbox();
    options.watchpoints = vec![
        Watchpoint::new(0x2800, 2, WatchAccess::Write)
            .unwrap_or_else(|| panic!("valid watchpoint")),
    ];
    let execution = run(&mut memory, LOAD, &options);

    assert_eq!(execution.stop, StopReason::Returned);
    assert_eq!(execution.watch_events_total, 0);
    assert!(!execution.watch_events_truncated);
    assert_eq!(memory.access_count(), 0);
}

/// A host that writes a watched word from its `tick` hook, before every
/// instruction.
struct Meddler;

impl Host for Meddler {
    fn passive(&self) -> bool {
        false
    }
    fn claimed(&self, _pc: u32) -> bool {
        false
    }
    fn ticks(&self, _before: Point, _next: &Self, _after: Point) -> bool {
        true
    }
    fn answers_call(
        &self,
        _pc: u32,
        _before: Point,
        _action: HostAction,
        _next: &Self,
        _after: Point,
    ) -> bool {
        true
    }
    fn answers_trap(
        &self,
        _vector: u8,
        _site: u32,
        _before: Point,
        _action: Option<HostAction>,
        _next: &Self,
        _after: Point,
    ) -> bool {
        true
    }
    fn tick<M: HostMemory>(&mut self, _cpu: &mut CpuContext, memory: &mut M) {
        let _ = memory.write_word(0x2400, 0x1234);
    }
    fn claims(&self, _pc: u32) -> bool {
        false
    }
    fn on_call<M: HostMemory>(
        &mut self,
        _pc: u32,
        _cpu: &mut CpuContext,
        _memory: &mut M,
    ) -> HostAction {
        HostAction::Continue
    }
    fn on_trap<M: HostMemory>(
        &mut self,
        _vector: u8,
        _site: u32,
        _cpu: &mut CpuContext,
        _memory: &mut M,
    ) -> Option<HostAction> {
        None
    }
}

#[test]
fn a_host_hooks_access_is_counted_but_cannot_stop_the_run() {
    // The latch is cleared after the hooks and before the instruction, so it
    // means "since this instruction started" — which is what keeps the
    // documented hook contract true now that the stop reads the latch.
    let code = [0x70, 0x2a, 0x4e, 0x75]; // MOVEQ #42,D0 ; RTS
    let (mut memory, mut options) = sandbox(&code);
    options.watchpoints = vec![
        Watchpoint::new(0x2400, 2, WatchAccess::Write)
            .unwrap_or_else(|| panic!("valid watchpoint")),
    ];
    options.stop_on_watch = true;
    let execution = run_with_host(&mut memory, LOAD, &mut Meddler, &options);

    assert_eq!(execution.stop, StopReason::Returned);
    assert!(execution.watch_events_total >= 2, "one per instruction");
    for step in &execution.steps {
        assert!(
            step.watch_events.is_empty(),
            "a hook's access belongs to no step"
        );
    }
}

#[test]
fn traps_on_an_unmapped_write() {
    // MOVE.W D0,(A0) ; RTS, with A0 pointing outside the mapped RAM.
    let code = [0x30, 0x80, 0x4e, 0x75];
    let (mut memory, mut options) = sandbox(&code);
    options.address[0] = 0x0010_0000;
    let execution = run(&mut memory, LOAD, &options);
    assert_eq!(
        execution.stop,
        StopReason::Fault {
            fault: Fault {
                address: 0x0010_0000,
                access: Access::Write,
                size: 2,
            },
            site: LOAD,
        }
    );
}

#[test]
fn faults_in_the_gap_between_two_regions() {
    // Two non-adjacent regions leave a gap that must fault, not read as zero.
    let mut memory = Memory::new();
    memory
        .map(0, 0x2000)
        .unwrap_or_else(|error| panic!("{error:?}"));
    memory
        .map(0x4000, 0x1000)
        .unwrap_or_else(|error| panic!("{error:?}"));
    // MOVE.W (A0),D0 ; RTS, with A0 in the unmapped gap.
    let code = [0x30, 0x10, 0x4e, 0x75];
    memory
        .load(0x100, &code)
        .unwrap_or_else(|error| panic!("{error:?}"));
    let mut options = RunOptions::new(0x1ffc, MARKER);
    options.address[0] = 0x3000;
    let execution = run(&mut memory, 0x100, &options);
    assert!(matches!(
        execution.stop,
        StopReason::Fault {
            fault: Fault {
                address: 0x3000,
                access: Access::Read,
                ..
            },
            ..
        }
    ));
}

#[test]
fn rejects_overlapping_regions() {
    let mut memory = Memory::new();
    memory
        .map(0, 0x2000)
        .unwrap_or_else(|error| panic!("{error:?}"));
    assert!(matches!(
        memory.map(0x1000, 0x1000),
        Err(MemoryError::Overlap { .. })
    ));
}

#[test]
fn rejects_empty_and_wrapping_regions() {
    let mut memory = Memory::new();
    assert_eq!(
        memory.map(0x1000, 0),
        Err(MemoryError::Empty { origin: 0x1000 })
    );
    assert!(matches!(
        memory.map(0xffff_fff0, 0x20),
        Err(MemoryError::AddressOverflow { .. })
    ));
}

#[test]
fn recognises_a_return_on_the_last_allowed_step() {
    // MOVEQ #5,D0 ; RTS returns in exactly 2 instructions; with max_steps=2
    // the RTS is the last step, and the run must still report Returned.
    let code = [0x70, 0x05, 0x4e, 0x75];
    let (mut memory, mut options) = sandbox(&code);
    options.max_steps = 2;
    let execution = run(&mut memory, LOAD, &options);
    assert_eq!(execution.stop, StopReason::Returned);
    assert_eq!(execution.steps_executed, 2);
}

#[test]
fn stops_at_the_step_limit() {
    // BRA.S * (an infinite self-loop).
    let code = [0x60, 0xfe];
    let (mut memory, mut options) = sandbox(&code);
    options.max_steps = 16;
    let execution = run(&mut memory, LOAD, &options);
    assert_eq!(execution.stop, StopReason::StepLimit);
    assert_eq!(execution.steps_executed, 16);
}

#[test]
fn reports_register_deltas() {
    // MOVEQ #5,D0 ; RTS
    let code = [0x70, 0x05, 0x4e, 0x75];
    let (mut memory, options) = sandbox(&code);
    let execution = run(&mut memory, LOAD, &options);
    let moveq = &execution.steps[0];
    assert!(moveq.register_deltas.contains(&RegisterDelta {
        register: Register::Data(0),
        before: 0,
        after: 5,
    }));
}

#[test]
fn coalesces_touched_memory() {
    // MOVE.W D0,(A0) ; MOVE.W D1,(A1) ; MOVE.B D2,(A2) ; RTS — two adjacent
    // words merge into one region; the lone byte stays separate.
    let code = [
        0x30, 0x80, // MOVE.W D0,(A0)
        0x32, 0x81, // MOVE.W D1,(A1)
        0x14, 0x82, // MOVE.B D2,(A2)
        0x4e, 0x75, // RTS
    ];
    let (mut memory, mut options) = sandbox(&code);
    options.data[0] = 0x1122;
    options.data[1] = 0x3344;
    options.data[2] = 0x55;
    options.address[0] = 0x2000;
    options.address[1] = 0x2002;
    options.address[2] = 0x2100;
    let execution = run(&mut memory, LOAD, &options);
    assert_eq!(execution.stop, StopReason::Returned);
    let regions = touched_regions(&memory);
    assert_eq!(
        regions,
        vec![
            TouchedRegion {
                address: 0x2000,
                bytes: vec![0x11, 0x22, 0x33, 0x44],
            },
            TouchedRegion {
                address: 0x2100,
                bytes: vec![0x55],
            },
        ]
    );
}

#[test]
fn an_access_across_two_touching_mappings_is_one_access() {
    // A selected CODE hunk and the BSS hunk mapped immediately after it were
    // two bus regions, so a legal MOVE.L across their shared boundary
    // faulted even though every byte was mapped — which forced
    // instruction-width patches into code that clears a buffer spanning the
    // seam.
    let mut memory = Memory::new();
    memory
        .map(0x2000, 0x100)
        .unwrap_or_else(|error| panic!("{error:?}"));
    memory
        .map(0x2100, 0x100)
        .unwrap_or_else(|error| panic!("{error:?}"));

    // Two bytes either side of 0x2100.
    assert_eq!(memory.set_long(0x20fe, 0x1122_3344), Some(()));
    assert_eq!(memory.get_long(0x20fe), Some(0x1122_3344));
    assert_eq!(
        memory.slice(0x20fe, 4),
        Some(&[0x11, 0x22, 0x33, 0x44][..]),
        "a borrow across the seam still saw two spans"
    );
    assert!(memory.load(0x20ff, &[1, 2, 3]).is_ok());
}

#[test]
fn a_mapping_between_two_others_joins_all_three() {
    // A merge that only looked one way would leave this half done, and the
    // access across the seam it did not close would still fault.
    let mut memory = Memory::new();
    memory
        .map(0x3000, 0x10)
        .unwrap_or_else(|error| panic!("{error:?}"));
    memory
        .map(0x3020, 0x10)
        .unwrap_or_else(|error| panic!("{error:?}"));
    memory
        .load(0x3020, &[0xaa; 0x10])
        .unwrap_or_else(|error| panic!("{error:?}"));
    // The gap is still a gap until something fills it exactly.
    assert_eq!(memory.slice(0x300e, 4), None);
    memory
        .map(0x3010, 0x10)
        .unwrap_or_else(|error| panic!("{error:?}"));

    assert_eq!(memory.slice(0x3000, 0x30).map(<[u8]>::len), Some(0x30));
    // The region that was pushed above kept its bytes through the merge.
    assert_eq!(memory.slice(0x3020, 1), Some(&[0xaa][..]));
}

#[test]
fn a_gap_of_one_byte_still_faults() {
    // Only an exact meeting joins two mappings. The derived stack sits above
    // the hunk behind a deliberate gap, and a runaway stack faulting there
    // is what this rule must not weaken.
    let mut memory = Memory::new();
    memory
        .map(0x4000, 0x10)
        .unwrap_or_else(|error| panic!("{error:?}"));
    memory
        .map(0x4011, 0x10)
        .unwrap_or_else(|error| panic!("{error:?}"));
    assert_eq!(memory.get_word(0x400f), None);
    assert_eq!(memory.get_byte(0x4010), None);
    assert_eq!(memory.get_byte(0x4011), Some(0));
}

#[test]
fn changed_regions_omit_restored_bytes_and_excluded_stack() {
    let mut before = Memory::new();
    before
        .map(0x1000, 0x100)
        .unwrap_or_else(|error| panic!("{error:?}"));
    before
        .map(0x2000, 0x100)
        .unwrap_or_else(|error| panic!("{error:?}"));
    before
        .load(0x1000, &[0xaa, 0xbb])
        .unwrap_or_else(|error| panic!("{error:?}"));
    let mut after = before.clone();
    let _ = after.set_byte(0x1000, 0xaa); // touched, but restored/original
    let _ = after.set_byte(0x1001, 0xcc); // meaningful output
    let _ = after.set_long(0x2000, 0x1234_5678); // simulated stack

    assert_eq!(
        changed_regions(&before, &after, &(0x2000..0x2100)),
        vec![TouchedRegion {
            address: 0x1001,
            bytes: vec![0xcc],
        }]
    );
}

#[test]
fn a_dma_write_changes_memory_without_entering_the_write_log() {
    // The whole point of the split: one MOVE.W that starts a blit is one
    // thing the code did, and the words the chipset writes in response are
    // changes to memory that must not bury it in the log.
    let mut before = Memory::new();
    before
        .map(0x1000, 0x100)
        .unwrap_or_else(|error| panic!("{error:?}"));
    let mut after = before.clone();
    assert_eq!(after.write_dma_word(0x1010, 0xbeef), Some(()));

    assert_eq!(
        changed_regions(&before, &after, &(0..0)),
        vec![TouchedRegion {
            address: 0x1010,
            bytes: vec![0xbe, 0xef],
        }]
    );
    assert!(
        after.writes().is_empty(),
        "a DMA write is not something the executing code did"
    );
}

#[test]
fn a_dma_write_outside_the_map_changes_nothing_and_raises_no_fault() {
    let mut memory = Memory::new();
    memory
        .map(0x1000, 0x100)
        .unwrap_or_else(|error| panic!("{error:?}"));
    // Straddling the end of the region is as unmapped as missing it entirely.
    assert_eq!(memory.write_dma_word(0x10ff, 0xbeef), None);
    assert_eq!(memory.write_dma_word(0x2000, 0xbeef), None);
    assert_eq!(
        memory.last_fault(),
        None,
        "DMA off the map is the device's refusal, not a CPU bus error"
    );
    assert!(touched_regions(&memory).is_empty());
}

#[test]
fn a_write_spanning_a_merged_region_boundary_is_one_changed_region() {
    // The bytes either side of the seam live in different regions until the
    // merge, so a bitmap that did not merge with them would report the write
    // as two spans — or lose half of it.
    let mut memory = Memory::new();
    memory
        .map(0x2000, 0x40)
        .unwrap_or_else(|error| panic!("{error:?}"));
    memory
        .map(0x2040, 0x40)
        .unwrap_or_else(|error| panic!("{error:?}"));
    assert_eq!(memory.set_long(0x203e, 0x1122_3344), Some(()));

    assert_eq!(
        touched_regions(&memory),
        vec![TouchedRegion {
            address: 0x203e,
            bytes: vec![0x11, 0x22, 0x33, 0x44],
        }]
    );
}

#[test]
fn a_merge_keeps_what_the_neighbours_had_already_changed() {
    let mut memory = Memory::new();
    memory
        .map(0x3000, 0x10)
        .unwrap_or_else(|error| panic!("{error:?}"));
    memory
        .map(0x3020, 0x10)
        .unwrap_or_else(|error| panic!("{error:?}"));
    assert_eq!(memory.set_byte(0x3001, 0x11), Some(()));
    assert_eq!(memory.set_byte(0x302f, 0x22), Some(()));
    // Joining all three spans must not lose either mark, and must not shift
    // the one that came from the region mapped above the new bytes.
    memory
        .map(0x3010, 0x10)
        .unwrap_or_else(|error| panic!("{error:?}"));

    assert_eq!(
        touched_regions(&memory),
        vec![
            TouchedRegion {
                address: 0x3001,
                bytes: vec![0x11],
            },
            TouchedRegion {
                address: 0x302f,
                bytes: vec![0x22],
            },
        ]
    );
}

#[test]
fn the_diff_is_bounded_by_the_map_not_by_the_number_of_writes() {
    // Replaying the write log made this quadratic in a way a blit reaches
    // easily: the same word rewritten a million times is one changed byte
    // pair, and the diff must cost the map, not the million.
    let mut before = Memory::new();
    before
        .map(0x1000, 0x100)
        .unwrap_or_else(|error| panic!("{error:?}"));
    let mut after = before.clone();
    for index in 0..1_000_000_u32 {
        assert_eq!(after.set_word(0x1000, index as u16), Some(()));
    }

    // The log is a bounded prefix and the counter is the true answer, so a
    // run's peak memory is bounded by the map rather than by how long it
    // ran. A million writes cost a million log entries before this.
    assert_eq!(after.writes_total(), 1_000_000);
    assert_eq!(after.writes().len(), DEFAULT_RETAINED_WRITES);
    assert!(after.writes_truncated());
    assert_eq!(
        changed_regions(&before, &after, &(0..0)),
        vec![TouchedRegion {
            address: 0x1000,
            bytes: vec![0x42, 0x3f],
        }]
    );
}

/// Once the write log is full a trace row's window is empty, and an empty
/// window must not read as "this instruction wrote nothing".
///
/// Three `MOVEM.L D0-D7,(A1)` write eight longwords each against a retention
/// cap of twelve, so the rows are the three cases in order: complete,
/// partial, empty. The partial one is the reason the flag is not simply
/// "the log was already full when this row started".
#[test]
fn a_trace_row_says_when_the_write_log_had_no_room_left() {
    // MOVEM.L D0-D7,(A1) ×3 ; RTS
    let movem = [0x48, 0xd1, 0x00, 0xff];
    let mut code = Vec::new();
    for _ in 0..3 {
        code.extend_from_slice(&movem);
    }
    code.extend_from_slice(&[0x4e, 0x75]);
    let (mut memory, mut options) = sandbox(&code);
    memory.set_retained_writes(12);
    options.address[1] = 0x2000;
    let execution = run(&mut memory, LOAD, &options);
    assert_eq!(execution.stop, StopReason::Returned);

    let rows: Vec<(usize, bool)> = execution.steps[..3]
        .iter()
        .map(|step| (step.writes.len(), step.writes_truncated))
        .collect();
    assert_eq!(
        rows,
        vec![(8, false), (4, true), (0, true)],
        "a full write log left trace rows claiming their instruction wrote nothing"
    );
    // The log itself is capped and still counts what it dropped, which is
    // what the per-row flag is derived from.
    assert_eq!(memory.writes().len(), 12);
    assert_eq!(memory.writes_total(), 24);
}

#[test]
fn a_capped_write_log_keeps_the_first_writes_and_counts_the_rest() {
    let mut memory = Memory::new();
    memory
        .map(0x1000, 0x100)
        .unwrap_or_else(|error| panic!("{error:?}"));
    memory.set_retained_writes(4);
    for index in 0..10_u32 {
        assert_eq!(memory.set_word(0x1000 + index * 2, index as u16), Some(()));
    }
    // The prefix, not a sample: a reader of the first N writes is reading
    // what the run did first, which is what makes them worth reporting.
    assert_eq!(
        memory
            .writes()
            .iter()
            .map(|write| write.address)
            .collect::<Vec<_>>(),
        vec![0x1000, 0x1002, 0x1004, 0x1006]
    );
    assert_eq!(memory.writes_total(), 10);
    assert!(memory.writes_truncated());

    // An uncapped-in-practice log does not claim truncation.
    memory.set_retained_writes(usize::MAX);
    let mut short = Memory::new();
    short
        .map(0x1000, 0x100)
        .unwrap_or_else(|error| panic!("{error:?}"));
    assert_eq!(short.set_word(0x1000, 1), Some(()));
    assert!(!short.writes_truncated());
    assert_eq!(short.writes_total(), 1);
}

#[test]
fn a_seeded_image_is_the_starting_state_not_a_change() {
    let mut memory = Memory::new();
    memory
        .map(0x1000, 0x100)
        .unwrap_or_else(|error| panic!("{error:?}"));
    memory
        .load(0x1000, &[0xaa; 0x10])
        .unwrap_or_else(|error| panic!("{error:?}"));
    memory
        .write_long(0x1080, 0x1234_5678)
        .unwrap_or_else(|error| panic!("{error:?}"));

    assert!(touched_regions(&memory).is_empty());
}

fn zeroed() -> RegisterFile {
    RegisterFile {
        d: [0; 8],
        a: [0; 7],
        usp: 0,
        ssp: 0,
        pc: 0,
        sr: 0x2700,
    }
}

/// A host that records which hooks it was asked about, claims `claimed`, and
/// services traps only if `services` is set.
#[derive(Default)]
struct Recorder {
    name: &'static str,
    claimed: Option<u32>,
    services: bool,
    ticks: usize,
    calls: Vec<u32>,
    traps: usize,
}

impl Host for Recorder {
    fn passive(&self) -> bool {
        false
    }
    fn claimed(&self, pc: u32) -> bool {
        self.claimed == Some(pc)
    }
    fn ticks(&self, _before: Point, _next: &Self, _after: Point) -> bool {
        true
    }
    fn answers_call(
        &self,
        _pc: u32,
        _before: Point,
        _action: HostAction,
        _next: &Self,
        _after: Point,
    ) -> bool {
        true
    }
    fn answers_trap(
        &self,
        _vector: u8,
        _site: u32,
        _before: Point,
        _action: Option<HostAction>,
        _next: &Self,
        _after: Point,
    ) -> bool {
        true
    }
    fn tick<M: HostMemory>(&mut self, _cpu: &mut CpuContext, _memory: &mut M) {
        self.ticks += 1;
    }
    fn claims(&self, pc: u32) -> bool {
        self.claimed == Some(pc)
    }
    fn on_call<M: HostMemory>(
        &mut self,
        pc: u32,
        _cpu: &mut CpuContext,
        _memory: &mut M,
    ) -> HostAction {
        self.calls.push(pc);
        HostAction::Continue
    }
    fn on_trap<M: HostMemory>(
        &mut self,
        _vector: u8,
        _site: u32,
        _cpu: &mut CpuContext,
        _memory: &mut M,
    ) -> Option<HostAction> {
        self.traps += 1;
        self.services.then_some(HostAction::Continue)
    }
}

#[test]
fn a_host_chain_ticks_everything_and_lets_the_first_answer_win() {
    let mut first = Recorder {
        name: "first",
        claimed: Some(0x1000),
        services: false,
        ..Recorder::default()
    };
    let mut second = Recorder {
        name: "second",
        claimed: Some(0x2000),
        services: true,
        ..Recorder::default()
    };
    let registers = zeroed();
    let mut memory = Memory::new();
    {
        let mut chain = HostChain::new(&mut first, &mut second);
        let mut cpu = CpuContext { registers };

        chain.tick(&mut cpu, &mut memory);
        assert!(chain.claims(0x1000) && chain.claims(0x2000));
        assert!(!chain.claims(0x3000), "neither host claims this one");

        // `on_call` goes to the host that claims the address, not the first
        // host in the chain.
        chain.on_call(0x2000, &mut cpu, &mut memory);
        // `on_trap` has no `claims` to ask, so returning `Some` is the
        // claim: both are consulted, and the second one services it.
        assert!(chain.on_trap(3, 0x4000, &mut cpu, &mut memory).is_some());
    }

    assert_eq!((first.ticks, second.ticks), (1, 1), "every host ticks");
    assert!(first.calls.is_empty(), "{} did not claim it", first.name);
    assert_eq!(second.calls, vec![0x2000], "{} did", second.name);
    assert_eq!((first.traps, second.traps), (1, 1));
}

#[test]
fn a_host_chain_that_services_nothing_leaves_the_standard_stop_alone() {
    let mut host = Recorder::default();
    let registers = zeroed();
    let mut memory = Memory::new();
    let mut other = NoHost;
    let mut chain = HostChain::new(&mut host, &mut other);
    let mut cpu = CpuContext { registers };
    assert!(
        chain.on_trap(3, 0x4000, &mut cpu, &mut memory).is_none(),
        "so `run` applies its own fault-aware stop"
    );
}

/// A trivial memory-mapped device: each read returns an incrementing value
/// (like a beam counter), and writes are accepted. Used to drive a poll loop.
struct Counter {
    base: u32,
    value: u32,
}

impl Device for Counter {
    fn start(&self) -> u32 {
        self.base
    }
    fn end(&self) -> u32 {
        self.base + 4
    }
    fn state(&self) -> DeviceState {
        unreachable!()
    }
    fn reads(
        &self,
        _addr: u32,
        _size: u8,
        _before: MemoryView,
        _reply: DeviceAccess,
        _next: DeviceState,
        _after: MemoryView,
    ) -> bool {
        true
    }
    fn writes(
        &self,
        _addr: u32,
        _size: u8,
        _value: u32,
        _before: MemoryView,
        _reply: DeviceAccess,
        _next: DeviceState,
        _after: MemoryView,
    ) -> bool {
        true
    }
    fn range(&self) -> Range<u32> {
        self.base..self.base + 4
    }
    fn read(&mut self, _addr: u32, _size: u8, _memory: &mut DmaMemory) -> DeviceAccess {
        let value = self.value;
        self.value = self.value.wrapping_add(1);
        DeviceAccess::Value(value)
    }
    fn write(
        &mut self,
        _addr: u32,
        _size: u8,
        _value: u32,
        _memory: &mut DmaMemory,
    ) -> DeviceAccess {
        DeviceAccess::Wrote
    }
}

const COUNTER: u32 = 0x00e0_0000;

/// A device that performs DMA when written, the way the chipset does when a
/// program writes `BLTSIZE`: one register write, several words of memory
/// changed on the program's behalf.
struct Scatterer {
    base: u32,
    target: u32,
    words: u16,
}

impl Device for Scatterer {
    fn start(&self) -> u32 {
        self.base
    }
    fn end(&self) -> u32 {
        self.base + 2
    }
    fn state(&self) -> DeviceState {
        unreachable!()
    }
    fn reads(
        &self,
        _addr: u32,
        _size: u8,
        _before: MemoryView,
        _reply: DeviceAccess,
        _next: DeviceState,
        _after: MemoryView,
    ) -> bool {
        true
    }
    fn writes(
        &self,
        _addr: u32,
        _size: u8,
        _value: u32,
        _before: MemoryView,
        _reply: DeviceAccess,
        _next: DeviceState,
        _after: MemoryView,
    ) -> bool {
        true
    }
    fn range(&self) -> Range<u32> {
        self.base..self.base + 2
    }
    fn read(&mut self, _addr: u32, _size: u8, _memory: &mut DmaMemory) -> DeviceAccess {
        DeviceAccess::Value(0)
    }
    fn write(
        &mut self,
        _addr: u32,
        _size: u8,
        value: u32,
        memory: &mut DmaMemory,
    ) -> DeviceAccess {
        // Preflight the whole transfer before changing anything, which is
        // the shape a real refusal needs and the reason `contains_word` must
        // leave no pending fault behind.
        for step in 0..u32::from(self.words) {
            if !memory.contains_word(self.target + step * 2) {
                return DeviceAccess::Wrote;
            }
        }
        for step in 0..u32::from(self.words) {
            let _ = memory.write_dma_word(self.target + step * 2, value as u16);
        }
        DeviceAccess::Wrote
    }
}

const SCATTERER: u32 = 0x00e0_0010;
const SCATTER_TARGET: u32 = 0x2200;

/// A sandbox whose `$00e00010` register makes the device write `words` words
/// at [`SCATTER_TARGET`].
fn scatter_bus(code: &[u8], words: u16) -> (DeviceBus<Box<Scatterer>>, RunOptions) {
    let (memory, options) = sandbox(code);
    let mut bus = DeviceBus::new(memory);
    bus.attach(Box::new(Scatterer {
        base: SCATTERER,
        target: SCATTER_TARGET,
        words,
    }))
    .unwrap_or_else(|error| panic!("{error:?}"));
    (bus, options)
}

/// `MOVE.W #$beef,($00e00010).L ; RTS` — one instruction that provokes DMA.
const TRIGGER: [u8; 12] = [
    0x33, 0xfc, 0xbe, 0xef, 0x00, 0xe0, 0x00, 0x10, // MOVE.W #$beef,($00e00010).L
    0x4e, 0x75, // RTS
    0x00, 0x00, // padding
];

#[test]
fn a_devices_dma_changes_memory_without_entering_the_write_log() {
    let (mut bus, options) = scatter_bus(&TRIGGER, 4);
    let execution = run_with_host(&mut bus, LOAD, &mut NoHost, &options);
    assert_eq!(execution.stop, StopReason::Returned);

    assert_eq!(
        bus.ram().slice(SCATTER_TARGET, 8),
        Some(&[0xbe, 0xef, 0xbe, 0xef, 0xbe, 0xef, 0xbe, 0xef][..]),
        "the device's DMA reached RAM"
    );
    assert!(
        touched_regions(bus.ram())
            .iter()
            .any(|region| region.address == SCATTER_TARGET),
        "and is visible as changed memory"
    );
    // The log answers what the executing code did: one MMIO write, not four
    // DMA words. Burying the instruction under the chipset's response is
    // exactly what this split exists to prevent.
    let dma_writes = bus
        .writes()
        .iter()
        .filter(|write| (SCATTER_TARGET..SCATTER_TARGET + 8).contains(&write.address))
        .count();
    assert_eq!(dma_writes, 0, "DMA never enters the write log");
    assert!(
        bus.writes().iter().any(|write| write.address == SCATTERER),
        "the CPU's MMIO write does"
    );
}

#[test]
fn dma_events_say_they_are_dma_and_precede_the_cpu_write_that_caused_them() {
    // `serve_write` calls the device and only then records the CPU's own
    // MMIO write, so the DMA appears before the instruction that provoked
    // it. That reads backwards and is kept deliberately — reordering would
    // change MMIO event order for every device — so the ordering is pinned
    // here and `source` is what makes the sequence legible.
    let (mut bus, mut options) = scatter_bus(&TRIGGER, 2);
    options.watchpoints = vec![
        Watchpoint::new(SCATTER_TARGET, 4, WatchAccess::Both)
            .unwrap_or_else(|| panic!("valid watchpoint")),
        Watchpoint::new(SCATTERER, 2, WatchAccess::Both)
            .unwrap_or_else(|| panic!("valid watchpoint")),
    ];
    let execution = run_with_host(&mut bus, LOAD, &mut NoHost, &options);
    assert_eq!(execution.stop, StopReason::Returned);

    let events: Vec<(u32, AccessSource)> = bus
        .accesses()
        .iter()
        .map(|event| (event.address, event.source))
        .collect();
    assert_eq!(
        events,
        vec![
            (SCATTER_TARGET, AccessSource::DeviceDma),
            (SCATTER_TARGET + 2, AccessSource::DeviceDma),
            (SCATTERER, AccessSource::Cpu),
        ]
    );

    // All three belong to the one instruction that did it.
    let step = execution
        .steps
        .iter()
        .find(|step| step.address == LOAD)
        .unwrap_or_else(|| panic!("the MOVE was traced"));
    assert_eq!(step.watch_events.len(), 3);
    assert_eq!(
        step.writes.len(),
        1,
        "the step's writes hold only the CPU's own"
    );
    assert_eq!(step.writes[0].address, SCATTERER);
}

#[test]
fn a_failed_preflight_leaves_no_pending_fault() {
    // `contains_word` must have no observable effect at all. If a refused
    // preflight left a fault behind, the very next instruction would trap on
    // an address the device only asked about.
    let (mut bus, options) = scatter_bus(&TRIGGER, 0x800);
    let execution = run_with_host(&mut bus, LOAD, &mut NoHost, &options);

    assert_eq!(
        execution.stop,
        StopReason::Returned,
        "asking about unmapped memory must not trap the run"
    );
    assert_eq!(bus.last_fault(), None);
    assert_eq!(
        bus.ram().slice(SCATTER_TARGET, 2),
        Some(&[0x00, 0x00][..]),
        "the device refused, so nothing was written"
    );
}

/// Assert `run` and `run_with_host` + `NoHost` produce an identical
/// `Execution` and identical memory writes for `code` under `configure`.
fn assert_run_equivalent(code: &[u8], configure: impl Fn(&mut RunOptions)) {
    let (mut m1, mut o1) = sandbox(code);
    configure(&mut o1);
    let (mut m2, mut o2) = sandbox(code);
    configure(&mut o2);
    let direct = run(&mut m1, LOAD, &o1);
    let hosted = run_with_host(&mut m2, LOAD, &mut NoHost, &o2);
    assert_eq!(direct, hosted);
    assert_eq!(m1.writes(), m2.writes());
}

#[test]
fn run_matches_run_with_host_and_nohost() {
    // The regression guard: `run` must equal `run_with_host` + `NoHost`,
    // byte-for-byte, across every outcome the loop produces.
    // MOVEQ #5,D0; ADDQ.L #3,D0; RTS -> Returned.
    assert_run_equivalent(&[0x70, 0x05, 0x56, 0x80, 0x4e, 0x75], |_| {});
    // BRA.S * -> StepLimit.
    assert_run_equivalent(&[0x60, 0xfe], |options| options.max_steps = 8);
    // MOVE.W D0,(A0); RTS -> a memory write.
    assert_run_equivalent(&[0x30, 0x80, 0x4e, 0x75], |options| {
        options.address[0] = 0x2000;
        options.data[0] = 0x1234;
    });
    // MOVE.W D0,(A0); RTS with A0 unmapped -> Fault (via bus.last_fault()).
    assert_run_equivalent(&[0x30, 0x80, 0x4e, 0x75], |options| {
        options.address[0] = 0x0010_0000;
    });
    // MOVE.W #$1234,(A0); RTS with a write watchpoint -> Watch.
    assert_run_equivalent(&[0x30, 0xbc, 0x12, 0x34, 0x4e, 0x75], |options| {
        options.address[0] = 0x1800;
        options.watchpoints =
            vec![Watchpoint::new(0x1800, 2, WatchAccess::Write).expect("valid watchpoint")];
        options.stop_on_watch = true;
    });
    // TRAP #0 -> a non-fault Trap vector.
    assert_run_equivalent(&[0x4e, 0x40, 0x4e, 0x75], |_| {});
}

#[test]
fn a_device_poll_loop_terminates() {
    // wait: MOVE.W (A0),D0 ; CMPI.W #3,D0 ; BNE.S wait ; RTS — the counter
    // advances on each read, so the loop ends when it reads 3.
    let code = [
        0x30, 0x10, // MOVE.W (A0),D0
        0x0c, 0x40, 0x00, 0x03, // CMPI.W #3,D0
        0x66, 0xf8, // BNE.S wait
        0x4e, 0x75, // RTS
    ];
    let mut memory = Memory::new();
    memory
        .map(0, 0x3000)
        .unwrap_or_else(|error| panic!("{error:?}"));
    memory
        .load(LOAD, &code)
        .unwrap_or_else(|error| panic!("{error:?}"));
    let mut bus = DeviceBus::new(memory);
    bus.attach(Box::new(Counter {
        base: COUNTER,
        value: 0,
    }))
    .unwrap_or_else(|error| panic!("{error:?}"));
    let mut options = RunOptions::new(0x2ffc, MARKER);
    options.address[0] = COUNTER;
    let execution = run_with_host(&mut bus, LOAD, &mut NoHost, &options);
    assert_eq!(execution.stop, StopReason::Returned);
    assert_eq!(execution.registers.d[0], 3);
}

#[test]
fn watchpoints_observe_device_reads() {
    // MOVE.W (A0),D0 ; RTS with A0 = the counter, watching device reads.
    let code = [0x30, 0x10, 0x4e, 0x75];
    let mut memory = Memory::new();
    memory
        .map(0, 0x3000)
        .unwrap_or_else(|error| panic!("{error:?}"));
    memory
        .load(LOAD, &code)
        .unwrap_or_else(|error| panic!("{error:?}"));
    let mut bus = DeviceBus::new(memory);
    bus.attach(Box::new(Counter {
        base: COUNTER,
        value: 0x1234,
    }))
    .unwrap_or_else(|error| panic!("{error:?}"));
    let mut options = RunOptions::new(0x2ffc, MARKER);
    options.address[0] = COUNTER;
    options.watchpoints = vec![
        Watchpoint::new(COUNTER, 2, WatchAccess::Read)
            .unwrap_or_else(|| panic!("valid watchpoint")),
    ];
    let execution = run_with_host(&mut bus, LOAD, &mut NoHost, &options);
    assert_eq!(execution.stop, StopReason::Returned);
    assert!(
        execution
            .steps
            .iter()
            .any(|step| step.watch_events.iter().any(|event| event.after == 0x1234))
    );
}

#[test]
fn a_straddling_device_access_faults() {
    // A long read whose last two bytes fall past the counter's 4-byte range.
    let mut bus = DeviceBus::new(Memory::new());
    bus.attach(Box::new(Counter {
        base: COUNTER,
        value: 0,
    }))
    .unwrap_or_else(|error| panic!("{error:?}"));
    assert_eq!(bus.get_long(COUNTER + 2), None);
    assert_eq!(
        bus.last_fault(),
        Some(Fault {
            address: COUNTER + 2,
            access: Access::Read,
            size: 4,
        })
    );
}

#[test]
fn attach_rejects_overlapping_devices() {
    let mut memory = Memory::new();
    memory
        .map(0, 0x1000)
        .unwrap_or_else(|error| panic!("{error:?}"));
    let mut bus = DeviceBus::new(memory);
    // Overlaps the RAM region [0, 0x1000).
    assert!(matches!(
        bus.attach(Box::new(Counter {
            base: 0x800,
            value: 0
        })),
        Err(MemoryError::Overlap { .. })
    ));
}

#[test]
fn skips_the_trace_when_not_recording() {
    // MOVEQ #5,D0 ; RTS, run without recording steps.
    let code = [0x70, 0x05, 0x4e, 0x75];
    let (mut memory, mut options) = sandbox(&code);
    options.record_steps = false;
    let execution = run(&mut memory, LOAD, &options);
    assert_eq!(execution.stop, StopReason::Returned);
    assert_eq!(execution.registers.d[0], 5);
    assert!(execution.steps.is_empty());
    assert_eq!(execution.steps_executed, 2);
}
