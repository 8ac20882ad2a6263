use std::ops::Range;

use amiga_disasm::bus::DeviceState;
use amiga_disasm::device::{served_read, served_write, DmaMemory};
use amiga_disasm::memory::{long_bytes, MemoryView};
use amiga_disasm::{
    analyze, changed_regions, run, run_with_host, touched_regions, Access, AccessSource, Breakpoints, Bus,
    CpuContext, Device, DeviceAccess, DeviceBus, Fault, Host, HostAction, HostChain, HostMemory,
    InterruptDelivery, InterruptFrame, InterruptHandler, InterruptSchedule, Memory, MemoryError,
    MemoryWrite, NoHost, Register, RegisterFile, RunOptions, ScheduledInterrupt, StopReason,
    WatchAccess, Watchpoint,
};

const MARKER: u32 = 0x00f0_0000;
const LOAD: u32 = 0x1000;

fn sandbox(code: &[u8]) -> (Memory, RunOptions) {
    let mut memory = Memory::new();
    memory.map(0, 0x3000).unwrap();
    memory.load(LOAD, code).unwrap();
    (memory, RunOptions::new(0x2ffc, MARKER))
}

fn registers(pc: u32, ssp: u32) -> RegisterFile {
    RegisterFile {
        d: [0; 8],
        a: [0; 7],
        usp: 0,
        ssp,
        pc,
        sr: 0x2700,
    }
}

#[test]
fn a_read_gives_back_what_a_write_of_its_width_stored() {
    let mut memory = Memory::new();
    memory.map(0x1000, 0x10).unwrap();
    assert_eq!(memory.set_byte(0x1001, 0xab), Some(()));
    assert_eq!(memory.get_byte(0x1001), Some(0xab));
    assert_eq!(memory.set_word(0x1002, 0x1234), Some(()));
    assert_eq!(memory.get_word(0x1002), Some(0x1234));
    assert_eq!(memory.set_long(0x1004, 0xdead_beef), Some(()));
    assert_eq!(memory.get_long(0x1004), Some(0xdead_beef));
    assert_eq!(memory.slice(0x1004, 4), Some(&long_bytes(0xdead_beef)[..]));
    assert_eq!(long_bytes(0xdead_beef), [0xde, 0xad, 0xbe, 0xef]);
    // Big-endian: the word is the two bytes in address order.
    assert_eq!(memory.get_byte(0x1002), Some(0x12));
    assert_eq!(memory.get_byte(0x1003), Some(0x34));
}

#[test]
fn a_refused_access_is_the_pending_fault_and_changes_nothing() {
    let mut memory = Memory::new();
    memory.map(0x1000, 0x10).unwrap();
    assert_eq!(memory.set_long(0x100e, 0x1234_5678), None);
    assert_eq!(
        memory.last_fault(),
        Some(Fault {
            address: 0x100e,
            access: Access::Write,
            size: 4,
        })
    );
    assert_eq!(memory.writes(), &[][..]);
    assert_eq!(memory.peek_long(0x100c), Some(0));
    memory.clear_fault();
    assert_eq!(memory.last_fault(), None);
}

#[test]
fn each_refused_mapping_says_why() {
    let mut memory = Memory::new();
    assert_eq!(memory.map(0x40, 0), Err(MemoryError::Empty { origin: 0x40 }));
    assert_eq!(
        memory.map(0xffff_fff0, 0x11),
        Err(MemoryError::AddressOverflow {
            origin: 0xffff_fff0,
            length: 0x11,
        })
    );
    memory.map(0x1000, 0x100).unwrap();
    assert_eq!(
        memory.map(0x10ff, 2),
        Err(MemoryError::Overlap {
            origin: 0x10ff,
            length: 2,
        })
    );
    assert_eq!(
        memory.load(0x10ff, &[1, 2]),
        Err(MemoryError::OutOfRange {
            address: 0x10ff,
            length: 2,
        })
    );
    // The last bytes of the address space can be mapped.
    assert_eq!(memory.map(0xffff_fff0, 0x10), Ok(()));
    assert_eq!(memory.get_byte(0xffff_ffff), Some(0));
}

#[test]
fn touching_mappings_are_one_span() {
    let mut memory = Memory::new();
    memory.map(0x2000, 0x100).unwrap();
    memory.map(0x4000, 0x10).unwrap();
    memory.map(0x2100, 0x100).unwrap();
    assert_eq!(memory.mapped_spans(), vec![(0x2000, 0x200), (0x4000, 0x10)]);
}

#[test]
fn a_watchpoint_needs_a_range_inside_the_address_space() {
    assert!(Watchpoint::new(0x1000, 0, WatchAccess::Both).is_none());
    assert!(Watchpoint::new(0xffff_ffff, 2, WatchAccess::Both).is_none());
    assert!(Watchpoint::new(0xffff_fff0, 0xf, WatchAccess::Both).is_some());
}

#[test]
fn dma_reads_are_seen_but_never_fault() {
    let mut memory = Memory::new();
    memory.map(0x1000, 0x10).unwrap();
    memory.load(0x1000, &[0xca, 0xfe]).unwrap();
    memory.set_watch(
        &[Watchpoint::new(0x1000, 2, WatchAccess::Read).unwrap()],
        16,
    );
    assert_eq!(memory.read_dma_word(0x1000), Some(0xcafe));
    assert_eq!(memory.read_dma_word(0x5000), None);
    assert_eq!(memory.last_fault(), None);
    assert_eq!(memory.watch_events_total(), 1);
    assert_eq!(memory.accesses()[0].source, AccessSource::DeviceDma);
    assert_eq!(memory.accesses()[0].after, 0xcafe);
}

#[test]
fn registers_have_their_conventional_names() {
    assert_eq!(Register::Data(3).label(), "D3");
    assert_eq!(Register::Address(6).label(), "A6");
    assert_eq!(Register::Usp.label(), "USP");
    assert_eq!(Register::Ssp.label(), "SSP");
    assert_eq!(Register::Status.label(), "SR");
}

#[test]
fn a_step_shows_the_text_of_its_instruction() {
    // MOVEQ #5,D0 ; RTS
    let code = [0x70, 0x05, 0x4e, 0x75];
    let (mut memory, options) = sandbox(&code);
    let execution = run(&mut memory, LOAD, &options);
    let analysis = analyze(&code, 0);
    assert_eq!(
        execution.steps[0].text,
        analysis.instructions.get(0).unwrap().text()
    );
    assert_eq!(
        execution.steps[1].text,
        analysis.instructions.get(2).unwrap().text()
    );
    // MOVEQ takes four cycles.
    assert_eq!(execution.steps[0].cycles, 4);
}

#[test]
fn stop_halts_the_run() {
    // STOP #$2700 ; RTS
    let (mut memory, options) = sandbox(&[0x4e, 0x72, 0x27, 0x00, 0x4e, 0x75]);
    let execution = run(&mut memory, LOAD, &options);
    assert_eq!(execution.stop, StopReason::Stopped);
    assert_eq!(execution.steps_executed, 1);
    assert_eq!(execution.registers.pc, LOAD + 4);
}

#[test]
fn an_odd_program_counter_is_an_address_error() {
    let (mut memory, options) = sandbox(&[0x4e, 0x71]);
    let execution = run(&mut memory, LOAD + 1, &options);
    assert_eq!(
        execution.stop,
        StopReason::Trap {
            vector: 3,
            site: LOAD + 1,
        }
    );
    assert_eq!(execution.steps[0].text, "");
}

#[test]
fn an_unmapped_opcode_word_is_a_fault_at_its_address() {
    for record_steps in [false, true] {
        let (mut memory, mut options) = sandbox(&[]);
        options.record_steps = record_steps;
        let execution = run(&mut memory, 0x8000, &options);
        assert_eq!(
            execution.stop,
            StopReason::Fault {
                fault: Fault {
                    address: 0x8000,
                    access: Access::Read,
                    size: 2,
                },
                site: 0x8000,
            }
        );
    }
}

#[test]
fn an_unmapped_extension_word_is_a_fault_and_nothing_executes() {
    // MOVE.L #imm,D0 whose second immediate word lies past the mapped bytes.
    for record_steps in [false, true] {
        let mut memory = Memory::new();
        memory.map(0x1000, 4).unwrap();
        memory.load(0x1000, &[0x20, 0x3c, 0x12, 0x34]).unwrap();
        let mut options = RunOptions::new(0x1000, MARKER);
        options.record_steps = record_steps;
        options.data[0] = 7;
        let execution = run(&mut memory, 0x1000, &options);
        assert_eq!(
            execution.stop,
            StopReason::Fault {
                fault: Fault {
                    address: 0x1004,
                    access: Access::Read,
                    size: 2,
                },
                site: 0x1000,
            }
        );
        assert_eq!(execution.registers.d[0], 7);
        assert_eq!(execution.registers.pc, 0x1000);
        assert_eq!(execution.steps_executed, 1);
    }
}

#[test]
fn recording_a_trace_does_not_change_what_runs() {
    // MOVE.W D0,(A0)+ ; SUBQ.W #1,D0 ; BNE.S -6 ; RTS
    let code = [0x30, 0xc0, 0x53, 0x40, 0x66, 0xfa, 0x4e, 0x75];
    let (mut traced, mut options) = sandbox(&code);
    options.data[0] = 5;
    options.address[0] = 0x2000;
    let (mut quiet, mut silent) = sandbox(&code);
    silent.data[0] = 5;
    silent.address[0] = 0x2000;
    silent.record_steps = false;
    let with_trace = run(&mut traced, LOAD, &options);
    let without = run(&mut quiet, LOAD, &silent);
    assert_eq!(with_trace.stop, StopReason::Returned);
    assert_eq!(with_trace.stop, without.stop);
    assert_eq!(with_trace.registers, without.registers);
    assert_eq!(traced.writes(), quiet.writes());
    assert_eq!(without.steps_traced, 0);
    assert_eq!(with_trace.steps_traced, with_trace.steps_executed);
}

#[test]
fn a_capped_trace_keeps_its_first_rows_and_counts_the_rest() {
    let (mut memory, mut options) = sandbox(&[0x60, 0xfe]); // BRA.S *
    options.max_steps = 10;
    options.retained_steps = Some(3);
    let execution = run(&mut memory, LOAD, &options);
    assert_eq!(execution.stop, StopReason::StepLimit);
    assert_eq!(execution.steps.len(), 3);
    assert_eq!(execution.steps_traced, 10);
    assert_eq!(execution.steps_executed, 10);
    let rows: Vec<usize> = execution.steps.iter().map(|step| step.index).collect();
    assert_eq!(rows, vec![0, 1, 2]);
}

#[test]
fn the_rows_of_a_trace_share_out_the_write_log() {
    // MOVE.W D0,(A0) ; MOVEM.L D0-D1,(A1) ; RTS
    let code = [0x30, 0x80, 0x48, 0xd1, 0x00, 0x03, 0x4e, 0x75];
    let (mut memory, mut options) = sandbox(&code);
    options.address[0] = 0x2000;
    options.address[1] = 0x2100;
    let execution = run(&mut memory, LOAD, &options);
    assert_eq!(execution.stop, StopReason::Returned);
    let shared: Vec<MemoryWrite> = execution
        .steps
        .iter()
        .flat_map(|step| step.writes.iter().copied())
        .collect();
    assert_eq!(shared, memory.writes());
    assert_eq!(execution.steps[0].writes.len(), 1);
    assert_eq!(execution.steps[1].writes.len(), 2);
}

#[test]
fn a_dispatched_trap_costs_its_exception_processing() {
    let (mut memory, mut options) = sandbox(&[0x4e, 0x40]); // TRAP #0
    memory.write_long(32 * 4, LOAD + 0x40).unwrap();
    memory.load(LOAD + 0x40, &[0x4e, 0x73]).unwrap(); // RTE
    options.guest_traps = true;
    options.max_steps = 1;
    let execution = run(&mut memory, LOAD, &options);
    assert_eq!(execution.stop, StopReason::StepLimit);
    assert_eq!(execution.steps[0].trap, Some(32));
    assert_eq!(execution.steps[0].cycles, 34);
    assert_eq!(execution.registers.pc, LOAD + 0x40);
    assert_eq!(execution.registers.ssp, 0x2ff8 - 6);
    assert_eq!(execution.steps[0].writes.len(), 2);
}

#[test]
fn a_run_split_by_its_budget_is_the_run_in_one_pass() {
    // MOVEQ #0,D0 ; loop: ADDQ.L #1,D0 ; MOVE.L D0,(A0)+ ; CMPI.W #6,D0 ; BNE.S loop ; RTS
    let code = [
        0x70, 0x00, 0x52, 0x80, 0x20, 0xc0, 0x0c, 0x40, 0x00, 0x06, 0x66, 0xf6, 0x4e, 0x75,
    ];
    let (mut whole_memory, mut options) = sandbox(&code);
    options.address[0] = 0x2000;
    let whole = run(&mut whole_memory, LOAD, &options);
    assert_eq!(whole.stop, StopReason::Returned);
    for first in 1..whole.steps_executed {
        let (mut memory, mut options) = sandbox(&code);
        options.address[0] = 0x2000;
        options.max_steps = first;
        let earlier = run(&mut memory, LOAD, &options);
        assert_eq!(earlier.stop, StopReason::StepLimit);
        let mut resumed = RunOptions::new(0, MARKER);
        resumed.resume = Some(earlier.registers);
        let later = run(&mut memory, earlier.registers.pc, &resumed);
        assert_eq!(later.stop, whole.stop);
        assert_eq!(later.registers, whole.registers);
        assert_eq!(first + later.steps_executed, whole.steps_executed);
        assert_eq!(touched_regions(&memory), touched_regions(&whole_memory));
        assert_eq!(memory.writes(), whole_memory.writes());
    }
}

/// A device whose two words are a program: `MOVEQ #9,D0 ; RTS`.
struct BootRom;

impl Device for BootRom {
    fn start(&self) -> u32 {
        0x00fc_0000
    }
    fn end(&self) -> u32 {
        0x00fc_0004
    }
    fn state(&self) -> DeviceState {
        unreachable!()
    }
    fn reads(
        &self,
        _addr: u32,
        _size: u8,
        _before: MemoryView,
        _reply: DeviceAccess,
        _next: DeviceState,
        _after: MemoryView,
    ) -> bool {
        true
    }
    fn writes(
        &self,
        _addr: u32,
        _size: u8,
        _value: u32,
        _before: MemoryView,
        _reply: DeviceAccess,
        _next: DeviceState,
        _after: MemoryView,
    ) -> bool {
        true
    }
    fn range(&self) -> Range<u32> {
        0x00fc_0000..0x00fc_0004
    }
    fn read(&mut self, addr: u32, _size: u8, _memory: &mut DmaMemory) -> DeviceAccess {
        DeviceAccess::Value(if addr == 0x00fc_0000 { 0x7009 } else { 0x4e75 })
    }
    fn write(
        &mut self,
        _addr: u32,
        _size: u8,
        _value: u32,
        _memory: &mut DmaMemory,
    ) -> DeviceAccess {
        DeviceAccess::Fault
    }
}

#[test]
fn code_that_a_device_answers_for_executes() {
    let (memory, options) = sandbox(&[]);
    let mut bus = DeviceBus::new(memory);
    bus.attach(BootRom).unwrap();
    let execution = run_with_host(&mut bus, 0x00fc_0000, &mut NoHost, &options);
    assert_eq!(execution.stop, StopReason::Returned);
    assert_eq!(execution.registers.d[0], 9);
    assert_eq!(execution.steps_executed, 2);
}

#[test]
fn a_device_that_refuses_a_write_faults() {
    let (memory, _) = sandbox(&[]);
    let mut bus = DeviceBus::new(memory);
    bus.attach(BootRom).unwrap();
    assert_eq!(bus.set_word(0x00fc_0000, 1), None);
    assert_eq!(
        bus.last_fault(),
        Some(Fault {
            address: 0x00fc_0000,
            access: Access::Write,
            size: 2,
        })
    );
    // RAM beside it still answers for itself.
    assert_eq!(bus.set_word(0x2000, 0x1234), Some(()));
    assert_eq!(bus.get_word(0x2000), Some(0x1234));
    // A second device cannot claim what the first one does.
    assert!(matches!(
        bus.attach(BootRom),
        Err(MemoryError::Overlap { .. })
    ));
}

#[test]
fn a_breakpoint_stops_before_its_instruction_and_a_resumed_run_gets_past_it() {
    // loop: ADDQ.L #1,D0 ; BRA.S loop
    let (mut memory, mut options) = sandbox(&[0x52, 0x80, 0x60, 0xfc]);
    options.max_steps = 100;
    let mut breakpoints = Breakpoints::new(&[LOAD], LOAD);
    assert!(!breakpoints.is_empty());
    assert!(Breakpoints::new(&[], LOAD).is_empty());
    let first = run_with_host(&mut memory, LOAD, &mut breakpoints, &options);
    // The start is let through; coming back to it stops the run.
    assert_eq!(first.stop, StopReason::Breakpoint { site: LOAD });
    assert_eq!(first.registers.d[0], 1);
    assert_eq!(first.steps_executed, 2);

    options.resume = Some(first.registers);
    let mut again = Breakpoints::new(&[LOAD], first.registers.pc);
    let second = run_with_host(&mut memory, first.registers.pc, &mut again, &options);
    assert_eq!(second.stop, StopReason::Breakpoint { site: LOAD });
    assert_eq!(second.registers.d[0], 2);
}

#[test]
fn a_breakpoint_elsewhere_stops_at_once() {
    let (mut memory, options) = sandbox(&[0x70, 0x01, 0x70, 0x02, 0x4e, 0x75]);
    let mut breakpoints = Breakpoints::new(&[LOAD + 2], LOAD);
    let execution = run_with_host(&mut memory, LOAD, &mut breakpoints, &options);
    assert_eq!(execution.stop, StopReason::Breakpoint { site: LOAD + 2 });
    assert_eq!(execution.registers.d[0], 1);
    assert_eq!(execution.registers.pc, LOAD + 2);
    assert_eq!(execution.steps_executed, 1);
}

fn once(handler: InterruptHandler, frame: InterruptFrame) -> ScheduledInterrupt {
    ScheduledInterrupt {
        handler,
        after_steps: 3,
        every_steps: None,
        deliveries: None,
        frame,
    }
}

#[test]
fn a_scheduled_interrupt_ends_a_wait_and_returns() {
    // wait: TST.W (A0) ; BEQ.S wait ; RTS, with a handler at $1100 that sets the flag.
    let code = [0x4a, 0x50, 0x67, 0xfc, 0x4e, 0x75];
    for (frame, last) in [
        (InterruptFrame::Exception, [0x4e, 0x73]),
        (InterruptFrame::Subroutine, [0x4e, 0x75]),
    ] {
        let (mut memory, mut options) = sandbox(&code);
        // MOVE.W #1,(A0) ; RTE or RTS
        memory.load(0x1100, &[0x30, 0xbc, 0x00, 0x01]).unwrap();
        memory.load(0x1104, &last).unwrap();
        options.address[0] = 0x2000;
        options.max_steps = 50;
        let mut schedule =
            InterruptSchedule::new(vec![once(InterruptHandler::Address(0x1100), frame)]);
        let execution = run_with_host(&mut memory, LOAD, &mut schedule, &options);
        assert_eq!(execution.stop, StopReason::Returned);
        assert_eq!(
            schedule.delivered(),
            &[InterruptDelivery {
                index: 0,
                step: 3,
                handler: 0x1100,
                resume: LOAD + 2,
            }][..]
        );
    }
}

#[test]
fn a_vector_is_read_when_its_interrupt_is_delivered() {
    // MOVE.L #$1100,$6C ; wait: BRA.S wait: the vector is installed by the code itself.
    let code = [
        0x21, 0xfc, 0x00, 0x00, 0x11, 0x00, 0x00, 0x6c, 0x60, 0xfe,
    ];
    let (mut memory, mut options) = sandbox(&code);
    // MOVEQ #7,D7 ; RTE
    memory.load(0x1100, &[0x7e, 0x07, 0x4e, 0x73]).unwrap();
    options.max_steps = 12;
    let mut schedule = InterruptSchedule::new(vec![ScheduledInterrupt {
        handler: InterruptHandler::Vector(27),
        after_steps: 0,
        every_steps: None,
        deliveries: Some(1),
        frame: InterruptFrame::default(),
    }]);
    let execution = run_with_host(&mut memory, LOAD, &mut schedule, &options);
    assert_eq!(execution.stop, StopReason::StepLimit);
    assert_eq!(execution.registers.d[7], 7);
    // At first nothing was installed, so the schedule tried again one instruction on.
    assert_eq!(schedule.delivered().len(), 1);
    assert_eq!(schedule.delivered()[0].step, 1);
    assert_eq!(schedule.delivered()[0].resume, LOAD + 8);
}

#[test]
fn deliveries_do_not_nest_and_keep_to_their_limit() {
    let entry = ScheduledInterrupt {
        handler: InterruptHandler::Address(0x1100),
        after_steps: 0,
        every_steps: Some(1),
        deliveries: Some(2),
        frame: InterruptFrame::Subroutine,
    };
    let mut schedule = InterruptSchedule::new(vec![entry]);
    let (mut memory, _) = sandbox(&[]);
    let mut cpu = CpuContext {
        registers: registers(LOAD, 0x2ff0),
    };
    schedule.tick(&mut cpu, &mut memory);
    assert_eq!((cpu.pc(), cpu.sp()), (0x1100, 0x2fec));
    assert_eq!(memory.peek_long(0x2fec), Some(LOAD));
    // The handler has not returned: its frame is still on the stack.
    schedule.tick(&mut cpu, &mut memory);
    schedule.tick(&mut cpu, &mut memory);
    assert_eq!(schedule.delivered().len(), 1);
    // It returns, and the next delivery comes.
    cpu.set_sp(0x2ff0);
    cpu.set_pc(LOAD + 2);
    schedule.tick(&mut cpu, &mut memory);
    assert_eq!(schedule.delivered().len(), 2);
    assert_eq!(schedule.delivered()[1].resume, LOAD + 2);
    assert_eq!(schedule.delivered()[1].step, 3);
    // The limit is reached.
    cpu.set_sp(0x2ff0);
    for _ in 0..10 {
        schedule.tick(&mut cpu, &mut memory);
    }
    assert_eq!(schedule.delivered().len(), 2);
    assert_eq!(cpu.pc(), 0x1100);
}

#[test]
fn a_delivery_without_a_stack_is_not_one() {
    let mut schedule = InterruptSchedule::new(vec![once(
        InterruptHandler::Address(0x1100),
        InterruptFrame::Exception,
    )]);
    let (mut memory, _) = sandbox(&[]);
    let mut cpu = CpuContext {
        registers: registers(LOAD, 0x8000),
    };
    for _ in 0..5 {
        schedule.tick(&mut cpu, &mut memory);
    }
    assert!(schedule.delivered().is_empty());
    assert_eq!((cpu.pc(), cpu.sp()), (LOAD, 0x8000));
}

#[test]
fn registers_outside_the_file_read_zero_and_are_not_set() {
    let mut cpu = CpuContext {
        registers: registers(0, 0),
    };
    cpu.set_d(7, 70);
    cpu.set_a(6, 60);
    cpu.set_d(8, 1);
    cpu.set_a(7, 1);
    assert_eq!((cpu.d(7), cpu.a(6)), (70, 60));
    assert_eq!((cpu.d(8), cpu.a(7)), (0, 0));
    assert_eq!(cpu.sr(), 0x2700);
}

#[test]
fn a_chain_of_a_schedule_and_breakpoints_does_both() {
    // wait: BRA.S wait; the handler at $1100 is where the run stops.
    let (mut memory, mut options) = sandbox(&[0x60, 0xfe]);
    options.max_steps = 20;
    let mut schedule = InterruptSchedule::new(vec![once(
        InterruptHandler::Address(0x1100),
        InterruptFrame::Exception,
    )]);
    let mut breakpoints = Breakpoints::new(&[0x1100], LOAD);
    let mut chain = HostChain::new(&mut schedule, &mut breakpoints);
    let execution = run_with_host(&mut memory, LOAD, &mut chain, &options);
    assert_eq!(execution.stop, StopReason::Breakpoint { site: 0x1100 });
    assert_eq!(execution.steps_executed, 3);
    assert_eq!(schedule.delivered().len(), 1);
}

/// Emulates the routine at `$1800`: it doubles D0 and returns.
struct Doubler;

impl Host for Doubler {
    fn passive(&self) -> bool {
        false
    }
    fn claimed(&self, pc: u32) -> bool {
        pc == 0x1800
    }
    fn ticks(
        &self,
        _before: amiga_disasm::host::Point,
        _next: &Self,
        _after: amiga_disasm::host::Point,
    ) -> bool {
        true
    }
    fn answers_call(
        &self,
        _pc: u32,
        _before: amiga_disasm::host::Point,
        _action: HostAction,
        _next: &Self,
        _after: amiga_disasm::host::Point,
    ) -> bool {
        true
    }
    fn answers_trap(
        &self,
        _vector: u8,
        _site: u32,
        _before: amiga_disasm::host::Point,
        _action: Option<HostAction>,
        _next: &Self,
        _after: amiga_disasm::host::Point,
    ) -> bool {
        true
    }
    fn tick<M: HostMemory>(&mut self, _cpu: &mut CpuContext, _memory: &mut M) {}
    fn claims(&self, pc: u32) -> bool {
        pc == 0x1800
    }
    fn on_call<M: HostMemory>(
        &mut self,
        _pc: u32,
        cpu: &mut CpuContext,
        _memory: &mut M,
    ) -> HostAction {
        let doubled = cpu.d(0) * 2;
        cpu.set_d(0, doubled);
        HostAction::ReturnFromCall
    }
    fn on_trap<M: HostMemory>(
        &mut self,
        _vector: u8,
        _site: u32,
        _cpu: &mut CpuContext,
        _memory: &mut M,
    ) -> Option<HostAction> {
        None
    }
}

#[test]
fn an_emulated_call_returns_to_its_caller_and_is_a_step() {
    // MOVEQ #21,D0 ; JSR $1800 ; RTS
    let code = [0x70, 0x15, 0x4e, 0xb9, 0x00, 0x00, 0x18, 0x00, 0x4e, 0x75];
    let (mut memory, options) = sandbox(&code);
    let execution = run_with_host(&mut memory, LOAD, &mut Doubler, &options);
    assert_eq!(execution.stop, StopReason::Returned);
    assert_eq!(execution.registers.d[0], 42);
    assert_eq!(execution.steps_executed, 4);
    assert_eq!(execution.steps.len(), 3);
}

#[test]
fn an_emulated_call_with_no_return_address_faults_there() {
    // JMP $1800 with the stack pointer outside the map.
    let code = [0x4e, 0xf9, 0x00, 0x00, 0x18, 0x00];
    let (mut memory, mut options) = sandbox(&code);
    options.stack_pointer = 0x9000;
    let execution = run_with_host(&mut memory, LOAD, &mut Doubler, &options);
    assert_eq!(
        execution.stop,
        StopReason::Fault {
            fault: Fault {
                address: 0x8ffc,
                access: Access::Read,
                size: 4,
            },
            site: 0x1800,
        }
    );
}

/// Writes a word of its own whenever an exception is raised, and leaves it to the run.
struct Scribbler;

impl Host for Scribbler {
    fn passive(&self) -> bool {
        false
    }
    fn claimed(&self, _pc: u32) -> bool {
        false
    }
    fn ticks(
        &self,
        _before: amiga_disasm::host::Point,
        _next: &Self,
        _after: amiga_disasm::host::Point,
    ) -> bool {
        true
    }
    fn answers_call(
        &self,
        _pc: u32,
        _before: amiga_disasm::host::Point,
        _action: HostAction,
        _next: &Self,
        _after: amiga_disasm::host::Point,
    ) -> bool {
        true
    }
    fn answers_trap(
        &self,
        _vector: u8,
        _site: u32,
        _before: amiga_disasm::host::Point,
        _action: Option<HostAction>,
        _next: &Self,
        _after: amiga_disasm::host::Point,
    ) -> bool {
        true
    }
    fn tick<M: HostMemory>(&mut self, _cpu: &mut CpuContext, _memory: &mut M) {}
    fn claims(&self, _pc: u32) -> bool {
        false
    }
    fn on_call<M: HostMemory>(
        &mut self,
        _pc: u32,
        _cpu: &mut CpuContext,
        _memory: &mut M,
    ) -> HostAction {
        HostAction::Continue
    }
    fn on_trap<M: HostMemory>(
        &mut self,
        _vector: u8,
        _site: u32,
        _cpu: &mut CpuContext,
        memory: &mut M,
    ) -> Option<HostAction> {
        memory.write_word(0x2000, 0xbeef);
        None
    }
}

#[test]
fn what_a_trap_hook_writes_is_in_no_row_and_stops_no_run() {
    // TRAP #0 ; RTS, with a handler that returns at once.
    let (mut memory, mut options) = sandbox(&[0x4e, 0x40, 0x4e, 0x75]);
    memory.write_long(32 * 4, 0x1100).unwrap();
    memory.load(0x1100, &[0x4e, 0x73]).unwrap();
    options.guest_traps = true;
    options.watchpoints = vec![Watchpoint::new(0x2000, 2, WatchAccess::Both).unwrap()];
    options.stop_on_watch = true;
    let execution = run_with_host(&mut memory, LOAD, &mut Scribbler, &options);
    assert_eq!(execution.stop, StopReason::Returned);
    assert_eq!(execution.watch_events_total, 1);
    let row = &execution.steps[0];
    assert!(row.watch_events.is_empty());
    // Only the frame of the trap: the program counter, then the status register.
    let sizes: Vec<u8> = row.writes.iter().map(|write| write.size).collect();
    assert_eq!(sizes, [4, 2]);
    assert!(!row.writes_truncated);
    assert_eq!(memory.writes().len(), 3);
    assert_eq!(memory.slice(0x2000, 2), Some(&[0xbe, 0xef][..]));
}

#[test]
fn rows_are_numbered_up_to_the_cap() {
    // MOVEQ #1,D0 ; MOVEQ #2,D0 ; MOVEQ #3,D0 ; RTS
    let code = [0x70, 0x01, 0x70, 0x02, 0x70, 0x03, 0x4e, 0x75];
    let (mut memory, mut options) = sandbox(&code);
    options.retained_steps = Some(2);
    let execution = run(&mut memory, LOAD, &options);
    assert_eq!(execution.stop, StopReason::Returned);
    let numbers: Vec<usize> = execution.steps.iter().map(|step| step.index).collect();
    assert_eq!(numbers, [0, 1]);
    assert_eq!((execution.steps_traced, execution.steps_executed), (4, 4));
}

#[test]
fn touched_memory_does_not_depend_on_how_it_was_written() {
    let (mut bytes, _) = sandbox(&[]);
    let (mut long, _) = sandbox(&[]);
    for (offset, byte) in [(3, 4), (1, 2), (0, 9), (0, 1), (2, 3)] {
        HostMemory::write_byte(&mut bytes, 0x2000 + offset, byte).unwrap();
    }
    HostMemory::write_long(&mut long, 0x2000, 0x0102_0304).unwrap();
    assert_eq!(touched_regions(&bytes), touched_regions(&long));
    assert_eq!(touched_regions(&long).len(), 1);
}

#[test]
fn every_touched_run_is_what_slice_shows() {
    let mut memory = Memory::new();
    memory.map(0x1000, 0x100).unwrap();
    memory.map(0x1100, 0x100).unwrap();
    memory.load(0x1000, &[7; 8]).unwrap();
    let _ = memory.set_long(0x10fe, 0x1234_5678);
    let _ = memory.set_byte(0x1010, 0xff);
    let _ = memory.set_byte(0x5000, 0xff); // not mapped
    let runs = touched_regions(&memory);
    assert_eq!(runs.len(), 2);
    for run in &runs {
        assert_eq!(
            memory.slice(run.address, run.bytes.len()),
            Some(run.bytes.as_slice())
        );
    }
}

#[test]
fn nothing_has_changed_from_the_memory_itself() {
    let mut memory = Memory::new();
    memory.map(0x1000, 0x100).unwrap();
    let _ = memory.set_long(0x1010, 0x1234_5678);
    assert!(!touched_regions(&memory).is_empty());
    assert!(changed_regions(&memory, &memory, &(0..0)).is_empty());
}

#[test]
fn a_byte_has_changed_where_it_was_touched_and_reads_otherwise() {
    let mut before = Memory::new();
    before.map(0x1000, 0x10).unwrap();
    before.load(0x1000, &[1, 2, 3, 4]).unwrap();
    let mut after = before.clone();
    after.map(0x2000, 0x10).unwrap();
    let _ = after.set_long(0x1000, 0x0109_0309);
    let _ = after.set_byte(0x2000, 0); // not mapped before
    after.load(0x1008, &[5]).unwrap(); // reads otherwise, but nothing wrote it
    let excluded = 0x1003..0x1004;
    let changed: Vec<u32> = changed_regions(&before, &after, &excluded)
        .iter()
        .flat_map(|run| run.address..run.address + run.bytes.len() as u32)
        .collect();
    let touched: Vec<u32> = touched_regions(&after)
        .iter()
        .flat_map(|run| run.address..run.address + run.bytes.len() as u32)
        .collect();
    for address in (0x1000..0x1010).chain(0x2000..0x2010) {
        let expected = touched.contains(&address)
            && !excluded.contains(&address)
            && before.slice(address, 1) != after.slice(address, 1);
        assert_eq!(changed.contains(&address), expected, "{address:#x}");
    }
    assert_eq!(changed, vec![0x1001, 0x2000]);
}

/// A register of two words: it counts the reads and holds what was written.
struct Port {
    base: u32,
    asked: u32,
    held: u32,
}

impl Device for Port {
    fn start(&self) -> u32 {
        self.base
    }
    fn end(&self) -> u32 {
        self.base + 4
    }
    fn state(&self) -> DeviceState {
        unreachable!()
    }
    fn reads(
        &self,
        _addr: u32,
        _size: u8,
        _before: MemoryView,
        _reply: DeviceAccess,
        _next: DeviceState,
        _after: MemoryView,
    ) -> bool {
        true
    }
    fn writes(
        &self,
        _addr: u32,
        _size: u8,
        _value: u32,
        _before: MemoryView,
        _reply: DeviceAccess,
        _next: DeviceState,
        _after: MemoryView,
    ) -> bool {
        true
    }
    fn range(&self) -> Range<u32> {
        self.base..self.base + 4
    }
    fn read(&mut self, addr: u32, size: u8, _memory: &mut DmaMemory) -> DeviceAccess {
        assert!(self.base <= addr && addr + u32::from(size) <= self.base + 4);
        self.asked += 1;
        DeviceAccess::Value(self.held + self.asked)
    }
    fn write(
        &mut self,
        addr: u32,
        size: u8,
        value: u32,
        _memory: &mut DmaMemory,
    ) -> DeviceAccess {
        assert!(self.base <= addr && addr + u32::from(size) <= self.base + 4);
        self.held = value;
        DeviceAccess::Wrote
    }
}

fn port(base: u32) -> Port {
    Port {
        base,
        asked: 0,
        held: 0,
    }
}

#[test]
fn the_device_that_claims_an_access_is_asked_and_no_other() {
    let (memory, _) = sandbox(&[]);
    let mut bus = DeviceBus::new(memory);
    bus.attach(port(0x00e0_0000)).unwrap();
    bus.attach(port(0x00e0_0004)).unwrap();
    assert_eq!(bus.get_word(0x00e0_0000), Some(1));
    assert_eq!(bus.get_word(0x00e0_0002), Some(2));
    // The other one was not asked yet.
    assert_eq!(bus.get_long(0x00e0_0004), Some(1));
    assert_eq!(bus.set_word(0x00e0_0004, 0x100), Some(()));
    assert_eq!(bus.get_byte(0x00e0_0007), Some(2), "the low byte of $102");
    assert_eq!(bus.get_word(0x00e0_0000), Some(3));
    // An access that leaves the range of the device faults, and asks nobody.
    assert_eq!(bus.get_long(0x00e0_0002), None);
    assert_eq!(
        bus.last_fault(),
        Some(Fault {
            address: 0x00e0_0002,
            access: Access::Read,
            size: 4,
        })
    );
    assert_eq!(bus.set_long(0x00e0_0002, 9), None);
    assert_eq!(bus.get_word(0x00e0_0000), Some(4));
    assert_eq!(bus.get_word(0x00e0_0006), Some(0x103));
    // RAM answers for itself.
    assert_eq!(bus.set_byte(0x2000, 7), Some(()));
    assert_eq!(bus.get_byte(0x2000), Some(7));
    assert_eq!(bus.get_word(0x00e0_0000), Some(5));
}

#[test]
fn devices_of_different_types_share_a_bus_as_trait_objects() {
    let (memory, _) = sandbox(&[]);
    let mut bus: DeviceBus<Box<dyn Device>> = DeviceBus::new(memory);
    bus.attach(Box::new(BootRom)).unwrap();
    bus.attach(Box::new(port(0x00e0_0000))).unwrap();
    assert_eq!(bus.get_word(0x00fc_0000), Some(0x7009));
    assert_eq!(bus.get_word(0x00e0_0000), Some(1));
}

#[test]
fn what_a_device_replies_is_what_the_access_comes_to() {
    let (mut ram, _) = sandbox(&[]);
    ram.load(0x2000, &[0x12, 0x34]).unwrap();
    assert_eq!(
        served_read(&mut ram, 0x9000, 2, DeviceAccess::Value(0x000a_bcde)),
        Some(0xbcde)
    );
    assert_eq!(
        served_read(&mut ram, 0x9000, 1, DeviceAccess::Value(0x000a_bcde)),
        Some(0xde)
    );
    assert_eq!(
        served_read(&mut ram, 0x2000, 2, DeviceAccess::NotMine),
        Some(0x1234)
    );
    assert_eq!(ram.last_fault(), None);
    for reply in [DeviceAccess::Wrote, DeviceAccess::Fault] {
        ram.clear_fault();
        assert_eq!(served_read(&mut ram, 0x9000, 4, reply), None);
        assert_eq!(
            ram.last_fault(),
            Some(Fault {
                address: 0x9000,
                access: Access::Read,
                size: 4,
            })
        );
    }
    let logged = ram.writes().len();
    assert_eq!(
        served_write(&mut ram, 0x9000, 2, 0x55, DeviceAccess::Wrote),
        Some(())
    );
    assert_eq!(
        ram.writes()[logged..],
        [MemoryWrite {
            address: 0x9000,
            size: 2,
            value: 0x55,
        }]
    );
    assert_eq!(
        served_write(&mut ram, 0x2000, 2, 0x4321, DeviceAccess::NotMine),
        Some(())
    );
    assert_eq!(ram.slice(0x2000, 2), Some(&[0x43, 0x21][..]));
    for reply in [DeviceAccess::Value(1), DeviceAccess::Fault] {
        ram.clear_fault();
        assert_eq!(served_write(&mut ram, 0x9000, 1, 1, reply), None);
        assert_eq!(
            ram.last_fault(),
            Some(Fault {
                address: 0x9000,
                access: Access::Write,
                size: 1,
            })
        );
    }
}

#[test]
fn a_program_has_the_answers_of_its_devices() {
    // MOVE.W ($00e00000).L,D0 ; MOVE.W D0,($00e00002).L ; MOVE.W ($00e00000).L,D1 ; RTS
    let code = [
        0x30, 0x39, 0x00, 0xe0, 0x00, 0x00, 0x33, 0xc0, 0x00, 0xe0, 0x00, 0x02, 0x32, 0x39, 0x00,
        0xe0, 0x00, 0x00, 0x4e, 0x75,
    ];
    let (memory, mut options) = sandbox(&code);
    options.data[0] = 0xffff_0000;
    let mut bus = DeviceBus::new(memory);
    bus.attach(port(0x00e0_0000)).unwrap();
    let execution = run_with_host(&mut bus, LOAD, &mut NoHost, &options);
    assert_eq!(execution.stop, StopReason::Returned);
    assert_eq!(execution.registers.d[0], 0xffff_0001);
    assert_eq!(execution.registers.d[1], 1 + 2);
    // The device is where the program left it.
    assert_eq!(bus.get_word(0x00e0_0000), Some(1 + 3));
}

#[test]
fn an_interrupt_is_delivered_exactly_where_no_device_is_reached() {
    // loop: BRA.S loop, with a handler at $1100 that is RTE.
    for attached in [false, true] {
        let (mut memory, mut options) = sandbox(&[0x60, 0xfe]);
        memory.load(0x1100, &[0x4e, 0x73]).unwrap();
        memory.write_long(0x6c, 0x1100).unwrap();
        options.max_steps = 6;
        let mut bus = DeviceBus::new(memory);
        if attached {
            bus.attach(port(0x00e0_0000)).unwrap();
        }
        let mut schedule = InterruptSchedule::new(vec![once(
            InterruptHandler::Vector(27),
            InterruptFrame::Exception,
        )]);
        let execution = run_with_host(&mut bus, LOAD, &mut schedule, &options);
        assert_eq!(execution.stop, StopReason::StepLimit);
        assert_eq!(
            schedule.delivered(),
            [InterruptDelivery {
                index: 0,
                step: 3,
                handler: 0x1100,
                resume: LOAD,
            }]
        );
    }
    // A vector that a device holds is the device's to say.
    let mut memory = Memory::new();
    memory.map(0x1000, 0x2000).unwrap();
    memory.load(LOAD, &[0x60, 0xfe]).unwrap();
    let mut options = RunOptions::new(0x2ffc, MARKER);
    options.max_steps = 6;
    let mut bus = DeviceBus::new(memory);
    bus.attach(Port {
        base: 0x6c,
        asked: 0,
        held: LOAD - 1,
    })
    .unwrap();
    let mut schedule = InterruptSchedule::new(vec![once(
        InterruptHandler::Vector(27),
        InterruptFrame::Subroutine,
    )]);
    let _ = run_with_host(&mut bus, LOAD, &mut schedule, &options);
    assert_eq!(schedule.delivered().len(), 1);
    assert_eq!(schedule.delivered()[0].handler, LOAD);
}

#[test]
fn a_split_run_agrees_whatever_is_watched_and_however_many_rows_are_kept() {
    // MOVEQ #0,D0 ; loop: ADDQ.L #1,D0 ; MOVE.L D0,(A0)+ ; CMPI.W #6,D0 ; BNE.S loop ; RTS
    let code = [
        0x70, 0x00, 0x52, 0x80, 0x20, 0xc0, 0x0c, 0x40, 0x00, 0x06, 0x66, 0xf6, 0x4e, 0x75,
    ];
    for cap in [None, Some(0), Some(1), Some(4), Some(9)] {
        for record in [false, true] {
            let set_up = || {
                let (memory, mut options) = sandbox(&code);
                options.address[0] = 0x2000;
                options.record_steps = record;
                options.retained_steps = cap;
                options.retained_watch_events = 2;
                options.watchpoints = vec![Watchpoint {
                    start: 0x2004,
                    end: 0x200c,
                    access: WatchAccess::Both,
                }];
                (memory, options)
            };
            let (mut whole_memory, options) = set_up();
            let whole = run(&mut whole_memory, LOAD, &options);
            assert_eq!(whole.stop, StopReason::Returned);
            assert_eq!(whole.watch_events_total, 2);
            for first in 1..whole.steps_executed {
                let (mut memory, mut options) = set_up();
                options.max_steps = first;
                let earlier = run(&mut memory, LOAD, &options);
                assert_eq!(earlier.stop, StopReason::StepLimit);
                options.resume = Some(earlier.registers);
                options.max_steps = 100;
                let later = run(&mut memory, earlier.registers.pc, &options);
                assert_eq!(later.stop, whole.stop);
                assert_eq!(later.registers, whole.registers);
                assert_eq!(first + later.steps_executed, whole.steps_executed);
                assert_eq!(memory.slice(0, 0x3000), whole_memory.slice(0, 0x3000));
            }
        }
    }
}

#[test]
fn a_machine_that_does_not_print_has_stepped_past_a_refused_opcode() {
    // JMP $4000, which is not mapped.
    let code = [0x4e, 0xf9, 0x00, 0x00, 0x40, 0x00];
    let refused = StopReason::Fault {
        fault: Fault {
            address: 0x4000,
            access: Access::Read,
            size: 2,
        },
        site: 0x4000,
    };
    for (cap, pc) in [(Some(2), 0x4000), (Some(1), 0x4002), (None, 0x4000)] {
        let (mut memory, mut options) = sandbox(&code);
        options.retained_steps = cap;
        let execution = run(&mut memory, LOAD, &options);
        assert_eq!(execution.stop, refused);
        assert_eq!(execution.registers.pc, pc);
        assert_eq!(execution.steps_executed, 2);
    }
    // Split behind the jump, the second run prints the instruction that is refused.
    let (mut memory, mut options) = sandbox(&code);
    options.retained_steps = Some(1);
    options.max_steps = 1;
    let earlier = run(&mut memory, LOAD, &options);
    assert_eq!(earlier.stop, StopReason::StepLimit);
    options.resume = Some(earlier.registers);
    let later = run(&mut memory, 0x4000, &options);
    assert_eq!(later.stop, refused);
    assert_eq!(later.registers.pc, 0x4000);
}
