//! Static analysis and sandboxed execution of MC68000 code.

pub mod abi;
pub mod access;
pub mod analysis;
pub mod blocks;
pub mod bus;
pub mod callgraph;
pub mod clamps;
pub mod collections;
pub mod constants;
pub mod control_flow;
pub mod data;
pub mod data_tables;
pub mod dataflow;
pub mod decoded;
pub mod dependence;
pub mod derived;
pub mod device;
pub mod dispatches;
pub mod effects;
pub mod exactness;
pub mod execute;
pub mod fd;
pub mod fixed_point;
pub mod fixpoint;
pub mod flow_index;
pub mod frames;
pub mod function;
pub mod globals;
pub mod host;
pub mod interpreter;
pub mod interrupts;
pub mod jump_tables;
pub mod layout;
pub mod lvo;
pub mod m68k;
pub mod machine;
pub mod meaning;
pub mod memory;
pub mod places;
pub mod previews;
pub mod promises;
pub mod register_write;
pub mod registers;
pub mod relocation;
pub mod resume;
pub mod scales;
pub mod sharing;
pub mod signatures;
pub mod soundness;
pub mod stack;
pub mod text;
pub mod tracking;
pub mod transfers;
pub mod traverse;
pub mod unwinding;
pub mod uses;
pub mod values;
pub mod watching;
pub mod wording;

pub use abi::{AbiArgument, ArgumentType, NamedConstant};
pub use access::{register_accesses, AccessForm, RegisterAccess};
pub use analysis::{
    CallEdge, ControlFlowAnalysis, ExternalFlow, ExternalKind, FlowEdge, FlowKind, UnresolvedFlow,
};
pub use bus::{Bus, HostMemory};
pub use callgraph::{callgraph, callgraph_from_edges, CallGraph, CallGraphEdge, CallGraphNode};
pub use constants::{constant_before, parse_register, ValueOptions};
pub use control_flow::FlowOptions;
pub use data::{
    DataPreview, DataRegion, DataScan, DisputedTarget, TargetConflict, MAX_DATA_REGION,
    MAX_PREVIEW_TEXT, MAX_PREVIEW_VALUES,
};
pub use decoded::DecodedInstruction;
pub use derived::{derived_accesses, DerivedAccess, DerivedTarget};
pub use device::{Device, DeviceAccess, DeviceBus};
pub use execute::{run, run_with_host, Execution, RunOptions, Step};
pub use fixed_point::{
    clamp_hints, fixed_point_hints, fixed_point_scales, ClampHint, ClampKind, FixedPointHint,
    FixedPointKind, FixedPointScale,
};
pub use function::{
    function_signatures, FunctionInput, FunctionOutput, FunctionRegister, FunctionSignature,
    RegisterLanes,
};
pub use globals::{absolute_accesses, global_accesses, AbsoluteAccess, AccessKind, GlobalAccess};
pub use host::{Breakpoints, Host, HostAction, HostChain, NoHost, StopReason};
pub use interrupts::{
    InterruptDelivery, InterruptFrame, InterruptHandler, InterruptSchedule, ScheduledInterrupt,
};
pub use lvo::{is_library_call_mode, library_call, LibraryCall};
pub use memory::{
    changed_regions, touched_regions, Access, AccessSource, Fault, Memory, MemoryAccessEvent,
    MemoryError, MemoryWrite, TouchedRegion, WatchAccess, Watchpoint,
};
pub use registers::{CpuContext, Register, RegisterDelta, RegisterFile};
pub use relocation::{Rebase, Relocation, Relocations};
pub use stack::{FrameStyle, FunctionReturn, StackSlot, StackSlotKind};
pub use traverse::{analyze, analyze_entries, analyze_entries_cancellable, analyze_entries_with};
pub use values::{ConstantValue, RegisterKind, Unresolved};
