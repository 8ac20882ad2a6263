# amiga_disasm

Static analysis and sandboxed execution of MC68000 code, as a verified library.

The library decodes machine code, follows its control flow, and reports what it can
prove of it: functions and calls, stack frames and register interfaces, register values,
fixed-point idioms, data regions, custom-chip accesses and library calls. It also runs
code in a bounded memory sandbox, under a policy that may emulate calls, deliver
interrupts and stop at breakpoints.

## Layout

- `src/` is the library. Verus checks every function, and every public one carries a
  contract. Contracts speak of mathematical views: maps of addresses, sets of edges,
  sequences of rows.
  - `m68k`, `decoded`, `relocation`: instructions, their operands, and what patches them.
  - `analysis`, `control_flow`, `jump_tables`, `data_tables`, `traverse`, `soundness`: the
    traversal of an image, and what holds of its result.
  - `blocks`, `dataflow`, `fixpoint`: forward analyses over basic blocks.
  - `values`, `register_write`, `constants`: exact and symbolic register values.
  - `effects`, `stack`, `function`: register effects, stack frames, function signatures.
  - `globals`, `access`, `derived`, `data`, `fixed_point`, `callgraph`, `abi`, `fd`, `lvo`:
    reports over an analysis, and the tables they are read with.
  - `memory`, `bus`, `device`, `registers`, `host`, `interrupts`, `interpreter`, `execute`,
    `resume`: the sandbox, its run loop, and running on from where a run stopped.
  - `collections`, `text`: ordered sets and maps, and strings.
- `tests/` runs the library.
- `app/` holds serializable copies of the library's types, and their error texts.

## What is trusted

The instruction decoder, its printer and the interpreter come from the `m68000` crate. The
library calls them through a few small functions, in `m68k` and `interpreter`, whose
contracts are not proved: they name the result, and of the interpreter which access it
makes next, given the answers that it had. So is one standard function on strings, in
`text`. Everything else is proved from these.

## Laws

Properties that span functions are public proof functions beside the functions that they
are about: for instance that an analysis is sound and complete (`soundness`), that a walk
that comes to rest is at a fixpoint (`fixpoint`), that reads give back writes (`memory`),
that a run resumed where another stopped continues it (`execute`, `resume`), and that interrupts
never nest (`interrupts`).
