# mincaml

The x86-64 code emitter of a MinCaml compiler back end, verified with Verus.

- `src/x86/ir.rs`: the register-allocated intermediate code (`Asm`, `Exp`, `Fundef`, `Prog`).
- `src/x86/instr.rs`: machine registers and instructions, with register names.
- `src/x86/moves.rs`: parallel moves, their sequential execution, and the proof that
  register shuffling sequentialises a parallel move.
- `src/x86/emit.rs`: the stack frame (`StackState`), operand text, register shuffling
  (`shuffle`), and emission of instructions, functions and whole programs (`f`).
- `src/id.rs`, `src/syntax.rs`: labels, identifier generation, source types.

Emission covers every instruction of the intermediate code: constants, moves and
arithmetic on integers and floats, loads and stores, direct and closure calls (with their
arguments placed by register shuffling), saves and restores of variables in the stack
frame, and conditionals with fresh labels, in tail position and into a register. The
contracts of the emitting functions leave out calls with more arguments than registers,
restores into a name that is no register, and frames or label counters past their limits.

The stack frame keeps its saved variables in a `Vec<String>` that never holds a name twice,
in place of a hash set: Verus proves facts about the vector's contents, while for a hash
set keyed by strings it offers no specification that would carry these proofs.
