# lib — verified IR, optimiser and assembler parts of an Intel 8080 C compiler

The crate holds the intermediate representation of the compiler, its
optimiser, the call-graph analysis that lays out static storage, the
clean-up of the generated assembly text and the assembler behind the
listing file.  The functions are verified with Verus against contracts
stated over mathematical models of the IR; a few small string helpers in
`text` and `opt::memory` call the standard library behind trusted
contracts.  The lowering of the AST to IR and the instruction selection
of the code generator are not part of this crate: they depend on a
register allocator, a runtime library and type rules that lie outside it.

Layout of `src/`:

- `types`, `ast`, `ir` — C types, the AST items the IR refers to, and the
  three-address IR with its constructors and allocators.
- `maps` — small association maps with distinct keys, and chains through a map.
- `text` — string helpers (decimal numerals, prefixes, concatenation).
- `opt` — the optimiser: one module per family of passes (`fold`, `simplify`,
  `local`, `memory`, `narrow`, `basic`, `loops`, `induction`, `unroll`,
  `inline`, `specialize`) and `pipeline`, which states each round of local
  passes, the per-function fixed point and the whole-program schedule as the
  composition of the passes' own contracts.
- `callgraph` — recursion detection and the static allocation of globals,
  parameters and locals.
- `codegen` — the jump clean-up of the generated assembly text, the data
  section (globals, string literals, spill slots, static frames) and the
  stand-alone analyses of the code generator.
- `emit` — the 8080 assembler used for listings: expressions, instruction
  encoding and the two-pass layout of a listing.

`app/` holds the parts that touch the process: the profile chosen by the
environment and writing a listing file.  `tests/` exercises the library on
concrete programs.
