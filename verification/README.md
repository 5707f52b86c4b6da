# fortec_mir

The machine end of the fortec compiler, verified with Verus: what a type
takes in memory, how a MIR body is written out as a list, where its
registers go, how its frame is laid out, and the assembly three machines
(x86-64, aarch64, riscv64) are given for it.

## Layout

- `src/` -- the library, every function in it verified:
  - `mir_nodes`, `ttir` -- the MIR and the typed program it is made from;
  - `machine` -- the three machine descriptions, each proved consistent;
  - `layout`, `shape`, `runtime` -- sizes and offsets, type descriptors,
    runtime names;
  - `verify` -- the MIR checker;
  - `linear` -- edge splitting, phis written as moves, blocks in reverse
    postorder;
  - `regalloc` -- linear scan;
  - `text` -- the readable listing;
  - `emit` and `emit/*` -- argument passing, move ordering, symbols, the
    pool and data, and the three emitters, with `emit::render` for a whole
    program;
  - `fixture` -- building MIR bodies by hand, for tests;
  - `spell` -- writing numbers and names.
- `tests/` -- the tests, on bodies built by hand with `fixture`.
- `app/` -- what is not verified: finding the host machine, and handing a
  listing to an assembler to see whether it takes it.

## What is not here

The passes before MIR -- lowering the SIR to MIR, monomorphisation and the
parser -- belong to the compiler's front end (`sir`, `tir`, `sema`, `lex`),
which this crate does not contain. The library starts from a MIR program,
however it was made; the tests make theirs with `fixture`.

An argument that would be passed on the stack is not written by any of the
emitters: a call with more arguments than there are argument registers is
refused with a complaint, and such a parameter is left where it arrived.
