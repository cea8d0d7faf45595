# oxitortoise

Parts of a NetLogo engine that compiles models to WebAssembly, written in
Verus with their behaviour stated in contracts and proved.

`src/` is the verified library:

- `row_buffer`, `reflection`, `layout`: rows of a fixed schema stored one
  after another, with an occupancy bitfield per row and memory layouts
  computed as `std::alloc::Layout` does.
- `stackify`, `stackify_generic`, `stackify_lir`: placing operand stack
  manipulators (getters and captures) so that a sequence of instructions runs
  on a stack machine, and `verify_stackification`, which runs a placement on
  a simulated stack machine. `stackify_correctness` proves that, on
  well-formed sequences, the placement `stackify` computes always runs.
- `lir`: the low-level intermediate representation and its type rules.
- `lir_interp`: an interpreter for LIR functions as a state machine, one
  instruction per step, handing memory, floating point and calls to its
  caller as actions.
- `shuffle_iterator`, `rng`, `mersenne_twister`: random draws.
- `pretty_print`, `dyn_type`, `dyn_ptr`, `lifetime_ptr`: printing nested
  structures, shapes of values, pointers projected along those shapes, and
  addresses tied to a borrow.
- `ffi_translate`, `install`, `mir_builder`: the interfaces for passing values
  across a foreign function boundary, installing programs, and building them.

`app/` holds what stays outside the proofs: draws that repeat until one is
accepted, floating point draws, formatting through `Debug`, and the driver of
the LIR interpreter, which performs its memory, floating point and call
actions.
