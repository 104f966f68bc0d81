# high_level_caiman

The front end of the high-level Caiman language, verified with Verus: source
locations and errors, the AST and the factory the grammar builds it with, the
normalization passes over the AST, and the graph analyses used when building
control flow graphs.

## Layout

- `src/` — the verified library.
  - `text`, `error`, `parse`: decimal text, error values and their messages,
    and the conversion of parser failures into syntax errors.
  - `ast`, `ast_factory`: the AST and its constructors, with line and column
    computation, constant checks and spec/schedule conversions.
  - `rational`, `fractional`: fractions in lowest terms and fractional multisets.
  - `cfg`, `dominators`, `continuations`: CFG shapes, dominator trees and
    dominance frontiers, reachability, shortest paths and merge points; and the
    removal of nested blocks from statements.
  - `if_to_seq`, `flatten`, `sched_rename`, `yields`, `normalize`: the
    normalization passes and the pass that runs them all over a program.
  - `lower`: names of operators and FFI types used when lowering.
  - `name_set`, `hir`, `dataflow`, `analysis`, `tags`: the high-level IR of
    basic blocks with the variables each instruction defines and reads; the
    live-variable, reaching-definition, active-fence and tag facts with their
    meets and transfer functions; and the worklist analyses over a CFG of such
    blocks. The live-variable result is proved to be the least solution of the
    liveness equations, and each reaching-definitions entry fact is proved to
    be the start fact met with the exit facts of the reached predecessors.
- `tests/` — tests of the library.
- `app/` — the command line driver (argument handling and file reading).
