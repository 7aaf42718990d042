# qsc_rir_verified

The runtime intermediate representation (RIR) of a quantum compiler back end, with the passes
that work on it, the runtime capability analysis, and the pieces of partial evaluation that
work on plain values, written in Verus and proved against their contracts.

## Layout

- `src/rir.rs`: the RIR itself (programs, callables, blocks, instructions, operands).
- `src/index_map.rs`: the map from dense ids to values that programs are built from.
- `src/fx.rs`: hash maps and sets over the Fx hasher of `rustc-hash`, behind trusted wrappers.
- `src/utils.rs`: the control flow graph (successors, reachability, predecessors) and the
  rewriting of variable uses.
- `src/remap_block_ids.rs`: renumbers blocks contiguously, in topological order when the
  graph is acyclic.
- `src/ssa_transform.rs`: replaces stores by SSA values and phi nodes.
- `src/insert_alloca_load.rs`: gives stored variables explicit allocations and loads.
- `src/rca.rs`: runtime features, compute kinds and the capabilities they need.
- `src/target.rs`: target capabilities and profiles.
- `src/partial_eval.rs`: folding of unary and binary operations on literals, the instructions
  emitted for operations on dynamic operands, the dispatch of intrinsic calls, and whether a
  callable is emitted as an IR function.
- `src/builder.rs`: declarations of the common intrinsics and sample programs.
- `tests/`: the behaviour of the passes and analyses on concrete programs.
- `app/`: the textual form of programs, and entry points that check the passes' assumptions
  at run time before calling them.
