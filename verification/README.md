# analyssa

A verified optimizer for programs in static-single-assignment form. The library is generic over the
instruction set (`target::Target`): it copies references to types, methods and fields, and never
looks inside them.

- `src/ir`: functions, blocks, operations, phi nodes, variables and constants; repair of a changed
  function, and its roll-back where the change leaves it ill-formed.
- `src/analysis`: reachability, dominators and natural loops, liveness, definitions and uses, value
  ranges, constant evaluation, how well a function is formed, and what operations compute in 64-bit
  registers.
- `src/passes`: block merging, control-flow simplification, copy propagation, dead-code and
  dead-method elimination, value numbering, hoisting out of loops, loop canonicalization, opaque
  predicates, value ranges, algebraic identities, reassociation, strength reduction and jump
  threading; and the rebuilding of functions that assign a variable more than once.
- `src/scheduling`: the pipeline that puts passes into layers by the milestones they reach and rely
  on, runs each layer until nothing changes, and normalizes in between. It tells every pass when a
  round begins and ends, and repairs what a pass leaves.
- `src/target`, `src/pointer.rs`: byte order, vector shapes and pointer widths.
- `src/testing`: a small instruction set, a small program and sample functions.
- `app`: dispatch of passes to threads, logging, and types that can be serialized.

The functions state in their `ensures` what they return and what they change. What depends on the
byte order of the machine is stated for whichever order that is. Each pass has
a specification that gives the function it leaves, the events it reports and whether it counts as a
change; the laws that relate these are public `proof fn`s next to them.

Two things are trusted: `u16::to_ne_bytes`, which tells the byte order of the machine, and the set of
the `dashmap` crate in which the pipeline keeps the methods that an iteration changed.
