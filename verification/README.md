# pliron_clif

Converts Cranelift IR functions into pliron's IR.  The conversion into a model of
pliron's IR is verified by Verus; building the pliron IR from the model (`app/`) is
not.

A Cranelift `Function` is first read into a plain model (`ClifFunction`), entity by
entity, through Cranelift's own accessors.  The conversion then builds a model of
pliron's IR (`ir::Context`: arenas of operations, blocks and regions, with the placement
of operations in blocks and of blocks in regions).  Two strategies are offered:

* `convert_function` walks the blocks in layout order and converts, and caches, the
  definition of an operand on demand when it has not been converted yet, so that every
  instruction and block is converted once;
* `convert_function_w_rpo` walks the blocks in reverse post-order of the control-flow
  graph, taking every definition from the cache.

Every operation the conversion creates is proved to stand for its Cranelift
instruction (same kind, operands standing for its arguments), and the body of the
converted function is proved to list the blocks and instructions in the order of the
walk.  When every definition comes before its uses in the walk (which the reverse
post-order strategy requires), everything created is placed, and every operand is
defined at an earlier point of the walk.  The conditions under which a function can be
converted are decided by verified checks (`check`, `driver`), so the entry points never
panic: they return `ConvertError::Unsupported` instead.

## Layout

* `src/` — the verified library.
  * `clif.rs`: the model of a Cranelift function; `cranelift.rs`: reading it from
    `cranelift_codegen`.
  * `ir.rs`: the model of pliron's IR; `ops.rs`: the `clif` dialect's operations and
    `builtin.func` over it.
  * `convert.rs`: conversion of types, blocks, values and instructions, and the
    conversion context; `function.rs`: conversion and placement of whole functions.
  * `check.rs`, `driver.rs`: deciding whether a function can be converted, and the
    entry points.
  * `names.rs`, `fxmap.rs`: block labels and identifiers, and the `FxHashMap` caches.
* `app/` — the pliron side: the `clif` dialect's operations defined with pliron's
  macros, their registration, and the construction of pliron IR from the model.
* `tests/` — tests, parsing CLIF text with `cranelift-reader`.
