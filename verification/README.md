# sierra_generator

Generates Sierra code for the blocks of a lowered function, with contracts that Verus proves.

* `block_generator` generates the code of blocks and statements.
* `code` says what code a lowered function stands for. The contracts of `block_generator` are
  stated over it.
* `names` and `context` hold the names that the generated code gives to variables and blocks.
* `lowering`, `lifetime`, `libfunc` and `pre_sierra` are the data: what is read and what comes out.
* `ordered_map` is the map that keeps the order of its keys.
* `outside` holds what is taken from other crates.
* `growth` and `depth` show that names only grow, and that the code of a block does not depend on
  how deep it is looked for. `trail` says which blocks are generated for a block.
* `laws`, `block_laws`, `reach_laws`, `label_laws`, `match_label_laws`, `outcome_laws` and
  `count_laws` state what holds of all generated code.
