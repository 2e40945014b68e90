# analyzer

A verified analysis of Eve programs.  Each block of a program is a list of
constraints; the analyzer works out the domain of every register (a number
interval, a string, a record, ...), which tag and attribute pairs each block
reads and writes, and from those the chains of blocks that can trigger one
another, which it then prunes to the followers whose inputs can actually meet
what their parent produces.

Numbers are binary64 values held as their bit patterns.  Comparisons on them
are worked out in integers inside the library; the arithmetic (add, subtract,
multiply, divide) is handed in as closures, so every contract holds for any
well-behaved operation and the float code itself stays outside.

Layout:

- `src/number.rs`: the order of encoded numbers.
- `src/bound.rs`, `src/domain.rs`: interval ends and domains, their merging,
  intersection and arithmetic.
- `src/program.rs`: blocks, constraints, fields and interned values.
- `src/tables.rs`: the maps the analysis keeps, each remembering the order in
  which its keys came.
- `src/block_info.rs`: what is learnt of one block (tags, register domains,
  inputs and outputs).
- `src/analysis.rs`, `src/optimize.rs`: building the chains and pruning them.
- `src/dot.rs`: the chains and the block graph in the DOT language.
- `src/laws.rs`: laws of domains and bounds.
- `app/`: the float closures and the printing of bounds with float values.
