# drop_specialization

A compiler pass over reference counted programs, written and proved in Verus. It looks for
increments of symbols that are followed by decrements of the symbol they were indexed out of,
inlines the decrement of the parent, and removes matching pairs of increments and decrements.

- `src/symbol.rs`, `src/layout.rs`, `src/ir.rs`: the programs.
- `src/arena.rs`: the arena that holds them, with what is believed of the `bumpalo` crate.
- `src/environment.rs`: what the pass knows at a point of a program.
- `src/rewriting.rs`: what a statement becomes, as a specification.
- `src/drop_specialization.rs`: the pass, proved to do that. It starts at `specialize_drops`.
- `src/laws/`: what holds of the pass as a whole: that it keeps counts balanced, changes nothing
  but reference counting, stays in scope, adds no increment of any symbol, needs no second pass
  where nothing is indexed, and succeeds on programs that decrement only what is in scope.

`specialize_drops` asks that the pass is defined on the procedures. For programs in scope,
`laws::definedness::ready_programs_are_rewritten` shows that it is.
