# hkt

Type families (`A ↦ Option<A>`, `A ↦ Tree<A>`, `A ↦ Validity<A, E>`) with `Functor`,
`Pure`, `Applicative`, `Monad` and `Traverse` operations, verified with Verus.

- `src/trait_aliases.rs`: `Callable`, the ways a function is handed over and called
  (`CallOnce`, `CallMut`, `Call`), each with the pre- and postcondition of the call.
- `src/stable.rs`: the family traits and their contracts over relations between
  elements (`lift_a2` is stated as the value that pairs up the elements of its
  arguments, mapped with the function), and `SemiGroup` for `Vec`, `String` and `()`.
- `src/stable/{option,tree,validity}.rs`: the three families, the contracts that each
  states of its own operations, and their laws (identity, composition, associativity,
  how trees are combined, how a traversal with options or with validity values succeeds
  or fails and which errors it gathers). A traversal with any other applicative family
  is stated through that family's own contract for `map` and `lift_a2`.
- `src/tree.rs`, `src/validity.rs`: the data types, and for trees the spec model that
  the contracts use, with the laws of its functions (`tree_map`, `tree_bind`,
  `tree_lift`) and how each relational contract reduces to them when the function
  given is deterministic.
- `app/lib.rs`: traversal through iterators and the `tree!` / `do_notation!` macros.
