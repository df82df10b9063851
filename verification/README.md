# A verified proof kernel for the Calculus of Constructions

This library is a proof kernel for the Calculus of Constructions with
inductive types, written and verified with Verus. Terms are identifiers,
applications `A B`, abstractions `λx:A.B`, products `∀x:A.B`, fixed points
`𝐘x:A.B` and constructor terms `℺A.B`. The kernel normalizes terms, infers
their types and records definitions in a `State` once their stated types are
checked.

Every executable function carries a contract over a mathematical model of
terms (`Tm`, see `term.rs`), and the typing rules are stated as spec functions
(`rules.rs`) that `infer_type` and `try_define` are proved to follow exactly.

## Layout of `src/`

- `term.rs`: terms, debug contexts, the model `Tm`, free occurrences, equality
  up to debug contexts.
- `subst.rs`: capture-avoiding substitution (`replace`) and facts about the
  free identifiers of its result.
- `reduce.rs`: β-, η- and fixed point reduction, normalization and
  α-normalization.
- `state.rs`: the state of definitions, δ-reduction and `try_define`.
- `inductive.rs`: shapes of terms used by the rules for inductive types and
  recursive functions (strict positivity, structural decrease).
- `matching.rs`: the type of a match term on an inductive type.
- `rules.rs`: the typing rules as spec functions.
- `infer.rs`: type inference, proved to follow `rules.rs`.
- `nameless.rs`: terms up to the names of their binders (α-equivalence).
- `renaming.rs`: reductions and normalization do not depend on the names of
  binders.
- `display.rs`: the notation of terms as text.
- `names.rs`: decimal suffixes and universe levels.
- `error.rs`: the errors of the kernel and their model.
- `laws.rs`: properties that hold across the kernel's operations.

The tests under `tests/` exercise the library on concrete terms.
