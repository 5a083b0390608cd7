# PubGrub, verified

Version solving by conflict-driven search, with enumeration of Pareto-maximal solutions. The library
under `src/` is verified with [Verus](https://github.com/verus-lang/verus): its functions state what
they return and what they tell an observer, and the proofs are checked against these statements.

## What is proved

- `resolve` returns a solution exactly when there is one, and otherwise a derivation tree that
  refutes every selection of the root package at its version. The solution holds only what is
  needed, unless an incompatibility asks for one of several packages.
- `resolve_maximal_solutions` returns solutions that nothing dominates and that speak for all
  others; for a total preorder of versions they are the whole Pareto front.
- `resolve_minimal_change_solutions` returns the maximal solutions for each maximal set of
  preferences that can be preserved.
- `resolve_factored_preference_solutions` returns the front of each component; where components are
  not coupled, the product of these fronts is the front of all preferences.
- An error is one that the provider raised, and a resolution goes on only where the provider lets
  it.
- Observers are told of the path that is taken: choices, decisions and what discards them, complete
  runs and probes with their outcomes, and derivation trees only where they ask for them. Whoever is
  told of everything can retrace the steps of the solver, and each event is one that can happen after
  them.
- Solutions are returned in the order in which they are announced, each of them made by the decisions
  in force at that point.
- Combinations of preferences are tried depth first, none of them twice, and only preferences that a
  proof of failure blames are given up.
- What a decided version requires is derived before the next package is chosen. Of the packages that
  must be selected the one of highest priority is chosen, and of equal ones the one that was narrowed
  first.
- Where the provider's answers depend on their arguments alone, a resolution and an enumeration are
  functions of what they are asked: they return the same and tell of the same choices and decisions,
  whoever observes them.
- The searches terminate.

Which of several solutions is found, and in which order, depends on the provider's priorities and
choices.

## Layout

| Module | Contents |
| --- | --- |
| `package`, `version`, `version_set`, `ranges`, `term` | names, versions and sets of versions |
| `provider`, `priority`, `offline` | where dependencies come from, and what is decided first |
| `problem`, `report`, `error` | what a solution is, and why there may be none |
| `search`, `progress`, `state`, `choice`, `tracker`, `run` | the search |
| `machine`, `course`, `ascent` | the search and the enumeration as functions, step by step |
| `observer`, `path`, `trace`, `statistics` | what the search tells its caller |
| `ordering`, `finite`, `maximal` | maximal solutions |
| `preference`, `attempts`, `front`, `factored` | preferences, and products of independent ones |
| `residual` | what is left of a problem after unit propagation |
| `solver` | the entry points |
| `laws` | what holds of the enumerations as a whole |

`app/` holds what goes around the library: serialization and logging.
