# hoi4_build_core

A verified core for planning factory builds: nodes with factory slots,
actions that build, convert or raise infrastructure, and an A* search over
joint states.

- `src/` is the library, verified with Verus: the domain model
  (`domain`), problem input (`instance`), heuristic bounds (`heuristic`),
  the reference-counted state pool and its open set (`state_pool`,
  `heap_growth`, `non_max_usize`), pieces of the search loop (`search`),
  progress labels (`display`), and properties stated and proved across
  calls (`laws`).
- Costs inside the library are `u64` keys that sort as the `f64` costs do;
  bounds are described exactly (a base and a denominator, or a list of
  terms) rather than as floats.
- `app/` holds what works in floating point (the search loop, the exact
  solver for tiny instances, bound values) and the Python bindings.
- `tests/` exercises the library from outside.

## What the heuristic laws say, and where they stop

- The lower bound is consistent (`h(s) <= c(s, s') + h(s')`) for every
  action but a civilian build, and for civilian builds toward a military
  target when the civilians already cover the missing units or the empty
  slots exceed them (`laws::law_lower_bound_consistent`). It is not
  consistent in general: one node with 10 slots and 1 civilian, target 10
  military, gives `h = 34400` before a civilian build costing 10800 and
  `h = 16400` after it.
- Hence the lower bound is admissible over plans made of such steps
  (`laws::law_lower_bound_admissible_over_consistent_steps`), but not in
  general: one node with 100 empty slots and target 99 military gives a
  bound of 356400, while building civilians first and converting costs
  about 83600.
- The lower bound is at most the upper bound
  (`laws::law_lower_bound_at_most_upper_bound`).

## What the pool does not offer

The pool hands out no mutable access to its slots, its cost table, its
parent links, its heap or its heap bound. Such access would let a caller
break the bookkeeping that the pool's invariant and `PoolModel::accounted`
describe; every change goes through the pool's own operations.
