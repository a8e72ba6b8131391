# fabula

Incremental pattern matching over temporal graphs, verified with Verus.

Patterns are ordered stages of edge clauses with joins on shared variables,
explicit Allen-relation constraints (with optional metric gaps), negation
windows and unordered groups. The sift engine tracks partial matches as
edges arrive and reports advancements, completions, negations and expiries;
patterns can also be evaluated in batch against a graph snapshot, and a gap
analysis explains why a pattern has not matched.

Layout:

- `src/` — the verified library: Allen interval algebra (`interval`), value
  constraints and the `DataSource` trait (`datasource`), an association-list
  map keyed by strings (`strmap`), pattern types, builders and composition
  (`pattern`, `builder`, `compose`), let-expressions (`expr`,
  `let_evaluator`), clause matching (`matching`), the engine (`engine/`:
  stage steps and temporal checks, stage matching, negation windows, batch
  evaluation and gap analysis, fingerprints, incremental steps, the
  `SiftEngine`), and the counting side of surprise scoring (`scoring/`).
- `tests/` — unit tests and end-to-end scenarios against in-memory graphs.
- `app/` — the floating-point side of scoring, importance weights, causal
  path records and the WebAssembly entry point.
