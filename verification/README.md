# schelling

Schelling's (1971) dynamic models of segregation, with the spatial proximity model
verified in Verus.

## Layout

- `src/` — the verified library.
  - `cell.rs`: the cell states and their snapshot codes.
  - `text.rs`: character-level helpers (splitting, decimal digits) used by the parsers.
  - `config.rs`: satisfaction rules (ratio, min-same, bounded) as exact fractions and
    counts, move modes and strategies, the rule-string parser and labels.
  - `world.rs`: the lattice and its agents, neighbour counts, satisfaction, and the
    destination searches (nearest, best-local, speculative).
  - `mechanism.rs`: one step of the model (lenient or strict operation), with the laws
    that every step keeps.
  - `metrics.rs`: the neighbourhood counts from which the segregation indices are
    computed.
  - `simulation.rs`: random initial placement and the whole run with its stop rule.
  - `analytic.rs`: the discrete parts of the bounded-neighbourhood and tipping models
    (equilibrium kinds, stability from sign crossings, tipping types, preset names).
  - `rng.rs`: the random generator (`rand`, `rand_chacha`) behind trusted wrappers, with
    a model of its seed and of the shuffles it has made.
- `tests/` — tests of the library.
- `app/` — the command-line program: argument handling, CSV/JSON output, the
  floating-point segregation indices and the floating-point analytic dynamics.
