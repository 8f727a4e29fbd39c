# zk_gate_evo

Evolutionary search over gate-implementation strategies for PLONKish
zero-knowledge circuits. A chromosome picks, for every sub-computation of a
benchmark circuit, one of several mathematically equivalent implementations;
the optimisers look for the cheapest circuit. The search logic, the circuit
descriptions and the rewrite system are written in Verus and proved against
their contracts.

## Layout

- `src/` — the verified library.
  - `strategy.rs` — chromosomes, search spaces, single-gene neighbourhoods and
    enumeration of a space.
  - `field.rs` — Goldilocks field arithmetic used to state circuit semantics.
  - `fitness.rs` — static cost metrics, the scalar fitness and its
    lexicographic law, median selection for measured prover times.
  - `circuits/` — circuit plans (a step list with a proved evaluation
    semantics) and the exponentiation and range-check benchmarks, whose plans
    are proved to expose the reference public inputs for every chromosome.
  - `rewrite/` — the expression IR, the rewrite rules (each proved to keep the
    value of the expression), the sharing emitter and the polynomial rewrite
    benchmark.
  - `ec/` — the fitness oracle with its memoising static oracle, the genetic
    algorithm, NSGA-II (non-dominated sorting, crowding distance,
    two-dimensional hypervolume, Pareto front) and the baselines (uniform
    sweep, random search, hill climbing, greedy descent, exhaustive
    enumeration).
  - `experiment.rs` — the settings and the per-run driver of the algorithm
    comparison.
  - `rng.rs` — the few trusted calls into `rand` / `rand_chacha`.
- `app/` — the command-line program: compiling plans with Plonky2, proving
  and timing, CSV output.
- `tests/` — tests of the library on concrete values.
