# salvosim

A missile-defence engagement simulator built on Hughes' salvo model, with
its engine verified by Verus.

Each time step, attackers launch salvos at named defenders; defenders,
sorted by probability of kill (PkD), engage the incoming threats aimed at
them according to their doctrine (Shoot-Look-Shoot fires one interceptor
at a time and looks after each, Shoot-Shoot-Look commits two, Max Defense
commits everything it can); the threats that get through roll their
probability of kill (PKO) against their targets.  Runs are repeated in a Monte Carlo simulation and
aggregated into per-defender survival counts, hits taken and interceptors
spent, or stepped through one time step at a time with a record of each
step's events.

## Layout

- `src/` — the verified library.
  - `models.rs`: scenarios, run state, results, and `Chance`, the integer
    form of a resolved probability that rolls are made against.
  - `validation.rs`: the scenario format's rules (staying power of at least
    one, attackers targeting configured defenders).
  - `draws.rs`: sources of random words (a seeded `rand` generator, or a
    fixed script).
  - `engine/`: threat generation, PkD ordering, the interception doctrines,
    terminal impact, whole runs, aggregation, the Monte Carlo driver and
    the step-through simulation.  Each phase is specified by a spec
    function over the random words it reads, and its laws (interception
    only spends interceptors and only on threats aimed at the defender,
    every threat is destroyed once or survives, a defender takes at most one
    hit per threat aimed at it, a defender survives at most once per
    iteration, stepping through a scenario takes exactly its longest
    schedule's steps, ...) are proved.
  - `web/`: scenario file names and listings, the charts of a step-through
    session, and the listening address.
- `app/` — the command line and the Rocket web server: file I/O, the TOML
  format, the floating-point probability distributions (resolved into
  `Chance` values before the engine runs) and the rates and averages shown
  to the user.
- `tests/` — tests of the library on concrete scenarios.

Verify with Verus; build and test with cargo.
