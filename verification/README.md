# oxide-capacity

GPU cluster capacity planning with ternary utilization signals, written in
Verus: every function of the library carries a contract that Verus proves.

- `src/ratio.rs` – exact fractions for utilizations and their comparison
  with a threshold.
- `src/signal.rs` – the ternary signal (< 2/5 underutilized, > 4/5
  overloaded, balanced in between) and its monotonicity.
- `src/workload.rs` – resource profiles, workloads and demand totals.
- `src/node.rs` – a node, its utilization, fit test and assignment.
- `src/ordering.rs` – the stable descending-by-memory order.
- `src/packing.rs` – best-fit placement as mathematical functions, and its
  laws (nodes kept, capacity kept, workloads conserved, leftovers fit
  nowhere and come back in descending order).
- `src/planner.rs` – the planner: packing, cluster utilization, signal,
  recommendation, cost efficiency, per-node signals.
- `src/forecast.rs` – linear extrapolation of a utilization history.
- `app/lib.rs` – `Display` for the signal and floating-point readings.

Quantities are whole units (GiB, compute units, GiB/s); utilizations are
exact `num / den` fractions.
