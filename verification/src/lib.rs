//! GPU cluster capacity planning with ternary utilization signals.
//!
//! Quantities are whole units (GiB of GPU memory, compute units, GiB/s of
//! bandwidth) and utilizations are exact fractions, so every classification,
//! packing decision and score below is proved against its specification.

pub mod ratio;
pub mod signal;
pub mod workload;
pub mod node;
pub mod ordering;
pub mod packing;
pub mod planner;
pub mod forecast;
