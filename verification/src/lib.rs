//! Scheduler core for assigning monitored broadcast rooms to a fixed fleet of
//! capacity-bounded workers.
//!
//! The library holds the two-stage algorithm that runs once per scheduling
//! cycle: building a priority-ranked, deduplicated, capacity-truncated pool of
//! candidate rooms from weighted sources, and reconciling that pool against
//! the current worker assignments while minimizing churn. All I/O (fetching
//! sources, persisting assignments, heartbeats) is left to the embedding
//! program, which hands the library plain values.

pub mod cycle;
pub mod laws;
pub mod pool;
pub mod rebalance;
pub mod settings;
pub mod room;
pub mod seq_help;
pub mod worker;
