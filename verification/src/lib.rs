//! A verified core for a TCP port scanner: validated port-range
//! specifications, deduplicated port sets, a stride partition of the set
//! across a fixed pool of workers, the per-worker scan state machine, and
//! the shared aggregation of probe outcomes with cooperative cancellation.
//!
//! All network, terminal and signal handling lives outside this crate; the
//! library works on plain values and states exactly what each step does.

pub mod constants;
pub mod decimal;
pub mod engine;
pub mod models;
pub mod partition;
pub mod portset;
pub mod sorting;
