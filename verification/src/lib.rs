//! A metrics collection pipeline library.
//!
//! Edge agents harvest counters from files and from streaming OpenConfig
//! telemetry, tag them with labels, compute deltas and per-second rates,
//! and forward them to a central collector that keeps a live Prometheus
//! gauge registry.

pub mod brackets;
pub mod counters;
pub mod gauges;
pub mod kvmap;
pub mod metrics;
pub mod telemetry;
pub mod text;
pub mod transform;
