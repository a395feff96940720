//! Mission telemetry encoding: a parser that turns loosely-typed script-engine
//! text into typed values, a fixed-width codec for timestamped mission events,
//! and a versioned binary container that aggregates an event timeline with
//! identifying metadata.

pub mod arma_event;
pub mod arma_types;
pub mod replay_blob;
