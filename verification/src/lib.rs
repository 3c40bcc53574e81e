//! Congestion control for aggregates of flows that share a bottleneck.
//!
//! All flows from one address form an aggregate with one congestion window. The window
//! reacts to what the flows report, and is divided among them according to what they have
//! pending. [`aggregate`] holds the state and its reactions, [`window`] how the window
//! moves, [`allocation`] the ways to divide it, [`pattern`] what flows are told,
//! [`measurement`] what they report. [`laws`] holds what is true of it all, [`effects`] what
//! each operation does, [`fairness`] what each flow gets, and [`figures`] what single values
//! are. [`ipc`] is a transport in memory.

pub mod aggregate;
pub mod allocation;
pub mod effects;
pub mod fairness;
pub mod figures;
pub mod flow_table;
pub mod ipc;
pub mod laws;
pub mod measurement;
pub mod pattern;
pub mod window;

pub use crate::aggregate::{
    AggregationExample, AggregationExampleConfig, AggregationExampleKey, DatapathInfo,
    DEFAULT_PENDING_BYTES, DEFAULT_SS_THRESH,
};
pub use crate::ipc::FakeIpc;
pub use crate::measurement::{Measurement, Register};
pub use crate::pattern::{Event, Message};
