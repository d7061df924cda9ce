//! Running large language models over a fleet of mesh nodes.
//!
//! A node contributes what it can hold; a model that fits on one node is copied to the best of
//! them, and one that does not is split into a ring of layer ranges. Workers answer inference
//! requests that carry the right capability, and a router exposes the fleet through the OpenAI and
//! Ollama dialects. This crate holds the decisions; programs around it do the talking.

#![allow(unused_imports)]

use vstd::prelude::*;

pub mod backend;
pub mod caps;
pub mod cli;
pub mod client;
pub mod cluster;
pub mod double;
pub mod http;
pub mod ids;
pub mod json;
pub mod launch;
pub mod msg;
pub mod orchestrate;
pub mod order;
pub mod plan;
pub mod probe;
pub mod proto;
pub mod registry;
pub mod router;
pub mod sse;
pub mod text;
pub mod worker;

pub use plan::{Mode, NodeCap, Placement, PlanOpts, Stage};
pub use probe::{HardwareProbe, MemClass};
pub use registry::{ModelEntry, Registry};

verus! {

/// The version of the wire protocol. Workers advertise it, and a router does not dispatch to a
/// worker with another.
pub const PROTOCOL_VERSION: u32 = 1;

} // verus!
