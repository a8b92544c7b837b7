//! In-memory durable-state backend for a single node of a replicated
//! state-machine protocol: the command log, point-in-time snapshots of the
//! application state, reassembly of snapshots delivered in unordered network
//! chunks, and the per-term voting record.

pub mod codec;
pub mod node_id;
pub mod state_machine;
pub mod storage;
