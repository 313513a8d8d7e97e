//! Coordination logic of a confidential-computing worker: cache quota
//! allocation over a contract registry, the per-sender message sequencer,
//! and the decisions of the block replay engine.
pub mod keeper;
pub mod messages;
pub mod replay;
pub mod text;
