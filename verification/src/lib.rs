//! Audit core for a two-phase-commit deployment: protocol messages with
//! process-local identifiers, a replayable append-only operation log with a
//! line-oriented on-disk record format, and an offline consistency checker
//! that cross-references the coordinator's log against each participant's.

pub mod checker;
pub mod codec;
pub mod message;
pub mod oplog;
