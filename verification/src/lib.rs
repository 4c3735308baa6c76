//! A verified model of a snapshotted, staged blockchain light-sync pipeline.
//!
//! The library models the three split databases (headers, bodies, state) as
//! in-memory tables, and verifies the stage logic that fills them: header and
//! body ingestion, state-changeset application, snapshot naming and cadence,
//! and the create-or-restore decision for each database. Network transfer,
//! file handling and the EVM executor live outside the library; their results
//! enter the verified functions as plain values.

pub mod blocks;
pub mod bodies_stage;
pub mod chain;
pub mod codec;
pub mod db;
pub mod errors;
pub mod headers_stage;
pub mod kv;
pub mod nums;
pub mod orchestrator;
pub mod remote;
pub mod snapshot;
pub mod state_stage;
pub mod state_tables;
