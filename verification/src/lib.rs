//! Storage and streaming core of a partitioned, append-only message broker.
//!
//! Producers append messages to partitions; each partition keeps an ordered
//! run of segments (one log file, one byte index, one time index per
//! segment), assigns contiguous offsets, and tracks per-consumer progress.
//! The command codec frames control commands for the wire, both in a binary
//! and in a pipe-delimited textual form.
use vstd::prelude::*;

pub mod batch;
pub mod config;
pub mod consumer;
pub mod delete_partitions;
pub mod error;
pub mod identifier;
pub mod index;
pub mod memory_storage;
pub mod partition_offsets;
pub mod message;
pub mod segment;
pub mod storage;
pub mod text;

verus! {

} // verus!
