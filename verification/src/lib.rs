//! A pipelined in-memory key-value store with a write-ahead log.
//!
//! Stage 1 frames requests off the network, stage 2 applies them to the table
//! one batch at a time, stage 3 turns every batch into log records and decides
//! when they are written, flushed and acknowledged.

pub mod acker;
pub mod alloc_stat;
pub mod args;
pub mod client;
pub mod end_to_end;
pub mod le;
pub mod pipeline;
pub mod stage1;
pub mod stage2;
pub mod stage3;
pub mod storage;
pub mod types;
pub mod wire;
