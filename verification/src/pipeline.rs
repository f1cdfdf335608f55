//! What the stages hand to one another, and how much of it.

use vstd::prelude::*;

use crate::types::Batch;

verus! {

/// Writes between two snapshots.
pub const SNAPSHOT_EVERY_LSN: u64 = 2_000_000;

/// Bytes after which a log file is full.
pub const SEG_BYTES: u64 = 268_435_456;

/// Requests in one batch.
pub const MAX_BATCH: usize = 1024;

/// Batches in the pool.
pub const N_BUFFERS: usize = 8;

/// Log bytes that a batch has room for.
pub const OUT_CAP: usize = 262_144;

/// Requests that wait for stage 2.
pub const REQ_BOUND: usize = 65_536;

/// Responses that wait for one connection.
pub const RESP_BOUND: usize = 8_192;

/// A message from stage 2 to stage 3.
pub enum WalMsg {
    /// A batch with writes for the log.
    Write(Batch),
    /// Everything up to the boundary is in a snapshot: go on in a new file.
    Rotate { boundary_lsn: u64 },
    /// Files that start before the boundary are no longer needed.
    Retire { boundary_lsn: u64 },
}

/// A control message from stage 2 to stage 3.
#[derive(Debug, Clone, Copy, PartialEq, Eq, Structural)]
pub enum Ctrl {
    /// A snapshot is durable up to this sequence number; older log files may go.
    Compact(u64),
}

} // verus!
