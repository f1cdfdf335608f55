//! How durable the store is asked to be.

use vstd::prelude::*;

verus! {

/// Durability mode.
#[derive(Debug, Copy, Clone, PartialEq, Eq, PartialOrd, Ord, Structural)]
pub enum Mode {
    /// Written to the page cache, never flushed: survives the process, not a
    /// power loss.
    NoFsync,
    /// Flushed before the client hears of it.
    Sync,
    /// The client hears of it once it is written; flushed in the background.
    Async,
}

} // verus!
