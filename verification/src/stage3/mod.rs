//! Stage 3: the log. Decides what is written, flushed and removed, and when a
//! batch's responses may go out.

pub mod engine;
pub mod engine_laws;
pub mod fsync_planner;
pub mod inflight;
pub mod io_work;
pub mod segment;
