//! What the store keeps: the table, its snapshots and the log records.

pub mod db;
pub mod recovery;
pub mod segments;
pub mod snapshot;
pub mod snapshotter;
pub mod table;
pub mod wal_format;
