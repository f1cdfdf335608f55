//! When snapshots are taken.

use vstd::prelude::*;

use crate::storage::db::Db;
use crate::storage::snapshot;
use crate::storage::table;

verus! {

/// Keeps track of the last snapshot and of one that is being written.
pub struct Snapshotter {
    /// The sequence number that the child process is writing a snapshot at.
    running: Option<u64>,
    last_boundary_lsn: u64,
    /// Sequence numbers that have to pass between two snapshots.
    min_lsn_gap: u64,
}

/// What a `Snapshotter` remembers.
pub struct SnapshotterView {
    pub running: Option<u64>,
    pub last: u64,
    pub gap: u64,
}

impl View for Snapshotter {
    type V = SnapshotterView;

    closed spec fn view(&self) -> SnapshotterView {
        SnapshotterView {
            running: self.running,
            last: self.last_boundary_lsn,
            gap: self.min_lsn_gap,
        }
    }
}

/// Whether a snapshot was begun.
#[derive(Debug, Clone, Copy, PartialEq, Eq, Structural)]
pub enum Begin {
    Started,
    RejectReason,
}

/// How a snapshot ended.
#[derive(Debug, Clone, Copy, PartialEq, Eq, Structural)]
pub enum Outcome {
    Committed { boundary_lsn: u64 },
    Failed,
}

/// What a non-blocking look at the child process found.
#[derive(Debug, Clone, Copy, PartialEq, Eq, Structural)]
pub enum ChildStatus {
    /// It is still at work.
    Running,
    /// It exited, and its file is complete and in place.
    Succeeded,
    /// It exited, and there is no snapshot.
    Failed,
}

impl SnapshotterView {
    /// As many sequence numbers as the gap asks for have passed since the last
    /// snapshot.
    pub open spec fn gap_met(self, lsn: u64) -> bool {
        lsn - self.last >= self.gap
    }
}

impl Snapshotter {
    /// Starts counting from a sequence number.
    pub fn new(start_lsn: u64, min_lsn_gap: u64) -> (r: Self)
        ensures
            r@ == (SnapshotterView { running: None, last: start_lsn, gap: min_lsn_gap }),
    {
        Snapshotter { running: None, last_boundary_lsn: start_lsn, min_lsn_gap }
    }

    /// The sequence number of the last snapshot.
    pub fn last_boundary(&self) -> (r: u64)
        ensures
            r == self@.last,
    {
        self.last_boundary_lsn
    }

    /// The bytes of the snapshot to write at `lsn`; `None` while not enough
    /// sequence numbers have passed since the last one.
    #[allow(non_snake_case)]
    pub fn write_snapshot_sync_TEMP_FUNC(&self, db: &Db, lsn: u64) -> (r: Option<Vec<u8>>)
        requires
            lsn >= self@.last,
        ensures
            r is Some <==> self@.gap_met(lsn),
            r matches Some(bytes) ==> exists|order: Seq<(Seq<u8>, Seq<u8>)>|
                table::lists(order, db@) && bytes@ == snapshot::snapshot_bytes(lsn, order),
    {
        if lsn - self.last_boundary_lsn < self.min_lsn_gap {
            return None;
        }
        Some(snapshot::encode_snapshot(db, lsn))
    }

    /// The snapshot at `lsn` is in place.
    pub fn snapshot_written(&mut self, lsn: u64)
        ensures
            final(self)@ == (SnapshotterView { last: lsn, ..old(self)@ }),
    {
        self.last_boundary_lsn = lsn;
    }

    /// Asks for a snapshot by a child process at the sequence number applied so
    /// far. Rejected if one is already running or the gap is not met.
    pub fn try_begin(&mut self, applied_lsn: u64) -> (r: Begin)
        ensures
            r is Started <==> old(self)@.running is None && old(self)@.gap_met(applied_lsn),
            r is Started ==> final(self)@ == (SnapshotterView {
                running: Some(applied_lsn),
                ..old(self)@
            }),
            r is RejectReason ==> final(self)@ == old(self)@,
    {
        if self.running.is_some() {
            return Begin::RejectReason;
        }
        if applied_lsn < self.last_boundary_lsn || applied_lsn - self.last_boundary_lsn
            < self.min_lsn_gap {
            return Begin::RejectReason;
        }
        self.running = Some(applied_lsn);
        Begin::Started
    }

    /// Takes in what a look at the child process found. A snapshot that was
    /// committed moves the boundary; without a child there is nothing to report.
    pub fn poll(&mut self, child: ChildStatus) -> (r: Option<Outcome>)
        ensures
            r is Some <==> old(self)@.running is Some && child != ChildStatus::Running,
            r is None ==> final(self)@ == old(self)@,
            r is Some && child is Succeeded ==> {
                &&& r == Some(Outcome::Committed { boundary_lsn: old(self)@.running.unwrap() })
                &&& final(self)@ == (SnapshotterView {
                    running: None,
                    last: old(self)@.running.unwrap(),
                    ..old(self)@
                })
            },
            r is Some && child is Failed ==> {
                &&& r == Some(Outcome::Failed)
                &&& final(self)@ == (SnapshotterView { running: None, ..old(self)@ })
            },
    {
        let lsn = match self.running {
            Some(lsn) => lsn,
            None => {
                return None;
            },
        };
        match child {
            ChildStatus::Running => None,
            ChildStatus::Succeeded => {
                self.running = None;
                self.last_boundary_lsn = lsn;
                Some(Outcome::Committed { boundary_lsn: lsn })
            },
            ChildStatus::Failed => {
                self.running = None;
                Some(Outcome::Failed)
            },
        }
    }
}

/// The gap is met exactly from as many sequence numbers on as it asks for.
pub proof fn law_gap_counts_from_the_last_snapshot(s: SnapshotterView, lsn: u64)
    ensures
        s.gap_met(lsn) <==> lsn >= s.last + s.gap,
{
}

} // verus!
