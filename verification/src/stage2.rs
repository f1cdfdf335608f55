//! Stage 2: the one thread that owns the table. Applies batches, numbers their
//! writes, and decides when a snapshot is taken.

use vstd::prelude::*;

use crate::acker;
use crate::acker::{AckPoint, Acker, Reply};
use crate::pipeline::{WalMsg, SNAPSHOT_EVERY_LSN};
use crate::storage::db::Db;
use crate::storage::snapshot;
use crate::storage::snapshotter::{Snapshotter, SnapshotterView};
use crate::storage::table;
use crate::types;
use crate::types::{Batch, BatchView};

verus! {

/// The state of stage 2.
pub struct MainLoop {
    db: Db,
    ack: Acker,
    /// The sequence number of the last write.
    lsn: u64,
    /// The sequence number at the last compaction.
    last_compact_lsn: u64,
    snapshotter: Snapshotter,
    /// A batch without writes, kept for the next round.
    recycled: Option<Batch>,
}

/// The state of stage 2 with its contents as maps and sequences.
#[verifier::ext_equal]
pub struct LoopView {
    pub db: Map<Seq<u8>, Seq<u8>>,
    pub level: AckPoint,
    pub lsn: u64,
    pub last_compact: u64,
    pub snaps: SnapshotterView,
    pub recycled: Option<BatchView>,
}

impl View for MainLoop {
    type V = LoopView;

    closed spec fn view(&self) -> LoopView {
        LoopView {
            db: self.db@,
            level: self.ack.level(),
            lsn: self.lsn,
            last_compact: self.last_compact_lsn,
            snaps: self.snapshotter@,
            recycled: match self.recycled {
                Some(b) => Some(b@),
                None => None,
            },
        }
    }
}

impl LoopView {
    /// No snapshot and no compaction lies ahead of the last write.
    pub open spec fn valid(self) -> bool {
        &&& self.last_compact <= self.lsn
        &&& self.snaps.last <= self.last_compact + 1
        &&& self.snaps.last <= self.lsn
    }

    /// Enough writes have passed since the last compaction.
    pub open spec fn compaction_due(self) -> bool {
        self.lsn - self.last_compact >= SNAPSHOT_EVERY_LSN
    }

    /// The sequence number that a snapshot taken now is labelled with: the one
    /// before the last write, so that the record of the last write, too, is
    /// redone behind the snapshot.
    pub open spec fn boundary(self) -> u64 {
        (self.lsn - 1) as u64
    }

    /// A snapshot is taken now.
    pub open spec fn snapshot_due(self) -> bool {
        self.compaction_due() && self.snaps.gap_met(self.boundary())
    }
}

/// Before the first batch.
pub open spec fn started(
    db: Map<Seq<u8>, Seq<u8>>,
    level: AckPoint,
    start_lsn: u64,
    gap: u64,
) -> LoopView {
    LoopView {
        db,
        level,
        lsn: start_lsn,
        last_compact: if start_lsn > 0 {
            (start_lsn - 1) as u64
        } else {
            0
        },
        snaps: SnapshotterView { running: None, last: start_lsn, gap },
        recycled: None,
    }
}

/// The batch that leaves stage 2: applied, and without the responses that were
/// due on that account.
pub open spec fn handled(st: LoopView, b: BatchView) -> BatchView {
    acker::batch_after(st.level, types::applied(st.db, st.lsn, b), AckPoint::Applied)
}

/// After a batch: the table and the numbering have moved on; a batch without
/// writes is kept for the next round.
pub open spec fn after_batch(st: LoopView, b: BatchView) -> LoopView {
    LoopView {
        db: types::table_after(st.db, b.items),
        lsn: (st.lsn + types::puts(b.items)) as u64,
        recycled: if types::puts(b.items) == 0 {
            Some(types::blank_batch())
        } else {
            st.recycled
        },
        ..st
    }
}

/// After a snapshot was put in place.
pub open spec fn compacted(st: LoopView) -> LoopView {
    LoopView {
        last_compact: st.lsn,
        snaps: SnapshotterView { last: st.boundary(), ..st.snaps },
        ..st
    }
}

impl MainLoop {
    /// Starts with a recovered table and the sequence number to go on from.
    pub fn new(db: Db, ack: Acker, start_lsn: u64, min_lsn_gap: u64) -> (r: Self)
        ensures
            r@ == started(db@, ack.level(), start_lsn, min_lsn_gap),
            r@.db == db@,
            r@.lsn == start_lsn,
            r@.level == ack.level(),
            r@.snaps.last == start_lsn,
            r@.snaps.gap == min_lsn_gap,
            r@.recycled is None,
            r@.valid(),
    {
        MainLoop {
            db,
            ack,
            lsn: start_lsn,
            last_compact_lsn: start_lsn.saturating_sub(1),
            snapshotter: Snapshotter::new(start_lsn, min_lsn_gap),
            recycled: None,
        }
    }

    /// The batch kept from the last round, if there is one.
    pub fn take_recycled(&mut self) -> (r: Option<Batch>)
        ensures
            r is Some <==> old(self)@.recycled is Some,
            r matches Some(b) ==> Some(b@) == old(self)@.recycled,
            final(self)@ == (LoopView { recycled: None, ..old(self)@ }),
    {
        self.recycled.take()
    }

    /// The number of keys in the table.
    pub fn keys(&self) -> (r: usize)
        ensures
            table::counts(r as nat, self@.db),
    {
        self.db.len()
    }

    /// True when `on_batch` may be called with the batch.
    pub fn accepts(&self, batch: &Batch) -> (r: bool)
        ensures
            r == (types::all_answerable(batch@.items) && self@.lsn + types::puts(batch@.items)
                <= u64::MAX),
    {
        types::can_apply(batch, self.lsn)
    }

    /// Handles a batch: applies it, sends the responses that are due at once, and
    /// passes it on to the log if it holds writes. A batch without writes is
    /// blanked and kept.
    pub fn on_batch(&mut self, batch: Batch) -> (r: (Vec<Reply>, Option<WalMsg>))
        requires
            old(self)@.valid(),
            types::all_answerable(batch@.items),
            old(self)@.lsn + types::puts(batch@.items) <= u64::MAX,
        ensures
            final(self)@ == after_batch(old(self)@, batch@),
            final(self)@.valid(),
            acker::replies(r.0@) == acker::sent(
                old(self)@.level,
                types::applied(old(self)@.db, old(self)@.lsn, batch@).items,
                AckPoint::Applied,
            ),
            r.1 is Some <==> types::puts(batch@.items) > 0,
            r.1 matches Some(msg) ==> {
                &&& msg matches WalMsg::Write(b)
                &&& b@ == handled(old(self)@, batch@)
            },
    {
        let ghost b0 = batch@;
        let mut batch = batch;
        types::apply(&mut self.db, &mut batch, &mut self.lsn);
        proof {
            assert forall|i: int| 0 <= i < batch@.items.len() implies (
            #[trigger] batch@.items[i]).data.len() >= 1 by {
                assert(types::answerable(b0.items[i].data));
            }
        }
        // Every request now holds its response.
        let replies = self.ack.advance(&mut batch, AckPoint::Applied);
        if batch.has_wal_work() {
            assert(self@ =~= after_batch(old(self)@, b0));
            (replies, Some(WalMsg::Write(batch)))
        } else {
            batch.recycle();
            self.recycled = Some(batch);
            assert(self@ =~= after_batch(old(self)@, b0));
            (replies, None)
        }
    }

    /// The bytes of the snapshot to write now, with the sequence number they are
    /// labelled with; `None` while no snapshot is due.
    pub fn snapshot(&self) -> (r: Option<(u64, Vec<u8>)>)
        requires
            self@.valid(),
        ensures
            r is Some <==> self@.snapshot_due(),
            r matches Some(snap) ==> {
                &&& snap.0 == self@.boundary()
                &&& exists|order: Seq<(Seq<u8>, Seq<u8>)>|
                    table::lists(order, self@.db) && snap.1@ == snapshot::snapshot_bytes(
                        self@.boundary(),
                        order,
                    )
            },
    {
        if self.lsn.saturating_sub(self.last_compact_lsn) >= SNAPSHOT_EVERY_LSN {
            let durable_lsn = self.lsn - 1;
            match self.snapshotter.write_snapshot_sync_TEMP_FUNC(&self.db, durable_lsn) {
                Some(bytes) => Some((durable_lsn, bytes)),
                None => None,
            }
        } else {
            None
        }
    }

    /// As `snapshot`, after a batch: one that was not passed on to the log never
    /// triggers a snapshot.
    pub fn snapshot_after(&self, passed_on: bool) -> (r: Option<(u64, Vec<u8>)>)
        requires
            self@.valid(),
        ensures
            r is Some <==> passed_on && self@.snapshot_due(),
            r matches Some(snap) ==> {
                &&& snap.0 == self@.boundary()
                &&& exists|order: Seq<(Seq<u8>, Seq<u8>)>|
                    table::lists(order, self@.db) && snap.1@ == snapshot::snapshot_bytes(
                        self@.boundary(),
                        order,
                    )
            },
    {
        if passed_on {
            self.snapshot()
        } else {
            None
        }
    }

    /// The snapshot is in place: the log goes on in a new file, and the files
    /// before that one are no longer needed.
    pub fn on_snapshot_written(&mut self) -> (r: (WalMsg, WalMsg))
        requires
            old(self)@.valid(),
            old(self)@.snapshot_due(),
        ensures
            final(self)@ == compacted(old(self)@),
            final(self)@.valid(),
            r.0 == (WalMsg::Rotate { boundary_lsn: old(self)@.boundary() }),
            r.1 == (WalMsg::Retire { boundary_lsn: (old(self)@.boundary() - 1) as u64 }),
    {
        let durable_lsn = self.lsn - 1;
        self.snapshotter.snapshot_written(durable_lsn);
        self.last_compact_lsn = self.lsn;
        assert(self@ =~= compacted(old(self)@));
        (
            WalMsg::Rotate { boundary_lsn: durable_lsn },
            WalMsg::Retire { boundary_lsn: durable_lsn - 1 },
        )
    }
}

/// Stage 2 starts with exactly the table it is given, at the number it is given:
/// nothing of what was recovered is dropped.
pub proof fn law_start_keeps_the_table(
    db: Map<Seq<u8>, Seq<u8>>,
    level: AckPoint,
    start_lsn: u64,
    gap: u64,
)
    ensures
        ({
            let st = started(db, level, start_lsn, gap);
            &&& st.db == db
            &&& st.lsn == start_lsn
            &&& st.level == level
            &&& start_lsn > 0 ==> st.last_compact == start_lsn - 1
            &&& start_lsn == 0 ==> st.last_compact == 0
            &&& st.snaps.last == start_lsn && st.snaps.gap == gap && st.snaps.running is None
            &&& st.recycled is None
        }),
{
}

/// What a batch changes in stage 2, and what it leaves alone: the table has the
/// writes of the batch, the number counts them, a batch without any is kept,
/// emptied; nothing else moves.
pub proof fn law_what_a_batch_changes(st: LoopView, b: BatchView)
    requires
        st.lsn + types::puts(b.items) <= u64::MAX,
    ensures
        ({
            let after = after_batch(st, b);
            &&& after.db == types::table_after(st.db, b.items)
            &&& after.lsn == st.lsn + types::puts(b.items)
            &&& after.level == st.level
            &&& after.last_compact == st.last_compact
            &&& after.snaps == st.snaps
            &&& types::puts(b.items) > 0 ==> after.recycled == st.recycled
            &&& types::puts(b.items) == 0 ==> {
                &&& after.recycled matches Some(x)
                &&& x.items.len() == 0 && x.out.len() == 0 && x.lsn_low == 0 && x.lsn_hi == 0
            }
        }),
{
}

/// A batch that is passed on is the batch that came in: every request in its
/// place with its body and its connection, its log bytes, and the numbers of its
/// writes.
pub proof fn law_batches_are_passed_on_whole(st: LoopView, b: BatchView, i: int)
    requires
        0 <= i < b.items.len(),
        st.lsn + types::puts(b.items) <= u64::MAX,
    ensures
        ({
            let h = handled(st, b);
            &&& h.items.len() == b.items.len()
            &&& h.items[i].data == b.items[i].data
            &&& h.items[i].reply == b.items[i].reply
            &&& h.out == b.out
            &&& h.lsn_low == st.lsn
            &&& h.lsn_hi == st.lsn + types::puts(b.items)
        }),
{
}

/// When a snapshot is taken, and what it says: two million writes after the last
/// compaction, if the gap is met; labelled with the number before the last write.
/// Once it is in place, the count starts over from there.
pub proof fn law_when_snapshots_are_taken(st: LoopView)
    requires
        st.valid(),
    ensures
        st.snapshot_due() <==> st.lsn >= st.last_compact + 2_000_000 && st.lsn - 1 >= st.snaps.last
            + st.snaps.gap,
        st.lsn > 0 ==> st.boundary() == st.lsn - 1,
        compacted(st).last_compact == st.lsn,
        compacted(st).snaps.last == st.boundary(),
        compacted(st).snaps.gap == st.snaps.gap,
        compacted(st).db == st.db,
        compacted(st).lsn == st.lsn,
        compacted(st).level == st.level,
        compacted(st).recycled == st.recycled,
{
}

} // verus!
