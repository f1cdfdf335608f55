//! The log engine: a state machine over what is queued, what the kernel owns
//! and what still waits for a flush. The ring itself is driven from outside:
//! submissions come out as plain values, completions go in the same way.
//!
//! Data flow: batch -> log records -> pending -> in flight -> awaiting a flush
//! -> back to the pool.

use std::collections::VecDeque;

use slab::Slab;
use vstd::prelude::*;

use crate::acker;
use crate::acker::{AckPoint, Acker, Reply, ReplyView};
use crate::args::Mode;
use crate::pipeline::WalMsg;
use crate::stage3::fsync_planner::{FsyncCadence, FsyncPlanner, PlannerView};
use crate::stage3::inflight;
use crate::stage3::io_work;
use crate::stage3::io_work::{IoWork, Sqe, Verdict, VerdictView, WorkView};
use crate::stage3::segment::{Segment, SegmentView};
use crate::types;
use crate::types::{Batch, BatchView};

verus! {

/// Polls without a message before the engine parks on the ring.
pub const DEFAULT_SPIN_BUDGET: i32 = 500;

/// The engine's state.
pub struct WalEngine {
    depth: usize,
    /// Encoded but not yet submitted, first in first out.
    pending: VecDeque<IoWork>,
    /// Owned by the kernel, by the number that the completion carries.
    inflight: Slab<IoWork>,
    /// Empty polls left before the engine parks.
    spin_budget: i32,
    /// The last sequence number encoded into the log.
    last_ingested_lsn: u64,
    seg: Segment,
    ack: Acker,
    fsync_planner: FsyncPlanner,
    /// Written, but still owing someone durability.
    awaiting_fsync: Vec<Batch>,
}

/// The engine's state with its contents as sequences and maps.
#[verifier::ext_equal]
pub struct EngineView {
    pub depth: usize,
    pub pending: Seq<WorkView>,
    pub inflight: Map<usize, WorkView>,
    pub spins: i32,
    pub last_lsn: u64,
    pub seg: SegmentView,
    pub level: AckPoint,
    pub planner: PlannerView,
    pub awaiting: Seq<BatchView>,
}

/// The views of a run of operations.
pub open spec fn works(ws: Seq<IoWork>) -> Seq<WorkView> {
    ws.map_values(|w: IoWork| w@)
}

/// The views of a run of batches.
pub open spec fn batches(bs: Seq<Batch>) -> Seq<BatchView> {
    bs.map_values(|b: Batch| b@)
}

impl View for WalEngine {
    type V = EngineView;

    closed spec fn view(&self) -> EngineView {
        EngineView {
            depth: self.depth,
            pending: works(self.pending@),
            inflight: inflight::slab_contents(self.inflight).map_values(|w: IoWork| w@),
            spins: self.spin_budget,
            last_lsn: self.last_ingested_lsn,
            seg: self.seg@,
            level: self.ack.level(),
            planner: self.fsync_planner@,
            awaiting: batches(self.awaiting_fsync@),
        }
    }
}

/// An operation that can be submitted and, if it is a write, acknowledged.
pub open spec fn work_ok(w: WorkView) -> bool {
    &&& io_work::submittable(w)
    &&& w matches WorkView::Write { data, .. } ==> types::all_have_op(data.items)
}

impl EngineView {
    /// Everything queued, in flight or awaiting can be carried on with, and no
    /// more is in flight than the ring is deep.
    pub open spec fn valid(self) -> bool {
        &&& forall|i: int| 0 <= i < self.pending.len() ==> work_ok(#[trigger] self.pending[i])
        &&& forall|k: usize| #[trigger]
            self.inflight.contains_key(k) ==> work_ok(self.inflight[k])
        &&& forall|i: int|
            0 <= i < self.awaiting.len() ==> types::all_have_op(
                (#[trigger] self.awaiting[i]).items,
            )
        &&& self.inflight.dom().finite()
        &&& self.inflight.len() <= self.depth <= inflight::MAX_RING_DEPTH
        &&& self.seg.valid()
    }

    /// Nothing is queued and the kernel owns nothing.
    pub open spec fn drained(self) -> bool {
        self.pending.len() == 0 && self.inflight == Map::<usize, WorkView>::empty()
    }
}

/// A new engine.
pub open spec fn fresh(
    depth: usize,
    start_lsn: u64,
    len: u64,
    level: AckPoint,
    cadence: FsyncCadence,
) -> EngineView {
    EngineView {
        depth,
        pending: seq![],
        inflight: Map::empty(),
        spins: DEFAULT_SPIN_BUDGET,
        last_lsn: start_lsn,
        seg: SegmentView::opened(start_lsn, len),
        level,
        planner: PlannerView { cadence, dirty: 0, running: false },
        awaiting: seq![],
    }
}

/// A batch with its log records behind the log bytes it had.
pub open spec fn logged(b: BatchView) -> BatchView {
    BatchView { out: b.out + types::redo(b.lsn_low as nat, b.items), ..b }
}

/// The batch continues exactly where the last one ended, its numbering covers
/// its writes, and there is room for its bytes.
pub open spec fn ingestible(st: EngineView, b: BatchView) -> bool {
    &&& types::all_have_op(b.items)
    &&& b.lsn_low == st.last_lsn
    &&& b.lsn_hi == b.lsn_low + types::puts(b.items)
    &&& st.seg.offset + logged(b).out.len() <= u64::MAX
    &&& st.planner.dirty + logged(b).out.len() <= u64::MAX
}

/// After a batch was taken in: its write is queued at the end of the file.
pub open spec fn ingested(st: EngineView, b: BatchView) -> EngineView {
    let n = logged(b).out.len() as int;
    EngineView {
        pending: st.pending.push(
            WorkView::Write { data: logged(b), offset: st.seg.offset, done: 0 },
        ),
        last_lsn: b.lsn_hi,
        seg: st.seg.advanced(n),
        planner: st.planner.queued(n),
        ..st
    }
}

/// After the planner was asked: a flush is queued if one is due.
pub open spec fn fsync_armed(st: EngineView) -> EngineView {
    if st.planner.due() {
        EngineView {
            pending: st.pending.push(WorkView::Fsync { lsn: st.last_lsn }),
            seg: st.seg.fsynced(),
            planner: st.planner.asked(),
            ..st
        }
    } else {
        st
    }
}

/// After the first operation in the queue was handed to the kernel under a
/// number.
pub open spec fn submitted(st: EngineView, k: usize) -> EngineView {
    EngineView {
        pending: st.pending.skip(1),
        inflight: st.inflight.insert(k, st.pending[0]),
        ..st
    }
}

/// The responses that go out once a run of batches is durable.
pub open spec fn flush_replies(level: AckPoint, bs: Seq<BatchView>) -> Seq<ReplyView>
    decreases bs.len(),
{
    if bs.len() == 0 {
        seq![]
    } else {
        flush_replies(level, bs.drop_last()) + acker::sent(
            level,
            bs.last().items,
            AckPoint::Durable,
        )
    }
}

/// What comes out of a completion.
#[verifier::ext_equal]
pub struct CompletionView {
    pub replies: Seq<ReplyView>,
    pub recycled: Seq<BatchView>,
    pub fatal: Option<i32>,
    pub unlink_failed: bool,
}

/// Nothing comes out.
pub open spec fn no_completion() -> CompletionView {
    CompletionView { replies: seq![], recycled: seq![], fatal: None, unlink_failed: false }
}

/// So many blank batches.
pub open spec fn blanks(n: nat) -> Seq<BatchView> {
    Seq::new(n, |i: int| types::blank_batch())
}

/// After everything written so far became durable: all who waited are answered
/// and their batches are free again.
pub open spec fn flushed(st: EngineView) -> (EngineView, CompletionView) {
    (
        EngineView { awaiting: seq![], planner: st.planner.completed(), ..st },
        CompletionView {
            replies: flush_replies(st.level, st.awaiting),
            recycled: blanks(st.awaiting.len()),
            ..no_completion()
        },
    )
}

/// After a batch was written: what is due goes out; the batch is free again if
/// it owes nobody anything, else it waits for a flush.
pub open spec fn written(st: EngineView, b: BatchView) -> (EngineView, CompletionView) {
    let after = acker::batch_after(st.level, b, AckPoint::Written);
    let replies = acker::sent(st.level, b.items, AckPoint::Written);
    if acker::settled(after) {
        (st, CompletionView { replies, recycled: blanks(1), ..no_completion() })
    } else {
        (
            EngineView { awaiting: st.awaiting.push(after), ..st },
            CompletionView { replies, ..no_completion() },
        )
    }
}

/// The bytes of an operation that are not written yet.
pub open spec fn unwritten(w: WorkView) -> int {
    match w {
        WorkView::Write { data, offset, done } => data.out.len() - done,
        _ => 0,
    }
}

/// After the completion numbered `idx`, with what the kernel returned.
pub open spec fn reaped(st: EngineView, idx: usize, res: i32) -> (EngineView, CompletionView) {
    let work = st.inflight[idx];
    let base = EngineView { inflight: st.inflight.remove(idx), ..st };
    match io_work::verdict(work, res) {
        VerdictView::Okay(Some(b)) => written(base, b),
        VerdictView::Okay(None) => (
            base,
            CompletionView { unlink_failed: res < 0 && res != -2, ..no_completion() },
        ),
        VerdictView::Retry(w) => (
            EngineView {
                pending: seq![w] + st.pending,
                planner: st.planner.queued(unwritten(w)),
                ..base
            },
            no_completion(),
        ),
        VerdictView::Durable => flushed(base),
        VerdictView::Fatal(e) => (base, CompletionView { fatal: Some(e), ..no_completion() }),
    }
}

/// A completion that can be taken in: its number is in use, the result is one
/// the operation can end with, and the bytes of a write that has to be tried
/// again can be counted once more.
pub open spec fn reapable(st: EngineView, idx: usize, res: i32) -> bool {
    &&& st.inflight.contains_key(idx)
    &&& io_work::result_ok(st.inflight[idx], res)
    &&& io_work::verdict(st.inflight[idx], res) matches VerdictView::Retry(w) ==> st.planner.dirty
        + unwritten(w) <= u64::MAX
}

/// The removals of the segments that start before a boundary.
pub open spec fn removals(segs: Seq<(u64, Seq<u8>)>, boundary: u64) -> Seq<WorkView>
    decreases segs.len(),
{
    if segs.len() == 0 {
        seq![]
    } else {
        let front = removals(segs.drop_last(), boundary);
        if segs.last().0 < boundary {
            front.push(WorkView::Remove { path: segs.last().1 })
        } else {
            front
        }
    }
}

/// After the removal of old segments was queued.
pub open spec fn retired(st: EngineView, segs: Seq<(u64, Seq<u8>)>, boundary: u64) -> EngineView {
    EngineView { pending: st.pending + removals(segs, boundary), ..st }
}

/// After everything was written and flushed, and the log went on in a file that
/// holds `len` bytes.
pub open spec fn rotated(st: EngineView, boundary: u64, len: u64) -> EngineView {
    EngineView { seg: SegmentView::opened(boundary, len), ..flushed(st).0 }
}

/// Segments with their paths as sequences.
pub open spec fn seg_paths(segs: Seq<(u64, Vec<u8>)>) -> Seq<(u64, Seq<u8>)> {
    segs.map_values(|s: (u64, Vec<u8>)| (s.0, s.1@))
}

/// What comes out of a completion.
pub struct Completion {
    /// Responses to send.
    pub replies: Vec<Reply>,
    /// Blank batches for the pool.
    pub recycled: Vec<Batch>,
    /// The error number of a failure that ends the engine.
    pub fatal: Option<i32>,
    /// A file could not be removed.
    pub unlink_failed: bool,
}

impl View for Completion {
    type V = CompletionView;

    open spec fn view(&self) -> CompletionView {
        CompletionView {
            replies: acker::replies(self.replies@),
            recycled: batches(self.recycled@),
            fatal: self.fatal,
            unlink_failed: self.unlink_failed,
        }
    }
}

/// What a message leaves to the caller.
#[derive(Debug, Clone, Copy, PartialEq, Eq, Structural)]
pub enum Todo {
    /// Nothing.
    Nothing,
    /// Wait until everything is written, flush the file, open the one that
    /// starts at the boundary, and call `rotate`.
    Rotate { boundary_lsn: u64 },
    /// List the segments and call `retire`.
    Retire { boundary_lsn: u64 },
}

/// What a message leaves to the caller.
pub open spec fn todo_for(msg: Option<WalMsg>) -> Todo {
    match msg {
        Some(WalMsg::Rotate { boundary_lsn }) => Todo::Rotate { boundary_lsn },
        Some(WalMsg::Retire { boundary_lsn }) => Todo::Retire { boundary_lsn },
        _ => Todo::Nothing,
    }
}

/// A look at the channel that can be taken in: a batch continues the log, and
/// empty polls can still be counted.
pub open spec fn pollable(st: EngineView, msg: Option<WalMsg>) -> bool {
    match msg {
        Some(WalMsg::Write(b)) => ingestible(st, b@),
        Some(_) => true,
        None => st.spins > i32::MIN,
    }
}

/// After a look at the channel.
pub open spec fn polled(st: EngineView, msg: Option<WalMsg>) -> EngineView {
    match msg {
        Some(WalMsg::Write(b)) => EngineView { spins: DEFAULT_SPIN_BUDGET, ..ingested(st, b@) },
        Some(_) => EngineView { spins: DEFAULT_SPIN_BUDGET, ..st },
        None => EngineView { spins: (st.spins - 1) as i32, ..st },
    }
}

/// What to do with the ring at the end of a round.
#[derive(Debug, Clone, Copy, PartialEq, Eq, Structural)]
pub enum RingStep {
    /// Submit, and wait for a completion.
    SubmitAndWait,
    /// Submit and go on.
    Submit,
    /// Leave it alone.
    Idle,
}

/// The ring is waited on if the empty polls are used up while something is in
/// flight, or if it is full; else it is submitted to if there is something new.
pub open spec fn ring_step_of(st: EngineView, submitted: bool) -> RingStep {
    if (st.spins <= 0 && st.inflight.len() > 0) || st.inflight.len() >= st.depth {
        RingStep::SubmitAndWait
    } else if submitted {
        RingStep::Submit
    } else {
        RingStep::Idle
    }
}

impl WalEngine {
    /// An engine that goes on after `start_lsn`, at the end of a log file that
    /// holds `len` bytes.
    pub fn new(ring_depth: usize, start_lsn: u64, len: u64, mode: Mode, ack: Acker) -> (r: Self)
        requires
            ring_depth <= inflight::MAX_RING_DEPTH,
        ensures
            r@ == fresh(ring_depth, start_lsn, len, ack.level(), FsyncCadence::of_mode(mode)),
            r@.valid(),
    {
        let e = WalEngine {
            depth: ring_depth,
            pending: VecDeque::with_capacity(ring_depth),
            inflight: inflight::slab_with_capacity(ring_depth),
            spin_budget: DEFAULT_SPIN_BUDGET,
            last_ingested_lsn: start_lsn,
            seg: Segment::open(start_lsn, len),
            ack,
            fsync_planner: FsyncPlanner::new(FsyncCadence::from(mode)),
            awaiting_fsync: Vec::new(),
        };
        proof {
            assert(e@.inflight =~= Map::<usize, WorkView>::empty());
            assert(e@ =~= fresh(
                ring_depth,
                start_lsn,
                len,
                ack.level(),
                FsyncCadence::of_mode(mode),
            ));
        }
        e
    }

    /// True when the empty polls are used up.
    pub fn out_of_spins(&self) -> (r: bool)
        ensures
            r == (self@.spins <= 0),
    {
        self.spin_budget <= 0
    }

    /// Empty polls left before the engine parks.
    pub fn spins_left(&self) -> (r: i32)
        ensures
            r == self@.spins,
    {
        self.spin_budget
    }

    /// True when there is nothing to do but wait for a message.
    pub fn should_park(&self) -> (r: bool)
        ensures
            r == self@.drained(),
    {
        let r = self.pending.len() == 0 && inflight::slab_is_empty(&self.inflight);
        proof {
            let m = inflight::slab_contents(self.inflight);
            if m == inflight::no_work() {
                assert(self@.inflight =~= Map::<usize, WorkView>::empty());
            } else if self@.inflight == Map::<usize, WorkView>::empty() {
                assert(m =~= inflight::no_work()) by {
                    assert forall|k: usize| !m.contains_key(k) by {
                        assert(self@.inflight.contains_key(k) == m.contains_key(k));
                    }
                }
            }
        }
        r
    }

    /// True when the ring takes no more.
    pub fn ring_is_full(&self) -> (r: bool)
        ensures
            r == (self@.inflight.len() >= self@.depth),
    {
        let n = inflight::slab_len(&self.inflight);
        assert(self@.inflight.dom() =~= inflight::slab_contents(self.inflight).dom());
        n >= self.depth
    }

    /// Bytes queued since the last armed flush.
    pub fn dirty_bytes(&self) -> (r: u64)
        ensures
            r == self@.planner.dirty,
    {
        self.fsync_planner.dirty_bytes()
    }

    /// The sequence number that the open log file is named after.
    pub fn segment_start(&self) -> (r: u64)
        ensures
            r == self@.seg.start_lsn,
    {
        self.seg.start_lsn()
    }

    /// The operation that a completion's number stands for.
    pub fn work_at(&self, idx: usize) -> (r: Option<&IoWork>)
        ensures
            match r {
                Some(w) => self@.inflight.contains_key(idx) && w@ == self@.inflight[idx],
                None => !self@.inflight.contains_key(idx),
            },
    {
        inflight::slab_get(&self.inflight, idx)
    }

    /// Takes in what a look at the channel found: a message, or none. A batch is
    /// taken in at once; what a rotation or a retirement asks of the file system
    /// is left to the caller. A message starts the empty polls over.
    pub fn on_poll(&mut self, msg: Option<WalMsg>) -> (r: Todo)
        requires
            old(self)@.valid(),
            pollable(old(self)@, msg),
        ensures
            final(self)@ == polled(old(self)@, msg),
            r == todo_for(msg),
            final(self)@.valid(),
    {
        match msg {
            Some(WalMsg::Write(batch)) => {
                self.handle_batch(batch);
                self.spin_budget = DEFAULT_SPIN_BUDGET;
                Todo::Nothing
            },
            Some(WalMsg::Rotate { boundary_lsn }) => {
                self.spin_budget = DEFAULT_SPIN_BUDGET;
                Todo::Rotate { boundary_lsn }
            },
            Some(WalMsg::Retire { boundary_lsn }) => {
                self.spin_budget = DEFAULT_SPIN_BUDGET;
                Todo::Retire { boundary_lsn }
            },
            None => {
                self.spin_budget = self.spin_budget - 1;
                Todo::Nothing
            },
        }
    }

    /// True when `handle_batch` may be called with the batch.
    pub fn accepts(&self, batch: &Batch) -> (r: bool)
        ensures
            r == ingestible(self@, batch@),
    {
        proof {
            types::lemma_redo_size(batch.lsn_low as nat, batch@.items);
        }
        match types::measure_puts(&batch.items) {
            None => false,
            Some((count, size)) => {
                let have = batch.out.len() as u64;
                batch.lsn_low == self.last_ingested_lsn && batch.lsn_hi >= batch.lsn_low
                    && batch.lsn_hi - batch.lsn_low == count && size <= u64::MAX - have
                    && self.seg.offset() <= u64::MAX - have - size
                    && self.fsync_planner.dirty_bytes() <= u64::MAX - have - size
            },
        }
    }

    /// Takes a batch in: encodes its writes and queues the bytes at the end of
    /// the log file.
    pub fn handle_batch(&mut self, batch: Batch)
        requires
            old(self)@.valid(),
            ingestible(old(self)@, batch@),
        ensures
            final(self)@ == ingested(old(self)@, batch@),
            final(self)@.valid(),
    {
        let mut batch = batch;
        let ghost b = batch@;
        let _lsn = types::encode_puts(&mut batch);
        assert(batch@ == logged(b));
        self.last_ingested_lsn = batch.lsn_hi;

        let batch_size = batch.out.len() as u64;
        let (offset, _) = self.seg.advance_offset(batch_size);
        self.fsync_planner.on_write_queued(batch_size);

        let ghost before = self.pending@;
        let work = IoWork::write(batch, offset);
        self.pending.push_back(work);
        proof {
            assert(works(self.pending@) =~= works(before).push(work@));
            assert(self@ =~= ingested(old(self)@, b));
            assert(work_ok(work@));
        }
    }

    /// Queues a flush if one is due.
    pub fn arm_fsync(&mut self) -> (r: bool)
        requires
            old(self)@.valid(),
        ensures
            r == old(self)@.planner.due(),
            final(self)@ == fsync_armed(old(self)@),
            final(self)@.valid(),
    {
        let due = self.fsync_planner.should_fsync();
        if due {
            let ghost before = self.pending@;
            let work = IoWork::Fsync(self.last_ingested_lsn);
            self.pending.push_back(work);
            self.seg.mark_fsynced();
            proof {
                assert(works(self.pending@) =~= works(before).push(work@));
                assert(work_ok(work@));
            }
        }
        assert(self@ =~= fsync_armed(old(self)@));
        due
    }

    /// Hands the next operation to the kernel: takes it off the queue, files it
    /// under a free number, and says what to submit. `None` if nothing is queued
    /// or the ring takes no more.
    pub fn next_submission(&mut self) -> (r: Option<Sqe>)
        requires
            old(self)@.valid(),
        ensures
            r is Some <==> old(self)@.pending.len() > 0 && old(self)@.inflight.len() < old(
                self,
            )@.depth,
            r is None ==> final(self)@ == old(self)@,
            r matches Some(sqe) ==> {
                &&& sqe.user_data <= usize::MAX
                &&& !old(self)@.inflight.contains_key(sqe.user_data as usize)
                &&& sqe.op == io_work::sqe_op(old(self)@.pending[0])
                &&& final(self)@ == submitted(old(self)@, sqe.user_data as usize)
            },
            final(self)@.valid(),
    {
        if self.ring_is_full() {
            return None;
        }
        let ghost before = self.pending@;
        let ghost m = inflight::slab_contents(self.inflight);
        assert(self@.inflight.dom() =~= m.dom());
        match self.pending.pop_front() {
            None => None,
            Some(work) => {
                assert(work@ == old(self)@.pending[0]);
                let mut sqe = work.sqe(0);
                let key = inflight::slab_insert(&mut self.inflight, work);
                sqe.user_data = key as u64;
                proof {
                    assert(works(self.pending@) =~= works(before).skip(1));
                    assert(self@.inflight =~= old(self)@.inflight.insert(key, work@));
                    assert(old(self)@.inflight.contains_key(key) == m.contains_key(key));
                    assert forall|i: int| 0 <= i < self@.pending.len() implies work_ok(
                        #[trigger] self@.pending[i],
                    ) by {
                        assert(self@.pending[i] == old(self)@.pending[i + 1]);
                    }
                }
                Some(sqe)
            },
        }
    }

    /// What to do with the ring at the end of a round, in which something was
    /// submitted or not.
    pub fn ring_step(&self, submitted: bool) -> (r: RingStep)
        ensures
            r == ring_step_of(self@, submitted),
    {
        let n = inflight::slab_len(&self.inflight);
        assert(self@.inflight.dom() =~= inflight::slab_contents(self.inflight).dom());
        if (self.out_of_spins() && n > 0) || n >= self.depth {
            RingStep::SubmitAndWait
        } else if submitted {
            RingStep::Submit
        } else {
            RingStep::Idle
        }
    }

    /// Everything written so far is durable: answers all who waited for it and
    /// hands their batches back.
    fn flush_awaiting(&mut self) -> (r: Completion)
        requires
            old(self)@.valid(),
        ensures
            final(self)@ == flushed(old(self)@).0,
            r@ == flushed(old(self)@).1,
            final(self)@.valid(),
    {
        let ghost level = self.ack.level();
        let ghost waiting = batches(self.awaiting_fsync@);
        let mut replies: Vec<Reply> = Vec::new();
        let mut recycled: Vec<Batch> = Vec::new();
        let mut waiters: Vec<Batch> = Vec::new();
        std::mem::swap(&mut waiters, &mut self.awaiting_fsync);
        let n = waiters.len();
        let mut i: usize = 0;
        assert(waiting == old(self)@.awaiting);
        assert(waiting.take(0) =~= seq![]);
        assert(acker::replies(replies@) =~= seq![]);
        assert(batches(recycled@) =~= blanks(0));
        while i < n
            invariant
                n == waiters@.len() == waiting.len(),
                i <= n,
                level == self.ack.level(),
                forall|j: int| i <= j < n ==> (#[trigger] waiters@[j])@ == waiting[j],
                forall|j: int|
                    0 <= j < n ==> types::all_have_op((#[trigger] waiting[j]).items),
                acker::replies(replies@) == flush_replies(level, waiting.take(i as int)),
                batches(recycled@) == blanks(i as nat),
            decreases n - i,
        {
            assert(waiters@[i as int]@ == waiting[i as int]);
            assert(waiting.take(i + 1).drop_last() =~= waiting.take(i as int));
            let ghost sent_before = replies@;
            let ghost free_before = recycled@;
            let mut b = Batch::with_capacity(0, 0);
            std::mem::swap(&mut b, &mut waiters[i]);
            let mut out = self.ack.advance(&mut b, AckPoint::Durable);
            let ghost sent_now = out@;
            replies.append(&mut out);
            b.recycle();
            recycled.push(b);
            proof {
                assert(acker::replies(replies@) =~= acker::replies(sent_before) + acker::replies(
                    sent_now,
                ));
                assert(batches(recycled@) =~= batches(free_before).push(types::blank_batch()));
                assert(blanks((i + 1) as nat) =~= blanks(i as nat).push(types::blank_batch()));
            }
            i = i + 1;
        }
        self.fsync_planner.on_fsync_completed();
        proof {
            assert(waiting.take(n as int) =~= waiting);
            assert(self@ =~= flushed(old(self)@).0);
        }
        let r = Completion { replies, recycled, fatal: None, unlink_failed: false };
        assert(r@ =~= flushed(old(self)@).1);
        r
    }

    /// A batch was written: sends what is due, and keeps the batch if someone
    /// still waits for a flush.
    fn settle_written(&mut self, batch: Batch) -> (r: Completion)
        requires
            old(self)@.valid(),
            types::all_have_op(batch@.items),
        ensures
            final(self)@ == written(old(self)@, batch@).0,
            r@ == written(old(self)@, batch@).1,
            final(self)@.valid(),
    {
        let mut batch = batch;
        let ghost b0 = batch@;
        let replies = self.ack.advance(&mut batch, AckPoint::Written);
        let mut recycled: Vec<Batch> = Vec::new();
        if self.ack.is_settled(&batch) {
            // No one in the batch waits for a flush.
            batch.recycle();
            recycled.push(batch);
            assert(batches(recycled@) =~= blanks(1));
        } else {
            let ghost before = self.awaiting_fsync@;
            let ghost after = batch@;
            self.awaiting_fsync.push(batch);
            proof {
                assert(batches(self.awaiting_fsync@) =~= batches(before).push(after));
                assert forall|j: int| 0 <= j < after.items.len() implies (
                #[trigger] after.items[j]).data.len() >= 1 by {
                    assert(b0.items[j].data.len() >= 1);
                }
            }
            assert(batches(recycled@) =~= seq![]);
        }
        assert(self@ =~= written(old(self)@, b0).0);
        let r = Completion { replies, recycled, fatal: None, unlink_failed: false };
        assert(r@ =~= written(old(self)@, b0).1);
        r
    }

    /// True when `on_completion` may be called with the completion.
    pub fn can_reap(&self, idx: usize, res: i32) -> (r: bool)
        requires
            self@.valid(),
        ensures
            r == reapable(self@, idx, res),
    {
        match self.work_at(idx) {
            None => false,
            Some(work) => {
                assert(work_ok(work@));
                match work {
                    IoWork::Write(w) => {
                        if res == i32::MIN {
                            return false;
                        }
                        let n = w.data.out.len();
                        let mut done = w.done;
                        if res >= 0 {
                            if done > usize::MAX - res as usize {
                                return false;
                            }
                            done = done + res as usize;
                        }
                        if res < 0 && res != -io_work::eintr() && res != -io_work::eagain() {
                            true
                        } else {
                            done >= n || self.fsync_planner.dirty_bytes() <= u64::MAX - (n
                                - done) as u64
                        }
                    },
                    IoWork::Fsync(_) => res > i32::MIN,
                    IoWork::Remove(_) => true,
                }
            },
        }
    }

    /// Takes in a completion: its number and what the kernel returned.
    pub fn on_completion(&mut self, idx: usize, res: i32) -> (r: Completion)
        requires
            old(self)@.valid(),
            reapable(old(self)@, idx, res),
        ensures
            final(self)@ == reaped(old(self)@, idx, res).0,
            r@ == reaped(old(self)@, idx, res).1,
            final(self)@.valid(),
    {
        let ghost m = inflight::slab_contents(self.inflight);
        assert(old(self)@.inflight.contains_key(idx) == m.contains_key(idx));
        let work = inflight::slab_remove(&mut self.inflight, idx);
        let unlink_failed = work.remove_failed(res);
        let ghost base = EngineView { inflight: old(self)@.inflight.remove(idx), ..old(self)@ };
        proof {
            assert(self@.inflight =~= old(self)@.inflight.remove(idx));
            assert(self@ =~= base);
            assert(work@ == old(self)@.inflight[idx]);
            assert(work_ok(work@));
        }
        match work.complete(res) {
            Verdict::Okay(Some(batch)) => self.settle_written(batch),
            Verdict::Okay(None) => {
                let r = Completion {
                    replies: Vec::new(),
                    recycled: Vec::new(),
                    fatal: None,
                    unlink_failed,
                };
                assert(r@ =~= reaped(old(self)@, idx, res).1);
                r
            },
            Verdict::Retry(io_work) => {
                let left: u64 = match &io_work {
                    IoWork::Write(w) => (w.data.out.len() - w.done) as u64,
                    _ => 0,
                };
                self.fsync_planner.on_write_queued(left);
                let ghost before = self.pending@;
                self.pending.push_front(io_work);
                proof {
                    assert(works(self.pending@) =~= seq![io_work@] + works(before));
                    assert(self@ =~= reaped(old(self)@, idx, res).0);
                    assert forall|i: int| 0 <= i < self@.pending.len() implies work_ok(
                        #[trigger] self@.pending[i],
                    ) by {
                        if i > 0 {
                            assert(self@.pending[i] == old(self)@.pending[i - 1]);
                        }
                    }
                }
                let r = Completion {
                    replies: Vec::new(),
                    recycled: Vec::new(),
                    fatal: None,
                    unlink_failed: false,
                };
                assert(r@ =~= no_completion());
                r
            },
            Verdict::Durable => self.flush_awaiting(),
            Verdict::Fatal(e) => {
                let r = Completion {
                    replies: Vec::new(),
                    recycled: Vec::new(),
                    fatal: Some(e),
                    unlink_failed: false,
                };
                assert(r@ =~= reaped(old(self)@, idx, res).1);
                r
            },
        }
    }

    /// The old log file is flushed and closed for good: answers all who waited
    /// for a flush and goes on in a new file. Everything has to be written first.
    pub fn rotate(&mut self, boundary_lsn: u64, len: u64) -> (r: Completion)
        requires
            old(self)@.valid(),
            old(self)@.drained(),
        ensures
            final(self)@ == rotated(old(self)@, boundary_lsn, len),
            r@ == flushed(old(self)@).1,
            final(self)@.valid(),
    {
        let r = self.flush_awaiting();
        self.seg = Segment::open(boundary_lsn, len);
        r
    }

    /// Queues the removal of every segment that starts before the boundary.
    pub fn retire(&mut self, boundary_lsn: u64, segs: &Vec<(u64, Vec<u8>)>)
        requires
            old(self)@.valid(),
            old(self)@.seg.start_lsn >= boundary_lsn,
        ensures
            final(self)@ == retired(old(self)@, seg_paths(segs@), boundary_lsn),
            final(self)@.valid(),
    {
        let ghost paths = seg_paths(segs@);
        let ghost pending0 = self@.pending;
        let mut i: usize = 0;
        assert(paths.take(0) =~= seq![]);
        assert(self@.pending =~= pending0 + removals(paths.take(0), boundary_lsn));
        while i < segs.len()
            invariant
                i <= segs@.len(),
                paths == seg_paths(segs@),
                pending0 == old(self)@.pending,
                self@ == (EngineView {
                    pending: pending0 + removals(paths.take(i as int), boundary_lsn),
                    ..old(self)@
                }),
                self@.valid(),
            decreases segs@.len() - i,
        {
            assert(paths.take(i + 1).drop_last() =~= paths.take(i as int));
            assert(paths[i as int] == (segs@[i as int].0, segs@[i as int].1@));
            let ghost st = self@;
            if segs[i].0 < boundary_lsn {
                let ghost before = self.pending@;
                let path = copied(&segs[i].1);
                let work = IoWork::Remove(path);
                self.pending.push_back(work);
                proof {
                    assert(works(self.pending@) =~= works(before).push(work@));
                    assert(self@.pending =~= pending0 + removals(paths.take(i + 1), boundary_lsn));
                    assert forall|j: int| 0 <= j < self@.pending.len() implies work_ok(
                        #[trigger] self@.pending[j],
                    ) by {
                        if j < st.pending.len() {
                            assert(self@.pending[j] == st.pending[j]);
                        } else {
                            assert(self@.pending[j] == work@);
                        }
                    }
                }
            }
            assert(self@ =~= (EngineView {
                pending: pending0 + removals(paths.take(i + 1), boundary_lsn),
                ..old(self)@
            }));
            assert(self@.inflight == st.inflight && self@.awaiting == st.awaiting);
            assert(self@.seg == st.seg && self@.depth == st.depth);
            i = i + 1;
        }
        assert(paths.take(segs@.len() as int) =~= paths);
    }
}

/// The same bytes again.
fn copied(v: &Vec<u8>) -> (r: Vec<u8>)
    ensures
        r@ == v@,
{
    vstd::slice::slice_to_vec(v.as_slice())
}

} // verus!
