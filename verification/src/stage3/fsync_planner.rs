//! When the log is flushed.

use vstd::prelude::*;

use crate::args::Mode;

verus! {

/// Bytes that `Async` mode lets pile up before it flushes.
pub const ASYNC_FSYNC_BYTES: u64 = 0x10_0000;

/// When a flush is asked for; who waits for it is decided elsewhere.
#[derive(Debug, Clone, Copy, PartialEq, Eq, Structural)]
pub enum FsyncCadence {
    /// The log survives a crash of the process, but not a power loss.
    Never,
    /// Back to back: the next flush is armed as soon as the previous one
    /// completes, and the writes in between share it.
    Consistently,
    /// One flush per so many queued bytes, which bounds what can be lost.
    Bytes(u64),
}

impl FsyncCadence {
    /// The cadence of a durability mode.
    pub open spec fn of_mode(mode: Mode) -> FsyncCadence {
        match mode {
            Mode::NoFsync => FsyncCadence::Never,
            Mode::Sync => FsyncCadence::Consistently,
            Mode::Async => FsyncCadence::Bytes(ASYNC_FSYNC_BYTES),
        }
    }
}

impl From<Mode> for FsyncCadence {
    fn from(mode: Mode) -> (r: Self) {
        match mode {
            Mode::NoFsync => FsyncCadence::Never,
            Mode::Sync => FsyncCadence::Consistently,
            Mode::Async => FsyncCadence::Bytes(ASYNC_FSYNC_BYTES),
        }
    }
}

impl vstd::std_specs::convert::FromSpecImpl<Mode> for FsyncCadence {
    open spec fn obeys_from_spec() -> bool {
        true
    }

    open spec fn from_spec(v: Mode) -> Self {
        FsyncCadence::of_mode(v)
    }
}

/// Decides when a flush is appended to the work.
pub struct FsyncPlanner {
    cadence: FsyncCadence,
    /// Bytes queued for writing since the last armed flush.
    dirty_bytes: u64,
    /// A flush is armed or under way.
    flush_running: bool,
}

/// What a planner remembers.
pub struct PlannerView {
    pub cadence: FsyncCadence,
    pub dirty: u64,
    pub running: bool,
}

impl View for FsyncPlanner {
    type V = PlannerView;

    closed spec fn view(&self) -> PlannerView {
        PlannerView {
            cadence: self.cadence,
            dirty: self.dirty_bytes,
            running: self.flush_running,
        }
    }
}

impl PlannerView {
    /// A flush is due: there is something to make durable, and the cadence asks
    /// for it.
    pub open spec fn due(self) -> bool {
        self.dirty > 0 && match self.cadence {
            FsyncCadence::Never => false,
            FsyncCadence::Consistently => !self.running,
            FsyncCadence::Bytes(limit) => self.dirty >= limit,
        }
    }

    /// After the question whether a flush is due: if so, it is armed, and what
    /// was queued so far does not count again.
    pub open spec fn asked(self) -> PlannerView {
        if self.due() {
            PlannerView { dirty: 0, running: true, ..self }
        } else {
            self
        }
    }

    /// After `n` more bytes were queued.
    pub open spec fn queued(self, n: int) -> PlannerView {
        PlannerView { dirty: (self.dirty + n) as u64, ..self }
    }

    /// After a flush completed.
    pub open spec fn completed(self) -> PlannerView {
        PlannerView { running: false, ..self }
    }
}

impl FsyncPlanner {
    /// A planner with nothing queued.
    pub fn new(cadence: FsyncCadence) -> (r: Self)
        ensures
            r@ == (PlannerView { cadence, dirty: 0, running: false }),
    {
        FsyncPlanner { cadence, dirty_bytes: 0, flush_running: false }
    }

    /// Bytes queued for writing since the last armed flush.
    pub fn dirty_bytes(&self) -> (r: u64)
        ensures
            r == self@.dirty,
    {
        self.dirty_bytes
    }

    /// `true` means that a flush goes with this submission. That answer uses up
    /// what was queued: the same bytes are never flushed twice.
    pub fn should_fsync(&mut self) -> (r: bool)
        ensures
            r == old(self)@.due(),
            final(self)@ == old(self)@.asked(),
    {
        // Nothing dirty: nothing a flush could make durable.
        if self.dirty_bytes == 0 {
            return false;
        }
        let due = match self.cadence {
            FsyncCadence::Never => false,
            FsyncCadence::Consistently => !self.flush_running,
            FsyncCadence::Bytes(limit) => self.dirty_bytes >= limit,
        };
        if due {
            self.dirty_bytes = 0;
            self.flush_running = true;
        }
        due
    }

    /// A flush completed.
    pub fn on_fsync_completed(&mut self)
        ensures
            final(self)@ == old(self)@.completed(),
    {
        self.flush_running = false;
    }

    /// So many more bytes were queued.
    pub fn on_write_queued(&mut self, n: u64)
        requires
            old(self)@.dirty + n <= u64::MAX,
        ensures
            final(self)@ == old(self)@.queued(n as int),
    {
        self.dirty_bytes = self.dirty_bytes + n;
    }
}

/// The same bytes are never flushed twice: right after a flush was armed none is
/// due, whether or not it has completed, until more bytes are queued.
pub proof fn law_flush_consumes_the_window(p: PlannerView)
    requires
        p.due(),
    ensures
        !p.asked().due(),
        !p.asked().completed().due(),
{
}

/// `Never` never flushes, whatever is queued.
pub proof fn law_never_flushes(p: PlannerView, n: int)
    requires
        p.cadence is Never,
    ensures
        !p.due(),
        !p.queued(n).due(),
        !p.completed().due(),
{
}

/// Back to back: no second flush is armed while one is under way, and once it
/// completes the next is due exactly if bytes were queued in between, so that
/// they share it.
pub proof fn law_one_flush_at_a_time(p: PlannerView, n: int)
    requires
        p.cadence is Consistently,
        p.due(),
        0 <= n <= u64::MAX,
    ensures
        !p.asked().queued(n).due(),
        p.asked().queued(n).completed().due() <==> n > 0,
{
}

/// By volume: after the question was asked, less than the limit can be queued
/// without a flush on its way.
pub proof fn law_loss_window_is_bounded(p: PlannerView, limit: u64)
    requires
        p.cadence == FsyncCadence::Bytes(limit),
        limit > 0,
    ensures
        p.asked().dirty < limit,
{
}

/// What a planner keeps track of: every byte queued adds to the window, arming a
/// flush empties it, completing one leaves it; and a flush is due exactly if the
/// window is not empty and the cadence asks for one.
pub proof fn law_every_queued_byte_counts(p: PlannerView, n: int)
    requires
        0 <= n,
        p.dirty + n <= u64::MAX,
    ensures
        p.queued(n).dirty == p.dirty + n,
        p.queued(n).cadence == p.cadence && p.queued(n).running == p.running,
        p.completed().dirty == p.dirty && p.completed().cadence == p.cadence,
        !p.completed().running,
        p.due() ==> p.asked().dirty == 0 && p.asked().running && p.asked().cadence == p.cadence,
        !p.due() ==> p.asked() == p,
        p.dirty == 0 ==> !p.due(),
        p.cadence is Never ==> !p.due(),
        p.cadence is Consistently ==> (p.due() <==> p.dirty > 0 && !p.running),
        p.cadence matches FsyncCadence::Bytes(limit) ==> (p.due() <==> p.dirty > 0 && p.dirty
            >= limit),
{
}

} // verus!
