//! What the log engine can have in flight, and how each operation ends.

use vstd::prelude::*;

use crate::le;
use crate::types::{Batch, BatchView};

verus! {

/// How an operation ended.
pub enum Verdict {
    /// It fully succeeded. A write hands its batch back, to answer the clients;
    /// anything else carries none.
    Okay(Option<Batch>),
    /// It made no or partial progress for a passing reason, and already points
    /// at the first byte that is not written.
    Retry(IoWork),
    /// A flush completed: everything written before it is on stable storage.
    Durable,
    /// It failed for good, with this error number. Durability can no longer be
    /// promised.
    Fatal(i32),
}

/// A write of a batch's log bytes.
pub struct WriteOp {
    pub data: Batch,
    /// Where in the file the first byte goes.
    pub offset: u64,
    /// Bytes written so far.
    pub done: usize,
}

/// One operation.
pub enum IoWork {
    Write(WriteOp),
    /// A flush of everything up to a sequence number.
    Fsync(u64),
    /// Removal of a file, by its path.
    Remove(Vec<u8>),
}

/// An operation with its contents as sequences.
#[verifier::ext_equal]
pub enum WorkView {
    Write { data: BatchView, offset: u64, done: usize },
    Fsync { lsn: u64 },
    Remove { path: Seq<u8> },
}

impl View for IoWork {
    type V = WorkView;

    open spec fn view(&self) -> WorkView {
        match self {
            IoWork::Write(w) => WorkView::Write { data: w.data@, offset: w.offset, done: w.done },
            IoWork::Fsync(lsn) => WorkView::Fsync { lsn: *lsn },
            IoWork::Remove(path) => WorkView::Remove { path: path@ },
        }
    }
}

/// A verdict with its contents as sequences.
pub enum VerdictView {
    Okay(Option<BatchView>),
    Retry(WorkView),
    Durable,
    Fatal(i32),
}

impl View for Verdict {
    type V = VerdictView;

    open spec fn view(&self) -> VerdictView {
        match self {
            Verdict::Okay(Some(b)) => VerdictView::Okay(Some(b@)),
            Verdict::Okay(None) => VerdictView::Okay(None),
            Verdict::Retry(w) => VerdictView::Retry(w@),
            Verdict::Durable => VerdictView::Durable,
            Verdict::Fatal(e) => VerdictView::Fatal(*e),
        }
    }
}

/// `libc::EINTR`: on Linux, error number 4.
#[verifier::external_body]
pub(crate) fn eintr() -> (r: i32)
    ensures
        r == 4,
{
    libc::EINTR
}

/// `libc::EAGAIN`: on Linux, error number 11.
#[verifier::external_body]
pub(crate) fn eagain() -> (r: i32)
    ensures
        r == 11,
{
    libc::EAGAIN
}

/// `libc::ENOENT`: on Linux, error number 2.
#[verifier::external_body]
pub(crate) fn enoent() -> (r: i32)
    ensures
        r == 2,
{
    libc::ENOENT
}

/// The kernel was interrupted or busy: try again.
pub open spec fn transient(res: i32) -> bool {
    res == -4 || res == -11
}

/// How an operation ends, given what the kernel returned: a byte count or zero,
/// or an error number below zero.
pub open spec fn verdict(work: WorkView, res: i32) -> VerdictView {
    match work {
        WorkView::Write { data, offset, done } => if transient(res) {
            VerdictView::Retry(work)
        } else if res < 0 {
            VerdictView::Fatal((-res) as i32)
        } else if done + res < data.out.len() {
            VerdictView::Retry(WorkView::Write { data, offset, done: (done + res) as usize })
        } else {
            VerdictView::Okay(Some(data))
        },
        WorkView::Fsync { lsn } => if res < 0 {
            VerdictView::Fatal((-res) as i32)
        } else {
            VerdictView::Durable
        },
        WorkView::Remove { path } => VerdictView::Okay(None),
    }
}

/// A result that the operation can end with: the error number can be negated,
/// and a byte count can be added to what is done.
pub open spec fn result_ok(work: WorkView, res: i32) -> bool {
    match work {
        WorkView::Write { data, offset, done } => res > i32::MIN && (res >= 0 ==> done + res
            <= usize::MAX),
        WorkView::Fsync { lsn } => res > i32::MIN,
        WorkView::Remove { path } => true,
    }
}

/// What is handed to the kernel for an operation.
#[derive(Debug, Clone, Copy, PartialEq, Eq, Structural)]
pub enum SqeOp {
    /// Write so many of the batch's log bytes, from `start` on, at `offset`.
    Write { start: usize, len: u32, offset: u64 },
    /// Flush the data of the file, after everything submitted before.
    FsyncDataDrained,
    /// Remove the file.
    Unlink,
}

/// A submission: the operation, and the number that its completion carries.
#[derive(Debug, Clone, Copy, PartialEq, Eq, Structural)]
pub struct Sqe {
    pub op: SqeOp,
    pub user_data: u64,
}

/// What is handed to the kernel for an operation.
pub open spec fn sqe_op(work: WorkView) -> SqeOp {
    match work {
        WorkView::Write { data, offset, done } => SqeOp::Write {
            start: done,
            len: le::low32((data.out.len() - done) as nat),
            offset: (offset + done) as u64,
        },
        WorkView::Fsync { lsn } => SqeOp::FsyncDataDrained,
        WorkView::Remove { path } => SqeOp::Unlink,
    }
}

/// A write that is within its bytes, and whose bytes are within the file's
/// reach.
pub open spec fn submittable(work: WorkView) -> bool {
    match work {
        WorkView::Write { data, offset, done } => done <= data.out.len() && offset + data.out.len()
            <= u64::MAX,
        _ => true,
    }
}

impl IoWork {
    /// A write of all of a batch's log bytes.
    pub fn write(data: Batch, offset: u64) -> (r: Self)
        ensures
            r@ == (WorkView::Write { data: data@, offset, done: 0 }),
    {
        IoWork::Write(WriteOp { data, offset, done: 0 })
    }

    /// What to hand to the kernel: for a write, the bytes that are not written
    /// yet.
    pub fn sqe(&self, user_data: u64) -> (r: Sqe)
        requires
            submittable(self@),
        ensures
            r == (Sqe { op: sqe_op(self@), user_data }),
    {
        let op = match self {
            IoWork::Write(w) => {
                let n = w.data.out.len();
                SqeOp::Write {
                    start: w.done,
                    len: le::to_low32(n - w.done),
                    offset: w.offset + w.done as u64,
                }
            },
            IoWork::Fsync(_) => SqeOp::FsyncDataDrained,
            IoWork::Remove(_) => SqeOp::Unlink,
        };
        Sqe { op, user_data }
    }

    /// Takes in what the kernel returned.
    pub fn complete(self, res: i32) -> (r: Verdict)
        requires
            result_ok(self@, res),
        ensures
            r@ == verdict(self@, res),
    {
        match self {
            IoWork::Write(mut w) => {
                if res == -eintr() || res == -eagain() {
                    return Verdict::Retry(IoWork::Write(w));
                }
                if res < 0 {
                    return Verdict::Fatal(-res);
                }
                w.done = w.done + res as usize;
                if w.done < w.data.out.len() {
                    Verdict::Retry(IoWork::Write(w))
                } else {
                    Verdict::Okay(Some(w.data))
                }
            },
            IoWork::Fsync(_) => {
                if res < 0 {
                    return Verdict::Fatal(-res);
                }
                Verdict::Durable
            },
            IoWork::Remove(_) => Verdict::Okay(None),
        }
    }

    /// True when the removal of a file failed for another reason than that the
    /// file was gone already; that is worth a warning, and nothing more.
    pub fn remove_failed(&self, res: i32) -> (r: bool)
        ensures
            r == (self@ is Remove && res < 0 && res != -2),
    {
        match self {
            IoWork::Remove(_) => res < 0 && res != -enoent(),
            _ => false,
        }
    }
}

/// A short write is tried again at the first byte that is not written: the next
/// submission goes on exactly where this one stopped, in the batch and in the
/// file.
pub proof fn law_short_write_goes_on(data: BatchView, offset: u64, done: usize, res: i32)
    requires
        res >= 0,
        done + res < data.out.len() <= u32::MAX,
        offset + data.out.len() <= u64::MAX,
    ensures
        ({
            let work = WorkView::Write { data, offset, done };
            let next = WorkView::Write { data, offset, done: (done + res) as usize };
            &&& verdict(work, res) == VerdictView::Retry(next)
            &&& sqe_op(next) == SqeOp::Write {
                start: (done + res) as usize,
                len: (data.out.len() - done - res) as u32,
                offset: (offset + done + res) as u64,
            }
        }),
{
}

/// An interrupted write loses nothing: the same operation is tried again.
pub proof fn law_interrupted_write_is_unchanged(work: WorkView, res: i32)
    requires
        work is Write,
        transient(res),
    ensures
        verdict(work, res) == VerdictView::Retry(work),
{
}

/// How every operation ends, for every result: a write that was interrupted, or
/// met a busy kernel, is tried again as it is; one that wrote less than was left
/// goes on behind what it wrote, with the same bytes at the same place in the
/// file; one that wrote all that was left hands back the batch as it was; a flush
/// is durable; a removal is over either way; and any other error is fatal, with
/// its number.
pub proof fn law_how_operations_end(
    data: BatchView,
    offset: u64,
    done: usize,
    lsn: u64,
    path: Seq<u8>,
    res: i32,
)
    requires
        res > i32::MIN,
        done <= data.out.len(),
    ensures
        ({
            let w = WorkView::Write { data, offset, done };
            &&& res == -4 || res == -11 ==> verdict(w, res) == VerdictView::Retry(w)
            &&& res < 0 && res != -4 && res != -11 ==> verdict(w, res) == VerdictView::Fatal(
                (-res) as i32,
            )
            &&& 0 <= res < data.out.len() - done ==> verdict(w, res) == VerdictView::Retry(
                WorkView::Write { data, offset, done: (done + res) as usize },
            )
            &&& res >= data.out.len() - done && res >= 0 ==> verdict(w, res) == VerdictView::Okay(
                Some(data),
            )
            &&& verdict(WorkView::Fsync { lsn }, res) == if res < 0 {
                VerdictView::Fatal((-res) as i32)
            } else {
                VerdictView::Durable
            }
            &&& verdict(WorkView::Remove { path }, res) == VerdictView::Okay(None)
        }),
{
}

/// What is asked of the kernel, for every operation: exactly the bytes of the
/// batch that are not written yet, from the first of them on, at their place in
/// the file; a flush of the data behind everything else; a removal.
pub proof fn law_what_is_submitted(
    data: BatchView,
    offset: u64,
    done: usize,
    lsn: u64,
    path: Seq<u8>,
)
    requires
        done <= data.out.len() <= u32::MAX,
        offset + data.out.len() <= u64::MAX,
    ensures
        sqe_op(WorkView::Write { data, offset, done }) matches SqeOp::Write {
            start,
            len,
            offset: at,
        } && start == done && len == data.out.len() - done && at == offset + done,
        sqe_op(WorkView::Fsync { lsn }) == SqeOp::FsyncDataDrained,
        sqe_op(WorkView::Remove { path }) == SqeOp::Unlink,
{
}

/// Which results an operation can end with: any byte count that can be added to
/// what is done, and any error number; a removal with anything.
pub proof fn law_which_results_are_possible(
    data: BatchView,
    offset: u64,
    done: usize,
    lsn: u64,
    path: Seq<u8>,
    res: i32,
)
    ensures
        result_ok(WorkView::Write { data, offset, done }, res) <==> res > i32::MIN && (res < 0
            || done + res <= usize::MAX),
        result_ok(WorkView::Fsync { lsn }, res) <==> res > i32::MIN,
        result_ok(WorkView::Remove { path }, res),
        submittable(WorkView::Write { data, offset, done }) <==> done <= data.out.len() && offset
            + data.out.len() <= u64::MAX,
        submittable(WorkView::Fsync { lsn }),
        submittable(WorkView::Remove { path }),
{
}

} // verus!
