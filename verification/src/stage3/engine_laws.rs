//! What holds of the log engine across its steps.

use vstd::prelude::*;

use crate::acker;
use crate::acker::{AckPoint, ReplyView};
use crate::pipeline::WalMsg;
use crate::stage3::engine;
use crate::stage3::engine::{Completion, EngineView, Todo};
use crate::stage3::fsync_planner::FsyncCadence;
use crate::stage3::io_work;
use crate::stage3::io_work::{IoWork, Verdict, VerdictView, WorkView};
use crate::storage::recovery;
use crate::storage::recovery::RecoveryView;
use crate::types;
use crate::types::{Batch, BatchView, RequestView};

verus! {

/// The writes in a run of operations.
pub open spec fn writes_in(ws: Seq<WorkView>) -> nat
    decreases ws.len(),
{
    if ws.len() == 0 {
        0
    } else {
        writes_in(ws.drop_last()) + if ws.last() is Write {
            1nat
        } else {
            0nat
        }
    }
}

/// The numbers under which the kernel owns a write.
pub open spec fn write_slots(m: Map<usize, WorkView>) -> Set<usize> {
    m.dom().filter(|k: usize| m[k] is Write)
}

/// The batches that the engine holds: queued, in flight, or awaiting a flush.
pub open spec fn held(st: EngineView) -> nat {
    writes_in(st.pending) + write_slots(st.inflight).len() + st.awaiting.len()
}

/// Counting one operation more at the end.
proof fn lemma_writes_push(ws: Seq<WorkView>, w: WorkView)
    ensures
        writes_in(ws.push(w)) == writes_in(ws) + if w is Write {
            1nat
        } else {
            0nat
        },
{
    assert(ws.push(w).drop_last() =~= ws);
}

/// Counting one operation more at the front.
proof fn lemma_writes_front(w: WorkView, ws: Seq<WorkView>)
    ensures
        writes_in(seq![w] + ws) == writes_in(ws) + if w is Write {
            1nat
        } else {
            0nat
        },
    decreases ws.len(),
{
    let all = seq![w] + ws;
    if ws.len() == 0 {
        assert(all.drop_last() =~= ws);
        assert(all.last() == w);
    } else {
        lemma_writes_front(w, ws.drop_last());
        assert(all.drop_last() =~= seq![w] + ws.drop_last());
        assert(all.last() == ws.last());
    }
}

/// Counting the writes in flight without one of the numbers.
proof fn lemma_slots_remove(m: Map<usize, WorkView>, k: usize)
    requires
        m.dom().finite(),
        m.contains_key(k),
    ensures
        write_slots(m).len() == write_slots(m.remove(k)).len() + if m[k] is Write {
            1nat
        } else {
            0nat
        },
{
    let a = write_slots(m);
    assert(a.finite());
    if m[k] is Write {
        assert(write_slots(m.remove(k)) =~= a.remove(k));
        assert(a.contains(k));
    } else {
        assert(write_slots(m.remove(k)) =~= a);
    }
}

/// Counting the writes in flight with one number more.
proof fn lemma_slots_insert(m: Map<usize, WorkView>, k: usize, w: WorkView)
    requires
        m.dom().finite(),
        !m.contains_key(k),
    ensures
        write_slots(m.insert(k, w)).len() == write_slots(m).len() + if w is Write {
            1nat
        } else {
            0nat
        },
{
    let all = m.insert(k, w);
    lemma_slots_remove(all, k);
    assert(all.remove(k) =~= m);
}

/// A batch that is taken in is held from then on.
pub proof fn law_ingested_batch_is_held(st: EngineView, b: BatchView)
    ensures
        held(engine::ingested(st, b)) == held(st) + 1,
{
    lemma_writes_push(
        st.pending,
        WorkView::Write { data: engine::logged(b), offset: st.seg.offset, done: 0 },
    );
}

/// Arming a flush loses no batch.
pub proof fn law_arming_keeps_batches(st: EngineView)
    ensures
        held(engine::fsync_armed(st)) == held(st),
{
    lemma_writes_push(st.pending, WorkView::Fsync { lsn: st.last_lsn });
}

/// Queueing removals loses no batch.
pub proof fn law_retiring_keeps_batches(
    st: EngineView,
    segs: Seq<(u64, Seq<u8>)>,
    boundary: u64,
)
    ensures
        held(engine::retired(st, segs, boundary)) == held(st),
    decreases segs.len(),
{
    if segs.len() == 0 {
        assert(st.pending + engine::removals(segs, boundary) =~= st.pending);
    } else {
        let front = engine::removals(segs.drop_last(), boundary);
        let last = WorkView::Remove { path: segs.last().1 };
        law_retiring_keeps_batches(st, segs.drop_last(), boundary);
        lemma_writes_push(st.pending + front, last);
        assert((st.pending + front).push(last) =~= st.pending + front.push(last));
    }
}

/// Handing an operation to the kernel loses no batch, under whatever free number
/// it is filed.
pub proof fn law_submission_keeps_batches(st: EngineView, k: usize)
    requires
        st.valid(),
        st.pending.len() > 0,
        !st.inflight.contains_key(k),
    ensures
        held(engine::submitted(st, k)) == held(st),
{
    lemma_slots_insert(st.inflight, k, st.pending[0]);
    lemma_writes_front(st.pending[0], st.pending.skip(1));
    assert(seq![st.pending[0]] + st.pending.skip(1) =~= st.pending);
}

/// After a run of submissions under these numbers.
pub open spec fn submitted_all(st: EngineView, keys: Seq<usize>) -> EngineView
    decreases keys.len(),
{
    if keys.len() == 0 {
        st
    } else {
        engine::submitted(submitted_all(st, keys.drop_last()), keys.last())
    }
}

/// There is an operation in the queue for each number, and each number is free
/// when its turn comes.
pub open spec fn all_submittable(st: EngineView, keys: Seq<usize>) -> bool
    decreases keys.len(),
{
    keys.len() > 0 ==> {
        let before = submitted_all(st, keys.drop_last());
        &&& all_submittable(st, keys.drop_last())
        &&& before.pending.len() > 0
        &&& !before.inflight.contains_key(keys.last())
    }
}

/// The queue is first in, first out: a run of submissions hands out as many
/// operations from its front, in order, each under a number of its own, and
/// leaves the rest of the queue and what was in flight as they were.
#[verifier::rlimit(60)]
pub proof fn law_submissions_go_in_order(st: EngineView, keys: Seq<usize>)
    requires
        all_submittable(st, keys),
    ensures
        ({
            let after = submitted_all(st, keys);
            let n = keys.len() as int;
            &&& n <= st.pending.len()
            &&& after == EngineView { pending: after.pending, inflight: after.inflight, ..st }
            &&& after.pending == st.pending.skip(n)
            &&& keys.no_duplicates()
            &&& forall|i: int|
                0 <= i < n ==> submitted_all(st, #[trigger] keys.take(i)).pending[0]
                    == st.pending[i]
            &&& forall|i: int|
                0 <= i < n ==> !st.inflight.contains_key(#[trigger] keys[i])
                    && after.inflight.contains_key(keys[i]) && after.inflight[keys[i]]
                    == st.pending[i]
            &&& forall|k: usize| #[trigger]
                after.inflight.contains_key(k) <==> st.inflight.contains_key(k) || keys.contains(k)
            &&& forall|k: usize| #[trigger]
                st.inflight.contains_key(k) ==> after.inflight[k] == st.inflight[k]
        }),
    decreases keys.len(),
{
    let after = submitted_all(st, keys);
    if keys.len() == 0 {
        assert(after.pending =~= st.pending.skip(0));
    } else {
        let n = keys.len() as int;
        let front = keys.drop_last();
        let last = keys.last();
        let mid = submitted_all(st, front);
        law_submissions_go_in_order(st, front);
        assert(after.pending =~= st.pending.skip(n));
        assert(mid.pending[0] == st.pending[n - 1]);
        assert forall|i: int| 0 <= i < n implies submitted_all(
            st,
            #[trigger] keys.take(i),
        ).pending[0] == st.pending[i] by {
            if i < n - 1 {
                assert(keys.take(i) =~= front.take(i));
            } else {
                assert(keys.take(i) =~= front);
            }
        }
        assert forall|i: int| 0 <= i < n - 1 implies keys[i] == #[trigger] front[i] && keys[i]
            != last by {
            assert(mid.inflight.contains_key(front[i]));
        }
        assert forall|i: int| 0 <= i < n implies !st.inflight.contains_key(#[trigger] keys[i])
            && after.inflight.contains_key(keys[i]) && after.inflight[keys[i]]
            == st.pending[i] by {
            if i < n - 1 {
                assert(front[i] == keys[i]);
            } else {
                assert(!mid.inflight.contains_key(last));
            }
        }
        assert forall|i: int, j: int| 0 <= i < n && 0 <= j < n && i != j implies keys[i]
            != keys[j] by {
            if i < n - 1 && j < n - 1 {
                assert(front[i] != front[j]);
            } else if i < n - 1 {
                assert(front[i] != last);
            } else {
                assert(front[j] != last);
            }
        }
        assert forall|k: usize| #[trigger] st.inflight.contains_key(k) implies after.inflight[k]
            == st.inflight[k] by {
            assert(mid.inflight.contains_key(k));
        }
        assert forall|k: usize| #[trigger] after.inflight.contains_key(k) implies (
        st.inflight.contains_key(k) || keys.contains(k)) by {
            if k == last {
                assert(keys[n - 1] == k);
            } else if front.contains(k) {
                let i = choose|i: int| 0 <= i < front.len() && front[i] == k;
                assert(keys[i] == k);
            }
        }
        assert forall|k: usize|
            st.inflight.contains_key(k) || keys.contains(
                k,
            ) implies #[trigger] after.inflight.contains_key(k) by {
            if !st.inflight.contains_key(k) {
                let i = choose|i: int| 0 <= i < keys.len() && keys[i] == k;
                assert(after.inflight.contains_key(keys[i]));
            }
        }
    }
}

/// No batch is lost or handed out twice: whatever a completion brings, short of
/// a failure that ends the engine, each batch is either still held or handed
/// back to the pool.
pub proof fn law_no_batch_is_lost(st: EngineView, idx: usize, res: i32)
    requires
        st.valid(),
        st.inflight.contains_key(idx),
        !(io_work::verdict(st.inflight[idx], res) is Fatal),
    ensures
        held(st) == held(engine::reaped(st, idx, res).0) + engine::reaped(
            st,
            idx,
            res,
        ).1.recycled.len(),
{
    lemma_slots_remove(st.inflight, idx);
    if let VerdictView::Retry(w) = io_work::verdict(st.inflight[idx], res) {
        lemma_writes_front(w, st.pending);
    }
}

/// Every response that is not sent yet belongs to a write.
pub open spec fn reads_are_answered(reqs: Seq<RequestView>) -> bool {
    forall|i: int|
        0 <= i < reqs.len() ==> ((#[trigger] reqs[i]).resp is Some ==> types::is_put(
            reqs[i].data,
        ))
}

/// After a batch was applied and what was due went out, only writes still wait.
pub proof fn law_applied_answers_reads(level: AckPoint, b: BatchView)
    ensures
        reads_are_answered(acker::batch_after(level, b, AckPoint::Applied).items),
{
}

/// Nothing goes out for writes that wait for a flush.
proof fn lemma_waiting_sends_nothing(reqs: Seq<RequestView>, reached: AckPoint)
    requires
        reads_are_answered(reqs),
        !(reached is Durable),
    ensures
        acker::sent(AckPoint::Durable, reqs, reached) == Seq::<ReplyView>::empty(),
    decreases reqs.len(),
{
    if reqs.len() > 0 {
        let front = reqs.drop_last();
        assert forall|i: int|
            0 <= i < front.len() && (#[trigger] front[i]).resp is Some implies types::is_put(
            front[i].data,
        ) by {
            assert(front[i] == reqs[i]);
        }
        lemma_waiting_sends_nothing(front, reached);
        assert(reqs[reqs.len() - 1] == reqs.last());
    }
}

/// Where writes have to be durable, no write is acknowledged because it was
/// written: a write's completion sends nothing, and the batch waits for a flush
/// as long as anyone in it is owed a response.
pub proof fn law_durable_writes_wait_for_the_flush(st: EngineView, b: BatchView)
    requires
        st.level is Durable,
        reads_are_answered(b.items),
    ensures
        engine::written(st, b).1.replies == Seq::<ReplyView>::empty(),
        !acker::settled(b) ==> engine::written(st, b).0.awaiting == st.awaiting.push(b),
        !acker::settled(b) ==> engine::written(st, b).1.recycled == Seq::<BatchView>::empty(),
{
    lemma_waiting_sends_nothing(b.items, AckPoint::Written);
    let after = acker::batch_after(st.level, b, AckPoint::Written);
    assert forall|i: int| 0 <= i < b.items.len() implies after.items[i] == b.items[i] by {
        let req = b.items[i];
        if !types::is_put(req.data) {
            assert(req.resp is None);
            assert(RequestView { resp: None, ..req } == req);
        }
    }
    assert(after.items =~= b.items);
    assert(after == b);
}

/// No response to a read waits with the operation.
pub open spec fn only_writes_wait_in(w: WorkView) -> bool {
    w matches WorkView::Write { data, .. } ==> reads_are_answered(data.items)
}

/// No response to a read waits in the engine before a write is done.
pub open spec fn only_writes_wait(st: EngineView) -> bool {
    &&& forall|i: int| 0 <= i < st.pending.len() ==> only_writes_wait_in(#[trigger] st.pending[i])
    &&& forall|k: usize| #[trigger]
        st.inflight.contains_key(k) ==> only_writes_wait_in(st.inflight[k])
}

/// A new engine holds no batch, and a new file starts without writes.
pub proof fn law_starts_are_clean(
    depth: usize,
    lsn: u64,
    len: u64,
    level: AckPoint,
    cadence: FsyncCadence,
    st: EngineView,
)
    requires
        st.drained(),
    ensures
        ({
            let new = engine::fresh(depth, lsn, len, level, cadence);
            held(new) == 0 && only_writes_wait(new) && writes_apart(new)
        }),
        only_writes_wait(engine::rotated(st, lsn, len)),
        writes_apart(engine::rotated(st, lsn, len)),
        held(engine::rotated(st, lsn, len)) == 0,
{
    assert(write_slots(Map::empty()) =~= Set::empty());
}

/// What is queued for a retirement removes files and does nothing else.
proof fn lemma_removals_remove(segs: Seq<(u64, Seq<u8>)>, boundary: u64)
    ensures
        forall|i: int|
            0 <= i < engine::removals(segs, boundary).len() ==> (#[trigger] engine::removals(
                segs,
                boundary,
            )[i]) is Remove,
    decreases segs.len(),
{
    if segs.len() > 0 {
        lemma_removals_remove(segs.drop_last(), boundary);
        let front = engine::removals(segs.drop_last(), boundary);
        let all = engine::removals(segs, boundary);
        assert forall|i: int| 0 <= i < all.len() implies (#[trigger] all[i]) is Remove by {
            if i < front.len() {
                assert(all[i] == front[i]);
            }
        }
    }
}

/// That only writes wait stays so with every step, as long as stage 2 answers
/// reads itself.
pub proof fn law_only_writes_ever_wait(
    st: EngineView,
    b: BatchView,
    k: usize,
    idx: usize,
    res: i32,
    segs: Seq<(u64, Seq<u8>)>,
    boundary: u64,
)
    requires
        only_writes_wait(st),
    ensures
        only_writes_wait(engine::retired(st, segs, boundary)),
        reads_are_answered(b.items) ==> only_writes_wait(engine::ingested(st, b)),
        only_writes_wait(engine::fsync_armed(st)),
        st.pending.len() > 0 ==> only_writes_wait(engine::submitted(st, k)),
        st.inflight.contains_key(idx) ==> only_writes_wait(engine::reaped(st, idx, res).0),
        only_writes_wait(engine::flushed(st).0),
{
    lemma_removals_remove(segs, boundary);
    if st.pending.len() > 0 {
        let after = engine::submitted(st, k);
        assert forall|i: int| 0 <= i < after.pending.len() implies only_writes_wait_in(
            #[trigger] after.pending[i],
        ) by {
            assert(after.pending[i] == st.pending[i + 1]);
        }
        assert(only_writes_wait_in(st.pending[0]));
    }
    if st.inflight.contains_key(idx) {
        let after = engine::reaped(st, idx, res).0;
        assert(only_writes_wait_in(st.inflight[idx]));
        if let VerdictView::Retry(w) = io_work::verdict(st.inflight[idx], res) {
            assert(only_writes_wait_in(w));
            assert forall|i: int| 0 <= i < after.pending.len() implies only_writes_wait_in(
                #[trigger] after.pending[i],
            ) by {
                if i > 0 {
                    assert(after.pending[i] == st.pending[i - 1]);
                }
            }
        }
    }
}

/// Where writes have to be durable, the completion of a write never answers
/// anyone, in any state that the engine gets into.
pub proof fn law_no_answer_before_the_flush(st: EngineView, idx: usize, res: i32)
    requires
        st.level is Durable,
        only_writes_wait(st),
        st.inflight.contains_key(idx),
        !(st.inflight[idx] is Fsync),
    ensures
        engine::reaped(st, idx, res).1.replies == Seq::<ReplyView>::empty(),
{
    assert(only_writes_wait_in(st.inflight[idx]));
    if let VerdictView::Okay(Some(b)) = io_work::verdict(st.inflight[idx], res) {
        let base = EngineView { inflight: st.inflight.remove(idx), ..st };
        law_durable_writes_wait_for_the_flush(base, b);
    }
}

/// The file ranges of two operations do not overlap.
pub open spec fn apart(a: WorkView, b: WorkView) -> bool {
    match (a, b) {
        (
            WorkView::Write { data: x, offset: p, .. },
            WorkView::Write { data: y, offset: q, .. },
        ) => p + x.out.len() <= q || q + y.out.len() <= p,
        _ => true,
    }
}

/// The file range of an operation ends by `end`.
pub open spec fn ends_by(w: WorkView, end: u64) -> bool {
    w matches WorkView::Write { data, offset, .. } ==> offset + data.out.len() <= end
}

/// No two writes that are queued or in flight overlap, and all of them lie before
/// the end of the file.
pub open spec fn writes_apart(st: EngineView) -> bool {
    &&& forall|i: int| 0 <= i < st.pending.len() ==> ends_by(#[trigger] st.pending[i], st.seg.offset)
    &&& forall|k: usize| #[trigger]
        st.inflight.contains_key(k) ==> ends_by(st.inflight[k], st.seg.offset)
    &&& forall|i: int, j: int|
        0 <= i < j < st.pending.len() ==> apart(#[trigger] st.pending[i], #[trigger] st.pending[j])
    &&& forall|i: int, k: usize|
        0 <= i < st.pending.len() && st.inflight.contains_key(k) ==> apart(
            #[trigger] st.pending[i],
            #[trigger] st.inflight[k],
        )
    &&& forall|k: usize, l: usize|
        k != l && st.inflight.contains_key(k) && st.inflight.contains_key(l) ==> apart(
            #[trigger] st.inflight[k],
            #[trigger] st.inflight[l],
        )
}

/// No two batches are ever written over one another: that the writes lie apart
/// stays so with every step, retries included.
pub proof fn law_writes_never_overlap(
    st: EngineView,
    b: BatchView,
    k: usize,
    idx: usize,
    res: i32,
    segs: Seq<(u64, Seq<u8>)>,
    boundary: u64,
)
    requires
        writes_apart(st),
    ensures
        writes_apart(engine::retired(st, segs, boundary)),
        engine::ingestible(st, b) && st.seg.valid() ==> writes_apart(engine::ingested(st, b)),
        writes_apart(engine::fsync_armed(st)),
        st.pending.len() > 0 && !st.inflight.contains_key(k) ==> writes_apart(
            engine::submitted(st, k),
        ),
        st.inflight.contains_key(idx) ==> writes_apart(engine::reaped(st, idx, res).0),
        writes_apart(engine::flushed(st).0),
{
    lemma_apart_retired(st, segs, boundary);
    if engine::ingestible(st, b) && st.seg.valid() {
        lemma_apart_ingested(st, b);
    }
    if st.pending.len() > 0 && !st.inflight.contains_key(k) {
        lemma_apart_submitted(st, k);
    }
    if st.inflight.contains_key(idx) {
        lemma_apart_reaped(st, idx, res);
    }
}

/// Queueing removals keeps the writes apart.
proof fn lemma_apart_retired(st: EngineView, segs: Seq<(u64, Seq<u8>)>, boundary: u64)
    requires
        writes_apart(st),
    ensures
        writes_apart(engine::retired(st, segs, boundary)),
{
    lemma_removals_remove(segs, boundary);
    let after = engine::retired(st, segs, boundary);
    let n = st.pending.len() as int;
    assert forall|i: int| 0 <= i < after.pending.len() implies (#[trigger] after.pending[i]) is Remove
        || (i < n && after.pending[i] == st.pending[i]) by {
        if i >= n {
            assert(after.pending[i] == engine::removals(segs, boundary)[i - n]);
        }
    }
    assert forall|i: int, j: int| 0 <= i < j < after.pending.len() implies apart(
        #[trigger] after.pending[i],
        #[trigger] after.pending[j],
    ) by {
        if j < n {
            assert(apart(st.pending[i], st.pending[j]));
        }
    }
}

/// A new write goes behind all others.
proof fn lemma_apart_ingested(st: EngineView, b: BatchView)
    requires
        writes_apart(st),
        engine::ingestible(st, b),
        st.seg.valid(),
    ensures
        writes_apart(engine::ingested(st, b)),
{
    let after = engine::ingested(st, b);
    let n = st.pending.len() as int;
    assert forall|i: int, j: int| 0 <= i < j < after.pending.len() implies apart(
        #[trigger] after.pending[i],
        #[trigger] after.pending[j],
    ) by {
        assert(after.pending[i] == st.pending[i]);
        if j < n {
            assert(after.pending[j] == st.pending[j]);
        }
    }
    assert forall|i: int, k: usize|
        0 <= i < after.pending.len() && after.inflight.contains_key(k) implies apart(
        #[trigger] after.pending[i],
        #[trigger] after.inflight[k],
    ) by {
        if i < n {
            assert(after.pending[i] == st.pending[i]);
        }
    }
    assert forall|i: int| 0 <= i < after.pending.len() implies ends_by(
        #[trigger] after.pending[i],
        after.seg.offset,
    ) by {
        if i < n {
            assert(after.pending[i] == st.pending[i]);
        }
    }
}

/// Handing a write to the kernel moves it nowhere in the file.
proof fn lemma_apart_submitted(st: EngineView, k: usize)
    requires
        writes_apart(st),
        st.pending.len() > 0,
        !st.inflight.contains_key(k),
    ensures
        writes_apart(engine::submitted(st, k)),
{
    let after = engine::submitted(st, k);
    assert forall|i: int| 0 <= i < after.pending.len() implies #[trigger] after.pending[i]
        == st.pending[i + 1] by {}
    assert forall|i: int, l: usize|
        0 <= i < after.pending.len() && after.inflight.contains_key(l) implies apart(
        #[trigger] after.pending[i],
        #[trigger] after.inflight[l],
    ) by {
        if l == k {
            assert(apart(st.pending[0], st.pending[i + 1]));
        } else {
            assert(apart(st.pending[i + 1], st.inflight[l]));
        }
    }
    assert forall|l: usize, m: usize|
        l != m && after.inflight.contains_key(l) && after.inflight.contains_key(m) implies apart(
        #[trigger] after.inflight[l],
        #[trigger] after.inflight[m],
    ) by {
        if l == k {
            assert(apart(st.pending[0], st.inflight[m]));
        } else if m == k {
            assert(apart(st.pending[0], st.inflight[l]));
        } else {
            assert(apart(st.inflight[l], st.inflight[m]));
        }
    }
}

/// A write that is tried again stays where it was in the file.
proof fn lemma_apart_reaped(st: EngineView, idx: usize, res: i32)
    requires
        writes_apart(st),
        st.inflight.contains_key(idx),
    ensures
        writes_apart(engine::reaped(st, idx, res).0),
{
    let after = engine::reaped(st, idx, res).0;
    assert forall|l: usize| #[trigger] after.inflight.contains_key(l) implies l != idx
        && st.inflight.contains_key(l) && after.inflight[l] == st.inflight[l] by {}
    if let VerdictView::Retry(w) = io_work::verdict(st.inflight[idx], res) {
        assert(forall|x: WorkView| apart(w, x) == #[trigger] apart(st.inflight[idx], x));
        assert forall|i: int| 1 <= i < after.pending.len() implies #[trigger] after.pending[i]
            == st.pending[i - 1] by {}
        assert(after.pending[0] == w);
        assert forall|i: int, j: int| 0 <= i < j < after.pending.len() implies apart(
            #[trigger] after.pending[i],
            #[trigger] after.pending[j],
        ) by {
            if i == 0 {
                assert(apart(st.pending[j - 1], st.inflight[idx]));
                assert(apart(st.inflight[idx], st.pending[j - 1]));
            } else {
                assert(apart(st.pending[i - 1], st.pending[j - 1]));
            }
        }
        assert forall|i: int, l: usize|
            0 <= i < after.pending.len() && after.inflight.contains_key(l) implies apart(
            #[trigger] after.pending[i],
            #[trigger] after.inflight[l],
        ) by {
            if i == 0 {
                assert(apart(st.inflight[idx], st.inflight[l]));
            } else {
                assert(apart(st.pending[i - 1], st.inflight[l]));
            }
        }
        assert forall|i: int| 0 <= i < after.pending.len() implies ends_by(
            #[trigger] after.pending[i],
            after.seg.offset,
        ) by {
            if i == 0 {
                assert(ends_by(st.inflight[idx], st.seg.offset));
            } else {
                assert(ends_by(st.pending[i - 1], st.seg.offset));
            }
        }
    }
}

/// Where writes need not be durable, nothing waits for a flush: a write's
/// completion answers everyone and frees the batch.
pub proof fn law_other_writes_do_not_wait(st: EngineView, b: BatchView)
    requires
        !(st.level is Durable),
    ensures
        engine::written(st, b).1.replies.len() == acker::owed(b.items),
        engine::written(st, b).1.recycled == engine::blanks(1),
        engine::written(st, b).0 == st,
{
    acker::law_no_response_lost(st.level, b, AckPoint::Written);
    lemma_settled_owes_nothing(acker::batch_after(st.level, b, AckPoint::Written).items);
}

/// Requests without a response owe none.
proof fn lemma_settled_owes_nothing(reqs: Seq<RequestView>)
    requires
        forall|i: int| 0 <= i < reqs.len() ==> (#[trigger] reqs[i]).resp is None,
    ensures
        acker::owed(reqs) == 0,
    decreases reqs.len(),
{
    if reqs.len() > 0 {
        let front = reqs.drop_last();
        assert forall|i: int| 0 <= i < front.len() implies (#[trigger] front[i]).resp is None by {
            assert(front[i] == reqs[i]);
        }
        lemma_settled_owes_nothing(front);
        assert(reqs[reqs.len() - 1] == reqs.last());
    }
}

/// The responses that a run of batches still owes.
pub open spec fn all_owed(bs: Seq<BatchView>) -> nat
    decreases bs.len(),
{
    if bs.len() == 0 {
        0
    } else {
        all_owed(bs.drop_last()) + acker::owed(bs.last().items)
    }
}

/// A flush answers everyone who waited for it, and frees every batch.
pub proof fn law_flush_answers_everyone(st: EngineView)
    ensures
        engine::flushed(st).1.replies.len() == all_owed(st.awaiting),
        engine::flushed(st).1.recycled.len() == st.awaiting.len(),
        engine::flushed(st).0.awaiting.len() == 0,
        held(st) == held(engine::flushed(st).0) + engine::flushed(st).1.recycled.len(),
{
    lemma_flush_replies(st.level, st.awaiting);
}

/// A run of durable batches sends every response that it still owes.
proof fn lemma_flush_replies(level: AckPoint, bs: Seq<BatchView>)
    ensures
        engine::flush_replies(level, bs).len() == all_owed(bs),
    decreases bs.len(),
{
    if bs.len() > 0 {
        lemma_flush_replies(level, bs.drop_last());
        acker::law_no_response_lost(level, bs.last(), AckPoint::Durable);
        acker::law_durable_settles(level, bs.last());
        lemma_settled_owes_nothing(
            acker::batch_after(level, bs.last(), AckPoint::Durable).items,
        );
    }
}

/// After a run of batches was taken in.
pub open spec fn ingested_all(st: EngineView, bs: Seq<BatchView>) -> EngineView
    decreases bs.len(),
{
    if bs.len() == 0 {
        st
    } else {
        engine::ingested(ingested_all(st, bs.drop_last()), bs.last())
    }
}

/// Each batch of the run can be taken in after those before it, and comes
/// without log bytes of its own.
pub open spec fn all_ingestible(st: EngineView, bs: Seq<BatchView>) -> bool
    decreases bs.len(),
{
    bs.len() > 0 ==> {
        &&& all_ingestible(st, bs.drop_last())
        &&& engine::ingestible(ingested_all(st, bs.drop_last()), bs.last())
        &&& bs.last().out.len() == 0
    }
}

/// The requests of a run of batches.
pub open spec fn items_of(bs: Seq<BatchView>) -> Seq<RequestView>
    decreases bs.len(),
{
    if bs.len() == 0 {
        seq![]
    } else {
        items_of(bs.drop_last()) + bs.last().items
    }
}

/// Each operation is a write, from its first byte, right behind the one before
/// it; `offset` is where the first one goes.
pub open spec fn laid_out(ws: Seq<WorkView>, offset: int) -> bool
    decreases ws.len(),
{
    ws.len() > 0 ==> {
        &&& laid_out(ws.drop_last(), offset)
        &&& ws.last() matches WorkView::Write { data, offset: at, done } && done == 0 && at
            == offset + log_of(ws.drop_last()).len()
    }
}

/// The log bytes of a run of operations.
pub open spec fn log_of(ws: Seq<WorkView>) -> Seq<u8>
    decreases ws.len(),
{
    if ws.len() == 0 {
        seq![]
    } else {
        log_of(ws.drop_last()) + match ws.last() {
            WorkView::Write { data, offset, done } => data.out,
            _ => seq![],
        }
    }
}

/// The operations that a run of batches adds to the queue.
pub open spec fn queued_by(st: EngineView, bs: Seq<BatchView>) -> Seq<WorkView> {
    ingested_all(st, bs).pending.skip(st.pending.len() as int)
}

/// The log has no gaps and nothing out of order: a run of batches is queued, in
/// order, as writes that lie one behind the other from the end of the file on,
/// and together they hold the records of all the requests, numbered from the
/// last sequence number on.
#[verifier::rlimit(60)]
pub proof fn law_log_is_gapless(st: EngineView, bs: Seq<BatchView>)
    requires
        all_ingestible(st, bs),
        st.seg.valid(),
    ensures
        ({
            let after = ingested_all(st, bs);
            let ws = queued_by(st, bs);
            &&& after.pending == st.pending + ws
            &&& laid_out(ws, st.seg.offset as int)
            &&& log_of(ws) == types::redo(st.last_lsn as nat, items_of(bs))
            &&& after.seg.offset == st.seg.offset + log_of(ws).len()
            &&& after.planner.dirty == st.planner.dirty + log_of(ws).len()
            &&& after.last_lsn == st.last_lsn + types::puts(items_of(bs))
        }),
    decreases bs.len(),
{
    let after = ingested_all(st, bs);
    let ws = queued_by(st, bs);
    if bs.len() == 0 {
        assert(ws =~= seq![]);
        assert(after.pending =~= st.pending + ws);
    } else {
        let front = bs.drop_last();
        let b = bs.last();
        let mid = ingested_all(st, front);
        let ws0 = queued_by(st, front);
        law_log_is_gapless(st, front);
        let w = WorkView::Write { data: engine::logged(b), offset: mid.seg.offset, done: 0 };
        assert(after.pending == mid.pending.push(w));
        assert(ws =~= ws0.push(w));
        assert(ws.drop_last() =~= ws0);
        assert(after.pending =~= st.pending + ws);
        types::law_batches_compose(Map::empty(), st.last_lsn as nat, items_of(front), b.items);
        assert(engine::logged(b).out =~= types::redo(mid.last_lsn as nat, b.items));
        assert(log_of(ws) == log_of(ws0) + engine::logged(b).out);
    }
}

/// What the engine logs is what recovery redoes: replaying the bytes that a run
/// of batches queues leaves the table that handling the batches leaves.
pub proof fn law_logged_batches_are_recovered(
    st: EngineView,
    bs: Seq<BatchView>,
    rec: RecoveryView,
)
    requires
        all_ingestible(st, bs),
        st.seg.valid(),
        types::all_answerable(items_of(bs)),
        recovery::records_fit(items_of(bs)),
        !rec.torn,
        rec.snap_lsn <= st.last_lsn,
        rec.highest <= st.last_lsn,
    ensures
        recovery::replay(rec, log_of(queued_by(st, bs))).db == types::table_after(
            rec.db,
            items_of(bs),
        ),
        !recovery::replay(rec, log_of(queued_by(st, bs))).torn,
{
    law_log_is_gapless(st, bs);
    recovery::law_replay_redoes_the_log(rec, st.last_lsn as nat, items_of(bs));
}

/// Retiring removes the segments that start before the boundary and no others.
pub proof fn law_retire_keeps_new_segments(
    segs: Seq<(u64, Seq<u8>)>,
    boundary: u64,
    path: Seq<u8>,
)
    ensures
        engine::removals(segs, boundary).contains(WorkView::Remove { path }) <==> exists|i: int|
            0 <= i < segs.len() && (#[trigger] segs[i]).0 < boundary && segs[i].1 == path,
        engine::removals(segs, boundary).len() <= segs.len(),
    decreases segs.len(),
{
    let all = engine::removals(segs, boundary);
    if segs.len() > 0 {
        let front = segs.drop_last();
        let n = segs.len() - 1;
        law_retire_keeps_new_segments(front, boundary, path);
        let before = engine::removals(front, boundary);
        let gone = WorkView::Remove { path };
        if before.contains(gone) {
            let i = choose|i: int|
                0 <= i < front.len() && (#[trigger] front[i]).0 < boundary && front[i].1 == path;
            assert(segs[i] == front[i]);
            let j = choose|j: int| 0 <= j < before.len() && before[j] == gone;
            assert(all[j] == gone);
        }
        if segs[n].0 < boundary && segs[n].1 == path {
            assert(all.last() == gone);
            assert(all.contains(gone));
        }
        assert forall|i: int|
            0 <= i < segs.len() && (#[trigger] segs[i]).0 < boundary && segs[i].1
                == path implies all.contains(gone) by {
            if i < n {
                assert(front[i] == segs[i]);
            }
        }
        if all.contains(gone) && !before.contains(gone) {
            let j = choose|j: int| 0 <= j < all.len() && all[j] == gone;
            assert(j == before.len());
            assert(segs[n].1 == path);
        }
    }
}

/// What a flush sends: batch by batch and request by request, in order, each
/// response that still waits, its own, to its own request's connection; and
/// nothing else.
#[verifier::rlimit(60)]
pub proof fn law_flush_sends_each_its_own(level: AckPoint, bs: Seq<BatchView>)
    ensures
        engine::flush_replies(level, bs) == bs.map_values(|b: BatchView| b.items).flatten().filter(
            |r: RequestView| r.resp is Some,
        ).map_values(|r: RequestView| ReplyView { to: r.reply, resp: r.resp->0 }),
    decreases bs.len(),
{
    let it = |b: BatchView| b.items;
    let p = |r: RequestView| r.resp is Some;
    let f = |r: RequestView| ReplyView { to: r.reply, resp: r.resp->0 };
    if bs.len() == 0 {
        reveal(Seq::filter);
        assert(bs.map_values(it) =~= seq![]);
        assert(bs.map_values(it).flatten() =~= seq![]);
        assert(bs.map_values(it).flatten().filter(p).map_values(f) =~= seq![]);
    } else {
        let front = bs.drop_last();
        let items = bs.last().items;
        law_flush_sends_each_its_own(level, front);
        assert(bs.map_values(it) =~= front.map_values(it).push(items));
        front.map_values(it).lemma_flatten_push(items);
        lemma_waiting_responses(front.map_values(it).flatten(), items);
        acker::law_each_response_goes_where_it_belongs(level, items, AckPoint::Durable);
        let q = |r: RequestView|
            r.resp is Some && (!(r.data.len() > 0 && r.data[0] == 1) || level is Applied
                || AckPoint::Durable is Durable || (level is Written
                && AckPoint::Durable is Written));
        assert(q =~= p);
    }
}

/// The responses that wait in two runs of requests are those of the first and
/// then those of the second.
#[verifier::rlimit(60)]
proof fn lemma_waiting_responses(a: Seq<RequestView>, b: Seq<RequestView>)
    ensures
        (a + b).filter(|r: RequestView| r.resp is Some).map_values(
            |r: RequestView| ReplyView { to: r.reply, resp: r.resp->0 },
        ) == a.filter(|r: RequestView| r.resp is Some).map_values(
            |r: RequestView| ReplyView { to: r.reply, resp: r.resp->0 },
        ) + b.filter(|r: RequestView| r.resp is Some).map_values(
            |r: RequestView| ReplyView { to: r.reply, resp: r.resp->0 },
        ),
    decreases b.len(),
{
    reveal(Seq::filter);
    let p = |r: RequestView| r.resp is Some;
    let f = |r: RequestView| ReplyView { to: r.reply, resp: r.resp->0 };
    if b.len() == 0 {
        assert(a + b =~= a);
        assert(a.filter(p).map_values(f) + b.filter(p).map_values(f) =~= a.filter(p).map_values(f));
    } else {
        lemma_waiting_responses(a, b.drop_last());
        assert((a + b).drop_last() =~= a + b.drop_last());
        assert((a + b).last() == b.last());
        let x = b.last();
        if p(x) {
            assert((a + b).filter(p) =~= (a + b.drop_last()).filter(p).push(x));
            assert((a + b).filter(p).map_values(f) =~= (a + b.drop_last()).filter(p).map_values(
                f,
            ).push(f(x)));
            assert(b.filter(p).map_values(f) =~= b.drop_last().filter(p).map_values(f).push(f(x)));
        }
        assert((a + b).filter(p).map_values(f) =~= a.filter(p).map_values(f) + b.filter(
            p,
        ).map_values(f));
    }
}

/// A batch that goes back to the pool has nothing in it.
proof fn lemma_blanks(n: nat)
    ensures
        engine::blanks(n).len() == n,
        forall|i: int|
            0 <= i < n ==> {
                let b = #[trigger] engine::blanks(n)[i];
                b.items.len() == 0 && b.out.len() == 0 && b.lsn_low == 0 && b.lsn_hi == 0
            },
{
}

/// What a flush does besides: nobody waits any more, no flush is under way, as
/// many batches as waited go back to the pool, emptied; and everything else stays
/// as it was.
pub proof fn law_flush_changes_nothing_else(st: EngineView)
    ensures
        ({
            let (after, out) = engine::flushed(st);
            &&& after.awaiting.len() == 0
            &&& !after.planner.running
            &&& after.planner.dirty == st.planner.dirty
            &&& after.planner.cadence == st.planner.cadence
            &&& after.depth == st.depth
            &&& after.pending == st.pending
            &&& after.inflight == st.inflight
            &&& after.spins == st.spins
            &&& after.last_lsn == st.last_lsn
            &&& after.seg == st.seg
            &&& after.level == st.level
            &&& out.replies == engine::flush_replies(st.level, st.awaiting)
            &&& out.recycled.len() == st.awaiting.len()
            &&& forall|i: int|
                0 <= i < out.recycled.len() ==> {
                    let b = #[trigger] out.recycled[i];
                    b.items.len() == 0 && b.out.len() == 0 && b.lsn_low == 0 && b.lsn_hi == 0
                }
            &&& out.fatal is None
            &&& !out.unlink_failed
        }),
{
    lemma_blanks(st.awaiting.len());
}

/// What the completion of a write does, whoever is in the batch: each response
/// that only had to be written goes to its own connection; if anyone is left
/// waiting, the batch waits for a flush behind the others, with its requests,
/// bodies and connections as they were; else it goes back to the pool, emptied.
#[verifier::rlimit(60)]
pub proof fn law_written_batch_answers_or_waits(st: EngineView, b: BatchView, i: int)
    requires
        0 <= i < b.items.len(),
    ensures
        ({
            let (after, out) = engine::written(st, b);
            let r = b.items[i];
            let waits = r.resp is Some && r.data.len() > 0 && r.data[0] == 1 && st.level is Durable;
            &&& out.replies == b.items.filter(
                |r: RequestView|
                    r.resp is Some && (!(r.data.len() > 0 && r.data[0] == 1) || !(
                    st.level is Durable)),
            ).map_values(|r: RequestView| ReplyView { to: r.reply, resp: r.resp->0 })
            &&& waits ==> {
                &&& out.recycled.len() == 0
                &&& after.awaiting.len() == st.awaiting.len() + 1
                &&& after.awaiting.drop_last() == st.awaiting
                &&& after.awaiting.last().items.len() == b.items.len()
                &&& after.awaiting.last().items[i] == r
                &&& after.awaiting.last().out == b.out
            }
            &&& after.awaiting.len() + out.recycled.len() == st.awaiting.len() + 1
            &&& after.awaiting.len() > st.awaiting.len() ==> {
                let x = after.awaiting.last().items[i];
                x.data == r.data && x.reply == r.reply && (x.resp is Some ==> x.resp == r.resp)
            }
            &&& (EngineView { awaiting: st.awaiting, ..after }) == st
            &&& out.fatal is None
            &&& !out.unlink_failed
        }),
{
    let level = st.level;
    let reached = AckPoint::Written;
    acker::law_each_response_goes_where_it_belongs(level, b.items, reached);
    let q = |r: RequestView|
        r.resp is Some && (!(r.data.len() > 0 && r.data[0] == 1) || level is Applied
            || reached is Durable || (level is Written && reached is Written));
    let p = |r: RequestView|
        r.resp is Some && (!(r.data.len() > 0 && r.data[0] == 1) || !(st.level is Durable));
    assert(q =~= p);
    let after = acker::batch_after(level, b, reached);
    acker::law_what_is_not_due_stays(level, b, reached, i);
    lemma_blanks(1);
    assert(st.awaiting.push(after).drop_last() =~= st.awaiting);
    if acker::settled(after) {
        assert(after.items[i].resp is None);
    }
}

/// What every completion does: the operation is no longer in flight, nothing else
/// is taken from there, and it goes on as its end says. A write that has to go on
/// stands first in the queue, before all that was queued, and its missing bytes
/// count once more.
#[verifier::rlimit(60)]
pub proof fn law_what_a_completion_does(st: EngineView, idx: usize, res: i32)
    requires
        st.inflight.contains_key(idx),
    ensures
        ({
            let (after, out) = engine::reaped(st, idx, res);
            let base = EngineView { inflight: st.inflight.remove(idx), ..st };
            match io_work::verdict(st.inflight[idx], res) {
                VerdictView::Okay(Some(b)) => (after, out) == engine::written(base, b),
                VerdictView::Okay(None) => {
                    &&& after == base
                    &&& out.replies.len() == 0 && out.recycled.len() == 0 && out.fatal is None
                    &&& out.unlink_failed <==> res < 0 && res != -2
                },
                VerdictView::Retry(w) => {
                    &&& after.pending.len() == st.pending.len() + 1
                    &&& after.pending[0] == w
                    &&& after.pending.skip(1) == st.pending
                    &&& after.planner == st.planner.queued(
                        match w {
                            WorkView::Write { data, offset, done } => data.out.len() - done,
                            _ => 0,
                        },
                    )
                    &&& (EngineView { pending: st.pending, planner: st.planner, ..after }) == base
                    &&& out.replies.len() == 0 && out.recycled.len() == 0 && out.fatal is None
                    &&& !out.unlink_failed
                },
                VerdictView::Durable => (after, out) == engine::flushed(base),
                VerdictView::Fatal(e) => {
                    &&& after == base
                    &&& out.replies.len() == 0 && out.recycled.len() == 0
                    &&& out.fatal == Some(e)
                    &&& !out.unlink_failed
                },
            }
        }),
{
    if let VerdictView::Retry(w) = io_work::verdict(st.inflight[idx], res) {
        assert((seq![w] + st.pending).skip(1) =~= st.pending);
    }
}

/// What taking in a batch does: one write more at the end of the queue, of the
/// log bytes it had and then one record for every write, with its requests as
/// they were; the file, the window and the numbering move on by it, and nothing
/// else changes.
pub proof fn law_a_batch_is_queued_whole(st: EngineView, b: BatchView)
    requires
        engine::ingestible(st, b),
    ensures
        ({
            let after = engine::ingested(st, b);
            let bytes = b.out + types::redo(b.lsn_low as nat, b.items);
            &&& after.pending.len() == st.pending.len() + 1
            &&& after.pending.drop_last() == st.pending
            &&& after.pending.last() matches WorkView::Write { data, offset, done } && {
                &&& data.items == b.items
                &&& data.out == bytes
                &&& data.lsn_low == b.lsn_low && data.lsn_hi == b.lsn_hi
                &&& offset == st.seg.offset
                &&& done == 0
            }
            &&& after.seg.offset == st.seg.offset + bytes.len()
            &&& after.planner.dirty == st.planner.dirty + bytes.len()
            &&& after.last_lsn == b.lsn_low + types::puts(b.items)
            &&& after.seg.start_lsn == st.seg.start_lsn
            &&& after.inflight == st.inflight && after.awaiting == st.awaiting
            &&& after.level == st.level && after.depth == st.depth && after.spins == st.spins
        }),
{
    let after = engine::ingested(st, b);
    assert(after.pending.drop_last() =~= st.pending);
}

/// When a batch may be taken in: every request has an opcode, it goes on exactly
/// where the log stands, its numbers cover its writes, and its bytes can be
/// counted.
pub proof fn law_which_batches_continue_the_log(st: EngineView, b: BatchView)
    ensures
        engine::ingestible(st, b) <==> {
            let n = b.out.len() + types::redo_size(b.items);
            &&& forall|i: int| 0 <= i < b.items.len() ==> (#[trigger] b.items[i]).data.len() >= 1
            &&& b.lsn_low == st.last_lsn
            &&& b.lsn_hi == b.lsn_low + types::puts(b.items)
            &&& st.seg.offset + n <= u64::MAX
            &&& st.planner.dirty + n <= u64::MAX
        },
        types::redo_size(b.items) == types::redo(b.lsn_low as nat, b.items).len(),
{
    types::lemma_redo_size(b.lsn_low as nat, b.items);
}

/// What arming does: if a flush is due, one goes behind everything that is
/// queued; if none is due, nothing happens.
pub proof fn law_a_flush_goes_behind_all_writes(st: EngineView)
    ensures
        ({
            let after = engine::fsync_armed(st);
            &&& !st.planner.due() ==> after == st
            &&& st.planner.due() ==> {
                &&& after.pending == st.pending.push(WorkView::Fsync { lsn: st.last_lsn })
                &&& after.planner == st.planner.asked()
                &&& after.seg.fsync_offset == st.seg.offset
                &&& after.seg.offset == st.seg.offset
                &&& after.seg.start_lsn == st.seg.start_lsn
                &&& (EngineView {
                    pending: st.pending,
                    planner: st.planner,
                    seg: st.seg,
                    ..after
                }) == st
            }
        }),
{
}

/// What retiring queues: the removals of exactly the segments that start before
/// the boundary, by their whole paths, in the order in which they are listed,
/// behind everything that is queued.
pub proof fn law_retire_removes_exactly(
    st: EngineView,
    segs: Seq<(u64, Seq<u8>)>,
    boundary: u64,
)
    ensures
        engine::retired(st, segs, boundary).pending == st.pending + segs.filter(
            |s: (u64, Seq<u8>)| s.0 < boundary,
        ).map_values(|s: (u64, Seq<u8>)| WorkView::Remove { path: s.1 }),
        (EngineView { pending: st.pending, ..engine::retired(st, segs, boundary) }) == st,
{
    lemma_removals_filter(segs, boundary);
}

/// The removals are those of the segments that start before the boundary.
proof fn lemma_removals_filter(segs: Seq<(u64, Seq<u8>)>, boundary: u64)
    ensures
        engine::removals(segs, boundary) == segs.filter(
            |s: (u64, Seq<u8>)| s.0 < boundary,
        ).map_values(|s: (u64, Seq<u8>)| WorkView::Remove { path: s.1 }),
    decreases segs.len(),
{
    reveal(Seq::filter);
    let p = |s: (u64, Seq<u8>)| s.0 < boundary;
    let f = |s: (u64, Seq<u8>)| WorkView::Remove { path: s.1 };
    if segs.len() == 0 {
        assert(segs.filter(p).map_values(f) =~= seq![]);
    } else {
        let front = segs.drop_last();
        lemma_removals_filter(front, boundary);
        if p(segs.last()) {
            assert(front.filter(p).push(segs.last()).map_values(f) =~= front.filter(p).map_values(
                f,
            ).push(f(segs.last())));
        }
    }
}

/// What a rotation leaves behind: the flush of all who waited, the new file, and
/// everything else as it was.
pub proof fn law_rotation_flushes_and_goes_on(st: EngineView, boundary: u64, len: u64)
    ensures
        ({
            let after = engine::rotated(st, boundary, len);
            &&& after.seg.start_lsn == boundary
            &&& after.seg.offset == len
            &&& after.seg.fsync_offset == len
            &&& (EngineView { seg: st.seg, ..after }) == engine::flushed(st).0
        }),
{
}

/// What a look at the channel does: a message starts the empty polls over, none
/// uses one up; a batch is taken in, and nothing else changes.
pub proof fn law_what_a_poll_does(st: EngineView, b: Batch, boundary: u64)
    requires
        st.spins > i32::MIN,
    ensures
        engine::polled(st, Some(WalMsg::Write(b))) == (EngineView {
            spins: 500,
            ..engine::ingested(st, b@)
        }),
        engine::polled(st, Some(WalMsg::Rotate { boundary_lsn: boundary })) == (EngineView {
            spins: 500,
            ..st
        }),
        engine::polled(st, Some(WalMsg::Retire { boundary_lsn: boundary })) == (EngineView {
            spins: 500,
            ..st
        }),
        engine::polled(st, None).spins == st.spins - 1,
        engine::pollable(st, None),
        engine::pollable(st, Some(WalMsg::Rotate { boundary_lsn: boundary })),
        engine::pollable(st, Some(WalMsg::Retire { boundary_lsn: boundary })),
        engine::pollable(st, Some(WalMsg::Write(b))) <==> engine::ingestible(st, b@),
        (EngineView { spins: st.spins, ..engine::polled(st, None) }) == st,
        engine::todo_for(Some(WalMsg::Write(b))) is Nothing,
        engine::todo_for(None) is Nothing,
        engine::todo_for(Some(WalMsg::Rotate { boundary_lsn: boundary })) == (Todo::Rotate {
            boundary_lsn: boundary,
        }),
        engine::todo_for(Some(WalMsg::Retire { boundary_lsn: boundary })) == (Todo::Retire {
            boundary_lsn: boundary,
        }),
{
}

/// When the ring is waited on, submitted to, or left alone.
pub proof fn law_when_the_ring_is_waited_on(st: EngineView, submitted: bool)
    ensures
        ({
            let step = engine::ring_step_of(st, submitted);
            let busy = st.inflight.len() > 0;
            &&& st.inflight.len() >= st.depth ==> step is SubmitAndWait
            &&& busy && st.spins <= 0 ==> step is SubmitAndWait
            &&& st.inflight.len() < st.depth && (!busy || st.spins > 0) ==> (step is Submit
                <==> submitted) && (step is Idle <==> !submitted)
            &&& st.drained() <==> st.pending.len() == 0 && st.inflight == Map::<
                usize,
                WorkView,
            >::empty()
        }),
{
}

/// The views of runs of operations, batches and segments keep every one of them,
/// in order.
pub proof fn law_run_views(
    ws: Seq<IoWork>,
    bs: Seq<Batch>,
    segs: Seq<(u64, Vec<u8>)>,
    i: int,
)
    ensures
        engine::works(ws).len() == ws.len(),
        engine::batches(bs).len() == bs.len(),
        engine::seg_paths(segs).len() == segs.len(),
        0 <= i < ws.len() ==> engine::works(ws)[i] == ws[i]@,
        0 <= i < bs.len() ==> engine::batches(bs)[i] == bs[i]@,
        0 <= i < segs.len() ==> engine::seg_paths(segs)[i] == (segs[i].0, segs[i].1@),
{
}

/// A new engine has nothing queued, nothing in flight and nobody waiting, goes on
/// at the end of its file, and has all its empty polls.
pub proof fn law_a_new_engine_has_nothing_to_do(
    depth: usize,
    start_lsn: u64,
    len: u64,
    level: AckPoint,
    cadence: FsyncCadence,
)
    ensures
        ({
            let st = engine::fresh(depth, start_lsn, len, level, cadence);
            &&& st.depth == depth && st.level == level && st.spins == 500
            &&& st.last_lsn == start_lsn && st.seg.start_lsn == start_lsn
            &&& st.seg.offset == len && st.seg.fsync_offset == len
            &&& st.pending.len() == 0 && st.awaiting.len() == 0
            &&& st.inflight == Map::<usize, WorkView>::empty()
            &&& st.planner.cadence == cadence && st.planner.dirty == 0 && !st.planner.running
        }),
{
}

/// Which completions are taken in: of operations in flight, with any result that
/// is a byte count or an error number, as long as the counts do not run over.
pub proof fn law_which_completions_are_taken_in(st: EngineView, idx: usize, res: i32)
    ensures
        !st.inflight.contains_key(idx) ==> !engine::reapable(st, idx, res),
        st.inflight.contains_key(idx) ==> match st.inflight[idx] {
            WorkView::Write { data, offset, done } => engine::reapable(st, idx, res) <==> {
                let written = if res >= 0 {
                    res as int
                } else {
                    0
                };
                let again = res == -4 || res == -11 || (res >= 0 && done + res < data.out.len());
                &&& res > i32::MIN
                &&& done + written <= usize::MAX
                &&& again ==> st.planner.dirty + data.out.len() - (done + written) <= u64::MAX
            },
            WorkView::Fsync { lsn } => engine::reapable(st, idx, res) <==> res > i32::MIN,
            WorkView::Remove { path } => engine::reapable(st, idx, res),
        },
{
}

/// The views of operations, of how they end and of what comes out are what they
/// are views of.
pub proof fn law_operation_views(w: IoWork, v: Verdict, c: Completion)
    ensures
        w matches IoWork::Write(x) ==> w@ == (WorkView::Write {
            data: x.data@,
            offset: x.offset,
            done: x.done,
        }),
        w matches IoWork::Fsync(lsn) ==> w@ == (WorkView::Fsync { lsn }),
        w matches IoWork::Remove(path) ==> w@ == (WorkView::Remove { path: path@ }),
        v matches Verdict::Okay(Some(b)) ==> v@ == VerdictView::Okay(Some(b@)),
        v matches Verdict::Okay(None) ==> v@ == VerdictView::Okay(None),
        v matches Verdict::Retry(x) ==> v@ == VerdictView::Retry(x@),
        v is Durable ==> v@ is Durable,
        v matches Verdict::Fatal(e) ==> v@ == VerdictView::Fatal(e),
        c@.replies == acker::replies(c.replies@),
        c@.recycled == engine::batches(c.recycled@),
        c@.fatal == c.fatal,
        c@.unlink_failed == c.unlink_failed,
{
}

} // verus!
