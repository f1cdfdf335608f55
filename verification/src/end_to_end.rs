//! What holds of the stages together: from a client's request to what comes back
//! after a restart.

use vstd::prelude::*;

use crate::acker;
use crate::acker::{AckPoint, ReplyView};
use crate::client::calls;
use crate::client::calls::CallView;
use crate::stage1;
use crate::stage1::Reading;
use crate::stage2;
use crate::stage2::LoopView;
use crate::stage3::engine;
use crate::stage3::engine::EngineView;
use crate::stage3::engine_laws;
use crate::stage3::segment::SegmentView;
use crate::storage::recovery;
use crate::storage::recovery::RecoveryView;
use crate::storage::wal_format;
use crate::types;
use crate::types::{BatchView, RequestView};
use crate::wire;
use crate::wire::{Operation, RespView};

verus! {

/// Stage 2 after a run of batches.
pub open spec fn ran(st: LoopView, bs: Seq<BatchView>) -> LoopView
    decreases bs.len(),
{
    if bs.len() == 0 {
        st
    } else {
        stage2::after_batch(ran(st, bs.drop_last()), bs.last())
    }
}

/// The batches that stage 2 passes on to the log.
pub open spec fn passed_on(st: LoopView, bs: Seq<BatchView>) -> Seq<BatchView>
    decreases bs.len(),
{
    if bs.len() == 0 {
        seq![]
    } else {
        let front = passed_on(st, bs.drop_last());
        if types::puts(bs.last().items) > 0 {
            front.push(stage2::handled(ran(st, bs.drop_last()), bs.last()))
        } else {
            front
        }
    }
}

/// Batches as the pool and the network fill them: no log bytes yet, and every
/// request can be handled.
pub open spec fn fresh_batches(bs: Seq<BatchView>) -> bool {
    forall|i: int|
        0 <= i < bs.len() ==> (#[trigger] bs[i]).out.len() == 0 && types::all_answerable(
            bs[i].items,
        )
}

/// The engine goes on where stage 2 does, and there is room for the records of
/// the requests.
pub open spec fn in_step(eng: EngineView, lsn: u64, reqs: Seq<RequestView>) -> bool {
    &&& eng.last_lsn == lsn
    &&& eng.seg.valid()
    &&& lsn + types::puts(reqs) <= u64::MAX
    &&& eng.seg.offset + types::redo_size(reqs) <= u64::MAX
    &&& eng.planner.dirty + types::redo_size(reqs) <= u64::MAX
}

/// The bytes that records take add up.
proof fn lemma_redo_size_concat(a: Seq<RequestView>, b: Seq<RequestView>)
    ensures
        types::redo_size(a + b) == types::redo_size(a) + types::redo_size(b),
{
    types::law_batches_compose(Map::empty(), 0, a, b);
    types::lemma_redo_size(0, a + b);
    types::lemma_redo_size(0, a);
    types::lemma_redo_size(types::puts(a), b);
}

/// What stage 2 passes on has the bodies that came in.
proof fn lemma_handled_bodies(st: LoopView, b: BatchView, lsn: nat)
    requires
        types::all_answerable(b.items),
    ensures
        types::puts(stage2::handled(st, b).items) == types::puts(b.items),
        types::redo(lsn, stage2::handled(st, b).items) == types::redo(lsn, b.items),
        types::all_have_op(stage2::handled(st, b).items),
{
    let out = stage2::handled(st, b).items;
    assert forall|i: int| 0 <= i < out.len() implies (#[trigger] out[i]).data == b.items[i].data
        && out[i].data.len() >= 1 by {
        assert(types::answerable(b.items[i].data));
    }
    types::lemma_same_bodies(out, b.items, lsn);
}

/// The stages never lose step: every batch that stage 2 passes on is one that
/// the log engine takes in next, without a gap, and the bytes that end up in the
/// log are the records of all the requests, in order, numbered by the same rule
/// as the writes.
#[verifier::rlimit(60)]
pub proof fn law_stages_stay_in_step(st: LoopView, eng: EngineView, bs: Seq<BatchView>)
    requires
        fresh_batches(bs),
        in_step(eng, st.lsn, engine_laws::items_of(bs)),
    ensures
        ({
            let reqs = engine_laws::items_of(bs);
            let log = passed_on(st, bs);
            &&& ran(st, bs).db == types::table_after(st.db, reqs)
            &&& ran(st, bs).lsn == st.lsn + types::puts(reqs)
            &&& engine_laws::all_ingestible(eng, log)
            &&& engine_laws::ingested_all(eng, log).last_lsn == ran(st, bs).lsn
            &&& engine_laws::log_of(engine_laws::queued_by(eng, log)) == types::redo(
                st.lsn as nat,
                reqs,
            )
        }),
    decreases bs.len(),
{
    let reqs = engine_laws::items_of(bs);
    let log = passed_on(st, bs);
    engine_laws::law_log_is_gapless(eng, seq![]);
    if bs.len() > 0 {
        let front = bs.drop_last();
        let b = bs.last();
        let before = engine_laws::items_of(front);
        assert(bs[bs.len() - 1] == b);
        assert forall|i: int| 0 <= i < front.len() implies (#[trigger] front[i]).out.len() == 0
            && types::all_answerable(front[i].items) by {
            assert(front[i] == bs[i]);
        }
        lemma_redo_size_concat(before, b.items);
        types::law_batches_compose(st.db, st.lsn as nat, before, b.items);
        law_stages_stay_in_step(st, eng, front);
        let mid = ran(st, front);
        let log0 = passed_on(st, front);
        let eng0 = engine_laws::ingested_all(eng, log0);
        engine_laws::law_log_is_gapless(eng, log0);
        if types::puts(b.items) > 0 {
            let h = stage2::handled(mid, b);
            lemma_handled_bodies(mid, b, mid.lsn as nat);
            types::lemma_redo_size(st.lsn as nat, before);
            types::lemma_redo_size(mid.lsn as nat, b.items);
            assert(log.drop_last() =~= log0);
            assert(engine::logged(h).out =~= types::redo(mid.lsn as nat, b.items));
            assert(engine::ingestible(eng0, h));
            assert(engine_laws::all_ingestible(eng, log));
            engine_laws::law_log_is_gapless(eng, log);
            let ws = engine_laws::queued_by(eng, log);
            let ws0 = engine_laws::queued_by(eng, log0);
            assert(ws.drop_last() =~= ws0);
            assert(engine_laws::log_of(ws) == engine_laws::log_of(ws0) + engine::logged(h).out);
        } else {
            types::law_reads_change_nothing(mid.db, mid.lsn as nat, b.items);
            assert(types::redo(st.lsn as nat, reqs) =~= types::redo(st.lsn as nat, before));
        }
    }
}

/// Nothing that reached the log is lost: recovery from a table that holds what
/// stage 2 started from, with the log of a run of batches, brings back the table
/// that stage 2 had at the end.
pub proof fn law_restart_restores_the_table(
    st: LoopView,
    eng: EngineView,
    bs: Seq<BatchView>,
    rec: RecoveryView,
)
    requires
        fresh_batches(bs),
        in_step(eng, st.lsn, engine_laws::items_of(bs)),
        recovery::records_fit(engine_laws::items_of(bs)),
        !rec.torn,
        rec.db == st.db,
        rec.snap_lsn <= st.lsn,
        rec.highest <= st.lsn,
    ensures
        recovery::replay(
            rec,
            engine_laws::log_of(engine_laws::queued_by(eng, passed_on(st, bs))),
        ).db == ran(st, bs).db,
{
    let reqs = engine_laws::items_of(bs);
    law_stages_stay_in_step(st, eng, bs);
    lemma_all_answerable(bs);
    recovery::law_replay_redoes_the_log(rec, st.lsn as nat, reqs);
}

/// The requests of fresh batches can all be handled.
proof fn lemma_all_answerable(bs: Seq<BatchView>)
    requires
        fresh_batches(bs),
    ensures
        types::all_answerable(engine_laws::items_of(bs)),
    decreases bs.len(),
{
    if bs.len() > 0 {
        let front = bs.drop_last();
        assert(bs[bs.len() - 1] == bs.last());
        assert forall|i: int| 0 <= i < front.len() implies (#[trigger] front[i]).out.len() == 0
            && types::all_answerable(front[i].items) by {
            assert(front[i] == bs[i]);
        }
        lemma_all_answerable(front);
        let reqs = engine_laws::items_of(bs);
        let before = engine_laws::items_of(front);
        assert forall|i: int| 0 <= i < reqs.len() implies types::answerable(
            (#[trigger] reqs[i]).data,
        ) by {
            if i < before.len() {
                assert(reqs[i] == before[i]);
            } else {
                assert(reqs[i] == bs.last().items[i - before.len()]);
            }
        }
    }
}

/// Who still waits when a batch leaves stage 2: where writes have to be written
/// or durable, every write, with its response, and nobody else; where it is
/// enough that they are applied, nobody.
pub proof fn law_waiting_writes_leave_stage2_unanswered(st: LoopView, b: BatchView, i: int)
    requires
        0 <= i < b.items.len(),
    ensures
        engine_laws::reads_are_answered(stage2::handled(st, b).items),
        stage2::handled(st, b).items[i].resp == if types::is_put(b.items[i].data) && !(
        st.level is Applied) {
            Some(RespView::Okay)
        } else {
            None
        },
{
    engine_laws::law_applied_answers_reads(st.level, types::applied(st.db, st.lsn, b));
}

/// A compaction never removes what is still needed: the file that the log goes
/// on in starts at the snapshot's boundary, which is not before the one that the
/// removal names, and the snapshot is labelled with a write that it holds.
pub proof fn law_compaction_keeps_the_open_file(st: LoopView, len: u64)
    requires
        st.valid(),
        st.snapshot_due(),
    ensures
        SegmentView::opened(st.boundary(), len).start_lsn >= st.boundary() - 1,
        0 <= st.boundary() - 1,
        st.boundary() < st.lsn,
        stage2::compacted(st).valid(),
        !stage2::compacted(st).snapshot_due(),
{
}

/// Whatever stage 1 reads off the network has a log record that says its length
/// in full.
pub proof fn law_accepted_requests_fit_the_log(st: Reading, stream: Seq<u8>, conn: u64)
    requires
        st matches Reading::Body(n) ==> stage1::acceptable(n as nat),
    ensures
        recovery::records_fit(
            stage1::read_stream(st, stream).map_values(
                |data: Seq<u8>| stage1::new_request(data, conn),
            ),
        ),
{
    let bodies = stage1::read_stream(st, stream);
    let reqs = bodies.map_values(|data: Seq<u8>| stage1::new_request(data, conn));
    assert forall|i: int| 0 <= i < reqs.len() implies wal_format::LSN_SIZE + (
    #[trigger] reqs[i]).data.len() < 0x1_0000_0000 by {
        stage1::law_read_bodies_are_acceptable(st, stream, i);
        assert(reqs[i].data == bodies[i]);
    }
}

/// A client reads what it wrote: of the two frames that a write and then a read
/// of the same key put on the wire, the server reads two requests; whatever the
/// table held, the write is acknowledged and the read is answered with the value
/// written.
pub proof fn law_client_reads_its_write(
    db: Map<Seq<u8>, Seq<u8>>,
    key: Seq<u8>,
    value: Seq<u8>,
    put_id: u64,
    get_id: u64,
)
    requires
        5 + key.len() + value.len() <= stage1::MAX_BODY,
    ensures
        ({
            let put = CallView { op: Operation::Put, key, value: Some(value), id: put_id };
            let get = CallView { op: Operation::Get, key, value: None, id: get_id };
            let bodies = stage1::read_stream(
                Reading::Length,
                calls::call_stream(seq![put, get]),
            );
            &&& bodies.len() == 2
            &&& types::answerable(bodies[0]) && types::answerable(bodies[1])
            &&& types::answer(db, bodies[0]) == RespView::Okay
            &&& types::answer(types::effect(db, bodies[0]), bodies[1]) == RespView::Value(value)
        }),
{
    broadcast use crate::le::group_le_len;

    let put = CallView { op: Operation::Put, key, value: Some(value), id: put_id };
    let get = CallView { op: Operation::Get, key, value: None, id: get_id };
    let b0 = wire::request_body(Operation::Put, key, Some(value));
    let b1 = wire::request_body(Operation::Get, key, None);
    let cs = seq![put, get];
    let bodies = seq![b0, b1];
    assert(cs.drop_last() =~= seq![put]);
    assert(seq![put].drop_last() =~= seq![]);
    assert(calls::call_stream(seq![]) =~= seq![]);
    assert(calls::call_stream(seq![put]) =~= wire::framed(b0));
    assert(calls::call_stream(cs) =~= wire::framed(b0) + wire::framed(b1));
    assert(bodies.skip(1) =~= seq![b1]);
    assert(seq![b1].skip(1) =~= seq![]);
    assert(stage1::frames(seq![]) =~= seq![]);
    assert(stage1::frames(seq![b1]) =~= wire::framed(b1));
    assert(stage1::frames(bodies) =~= wire::framed(b0) + wire::framed(b1));
    stage1::law_requests_arrive_as_sent(bodies, seq![]);
    assert(stage1::frames(bodies) + seq![] =~= stage1::frames(bodies));
    assert(stage1::read_stream(Reading::Length, seq![]) =~= seq![]);
    assert(bodies + seq![] =~= bodies);
    wire::law_request_roundtrip(Operation::Put, key, Some(value));
    wire::law_request_roundtrip(Operation::Get, key, None);
}

/// The requests of a run of batches are those of each, in order; and stage 2 goes
/// through all of them.
pub proof fn law_stage2_goes_through_every_batch(st: LoopView, bs: Seq<BatchView>)
    ensures
        engine_laws::items_of(bs) == bs.map_values(|b: BatchView| b.items).flatten(),
        ran(st, bs).db == types::table_after(
            st.db,
            bs.map_values(|b: BatchView| b.items).flatten(),
        ),
    decreases bs.len(),
{
    let f = |b: BatchView| b.items;
    if bs.len() == 0 {
        assert(bs.map_values(f) =~= seq![]);
        assert(bs.map_values(f).flatten() =~= seq![]);
    } else {
        let front = bs.drop_last();
        law_stage2_goes_through_every_batch(st, front);
        assert(bs.map_values(f) =~= front.map_values(f).push(bs.last().items));
        front.map_values(f).lemma_flatten_push(bs.last().items);
        types::law_batches_compose(
            st.db,
            0,
            engine_laws::items_of(front),
            bs.last().items,
        );
    }
}

/// What was recovered is served: a store that starts with a table answers a read
/// of a key, in any batch after any number of others, with what the table had for
/// it, as long as no request in front of the read wrote the key; and the answer
/// goes out at once, to the one who asked.
#[verifier::rlimit(60)]
pub proof fn law_recovered_keys_are_served(
    db: Map<Seq<u8>, Seq<u8>>,
    level: AckPoint,
    start_lsn: u64,
    gap: u64,
    bs: Seq<BatchView>,
    before: Seq<RequestView>,
    b: BatchView,
    i: int,
)
    requires
        0 <= i < b.items.len(),
        b.items[i].data.len() >= 1,
        b.items[i].data[0] == 0,
        before == bs.map_values(|x: BatchView| x.items).flatten(),
        forall|j: int|
            0 <= j < before.len() && types::is_put((#[trigger] before[j]).data) ==> wire::body_key(
                before[j].data,
            ) != wire::body_key(b.items[i].data),
        forall|j: int|
            0 <= j < i && types::is_put((#[trigger] b.items[j]).data) ==> wire::body_key(
                b.items[j].data,
            ) != wire::body_key(b.items[i].data),
        ran(stage2::started(db, level, start_lsn, gap), bs).lsn + types::puts(b.items) <= u64::MAX,
    ensures
        ({
            let st = ran(stage2::started(db, level, start_lsn, gap), bs);
            let items = types::applied(st.db, st.lsn, b).items;
            let key = wire::body_key(b.items[i].data);
            let resp = if db.contains_key(key) {
                RespView::Value(db[key])
            } else {
                RespView::Miss
            };
            &&& items[i].resp == Some(resp)
            &&& acker::sent(level, items, AckPoint::Applied).contains(
                ReplyView { to: b.items[i].reply, resp },
            )
        }),
{
    let st0 = stage2::started(db, level, start_lsn, gap);
    let st = ran(st0, bs);
    let key = wire::body_key(b.items[i].data);
    stage2::law_start_keeps_the_table(db, level, start_lsn, gap);
    law_stage2_goes_through_every_batch(st0, bs);
    types::law_unwritten_keys_stay(db, before, key);
    types::law_every_request_is_answered(st.db, st.lsn, b, i);
    lemma_reads_go_out(level, types::applied(st.db, st.lsn, b).items, i);
}

/// The response of a read is among those that go out at once.
proof fn lemma_reads_go_out(level: AckPoint, items: Seq<RequestView>, i: int)
    requires
        0 <= i < items.len(),
        items[i].resp is Some,
        !types::is_put(items[i].data),
    ensures
        acker::sent(level, items, AckPoint::Applied).contains(
            ReplyView { to: items[i].reply, resp: items[i].resp->0 },
        ),
    decreases items.len(),
{
    let front = items.drop_last();
    let n = items.len() - 1;
    let want = ReplyView { to: items[i].reply, resp: items[i].resp->0 };
    let before = acker::sent(level, front, AckPoint::Applied);
    let all = acker::sent(level, items, AckPoint::Applied);
    if i < n {
        assert(front[i] == items[i]);
        lemma_reads_go_out(level, front, i);
        let j = choose|j: int| 0 <= j < before.len() && before[j] == want;
        assert(all[j] == want);
    } else {
        assert(all == before.push(want));
        assert(all[before.len() as int] == want);
    }
}

/// What a call becomes on the server.
#[verifier::rlimit(60)]
proof fn lemma_call_arrives(cs: Seq<CallView>, i: int)
    requires
        0 <= i < cs.len(),
        forall|j: int|
            0 <= j < cs.len() ==> {
                &&& (#[trigger] cs[j]).op is Put ==> cs[j].value is Some
                &&& 5 + cs[j].key.len() + match cs[j].value {
                    Some(v) => v.len(),
                    None => 0,
                } <= 8_388_608
            },
    ensures
        ({
            let bodies = stage1::read_stream(Reading::Length, calls::call_stream(cs));
            &&& bodies.len() == cs.len()
            &&& types::answerable(bodies[i])
            &&& bodies[i].len() >= 1
            &&& bodies[i][0] == if cs[i].op is Put {
                1u8
            } else {
                0u8
            }
            &&& types::is_put(bodies[i]) <==> cs[i].op is Put
            &&& wire::body_key(bodies[i]) == cs[i].key
            &&& cs[i].value matches Some(v) ==> wire::body_val(bodies[i]) == v
        }),
{
    let p = |c: CallView| c.op is Get || c.value is Some;
    let f = |c: CallView| wire::request_frame(c.op, c.key, c.value).skip(4);
    let stream = calls::call_stream(cs);
    calls::law_server_reads_every_call(cs, seq![]);
    stage1::law_streams_are_read_frame_by_frame(seq![]);
    assert(stream + seq![] =~= stream);
    assert forall|j: int| 0 <= j < cs.len() implies p(#[trigger] cs[j]) by {}
    lemma_filter_all(cs);
    assert(cs.filter(p) == cs);
    assert(cs.map_values(f) + seq![] =~= cs.map_values(f));
    let c = cs[i];
    assert(5 + c.key.len() <= 8_388_608);
    types::law_encoded_requests_are_answerable(c.op, c.key, c.value);
    wire::law_request_layout(c.op, c.key, c.value);
    let frame = wire::request_frame(c.op, c.key, c.value);
    assert(frame.skip(4)[0] == frame[4]);
}

/// Of calls that all have a frame, none is left out.
proof fn lemma_filter_all(cs: Seq<CallView>)
    requires
        forall|j: int| 0 <= j < cs.len() ==> (#[trigger] cs[j]).op is Get || cs[j].value is Some,
    ensures
        cs.filter(|c: CallView| c.op is Get || c.value is Some) == cs,
    decreases cs.len(),
{
    reveal(Seq::filter);
    let p = |c: CallView| c.op is Get || c.value is Some;
    if cs.len() > 0 {
        let front = cs.drop_last();
        assert forall|j: int| 0 <= j < front.len() implies (#[trigger] front[j]).op is Get
            || front[j].value is Some by {
            assert(front[j] == cs[j]);
        }
        lemma_filter_all(front);
        assert(cs[cs.len() - 1] == cs.last());
        assert(front.push(cs.last()) =~= cs);
    }
}

/// What clients are for, from the call to the answer: of any run of calls that a
/// client writes to its connection, each one, whatever its place and however long
/// its key and value, becomes one request on the server; a write is answered that
/// it took effect, and a read with the whole value of the last write of its key
/// among the calls in front of it, or, if there is none, with what the table held.
#[verifier::rlimit(60)]
pub proof fn law_calls_are_answered(
    cs: Seq<CallView>,
    db: Map<Seq<u8>, Seq<u8>>,
    lsn: u64,
    conn: u64,
    out: Seq<u8>,
    i: int,
)
    requires
        0 <= i < cs.len(),
        lsn + cs.len() <= u64::MAX,
        forall|j: int|
            0 <= j < cs.len() ==> {
                &&& (#[trigger] cs[j]).op is Put ==> cs[j].value is Some
                &&& 5 + cs[j].key.len() + match cs[j].value {
                    Some(v) => v.len(),
                    None => 0,
                } <= 8_388_608
            },
    ensures
        ({
            let bodies = stage1::read_stream(Reading::Length, calls::call_stream(cs));
            let reqs = bodies.map_values(|d: Seq<u8>| stage1::new_request(d, conn));
            let b = BatchView { items: reqs, out, lsn_low: 0, lsn_hi: 0 };
            let a = types::applied(db, lsn, b);
            let key = cs[i].key;
            &&& a.items.len() == cs.len()
            &&& a.items[i].reply == conn
            &&& cs[i].op is Put ==> a.items[i].resp == Some(RespView::Okay)
            &&& cs[i].op is Get && (forall|j: int|
                0 <= j < i && (#[trigger] cs[j]).op is Put ==> cs[j].key != key)
                ==> a.items[i].resp == Some(
                if db.contains_key(key) {
                    RespView::Value(db[key])
                } else {
                    RespView::Miss
                },
            )
            &&& cs[i].op is Get ==> forall|p: int|
                0 <= p < i && (#[trigger] cs[p]).op is Put && cs[p].key == key && (forall|j: int|
                    p < j < i && (#[trigger] cs[j]).op is Put ==> cs[j].key != key)
                    ==> a.items[i].resp == Some(RespView::Value(cs[p].value->0))
        }),
{
    let bodies = stage1::read_stream(Reading::Length, calls::call_stream(cs));
    let reqs = bodies.map_values(|d: Seq<u8>| stage1::new_request(d, conn));
    let b = BatchView { items: reqs, out, lsn_low: 0, lsn_hi: 0 };
    let a = types::applied(db, lsn, b);
    let key = cs[i].key;
    lemma_call_arrives(cs, i);
    assert forall|j: int| 0 <= j < cs.len() implies {
        &&& (#[trigger] reqs[j]).data == bodies[j]
        &&& types::is_put(reqs[j].data) <==> cs[j].op is Put
        &&& wire::body_key(reqs[j].data) == cs[j].key
        &&& cs[j].value matches Some(v) ==> wire::body_val(reqs[j].data) == v
    } by {
        lemma_call_arrives(cs, j);
    }
    lemma_few_writes(reqs);
    types::law_every_request_is_answered(db, lsn, b, i);
    assert(reqs[i].data == bodies[i]);
    if cs[i].op is Get {
        if forall|j: int| 0 <= j < i && (#[trigger] cs[j]).op is Put ==> cs[j].key != key {
            assert forall|j: int|
                0 <= j < i && types::is_put((#[trigger] b.items[j]).data) implies wire::body_key(
                b.items[j].data,
            ) != key by {
                assert(reqs[j].data == bodies[j]);
                assert(cs[j].op is Put);
            }
        }
        assert forall|p: int|
            0 <= p < i && (#[trigger] cs[p]).op is Put && cs[p].key == key && (forall|j: int|
                p < j < i && (#[trigger] cs[j]).op is Put ==> cs[j].key != key)
            implies a.items[i].resp == Some(RespView::Value(cs[p].value->0)) by {
            assert(types::is_put(b.items[p].data));
            assert forall|j: int|
                p < j < i && types::is_put((#[trigger] b.items[j]).data) implies wire::body_key(
                b.items[j].data,
            ) != key by {
                assert(reqs[j].data == bodies[j]);
                assert(cs[j].op is Put);
            }
        }
    }
}

/// There are no more writes than requests.
proof fn lemma_few_writes(reqs: Seq<RequestView>)
    ensures
        types::puts(reqs) <= reqs.len(),
    decreases reqs.len(),
{
    if reqs.len() > 0 {
        lemma_few_writes(reqs.drop_last());
    }
}

/// A write that reached the log is served after a restart: recovery brings back
/// the table that stage 2 had, and stage 2 starts again with it, so that the key
/// of every write has the whole value of its last one.
#[verifier::rlimit(60)]
pub proof fn law_restart_serves_the_last_write(
    st: LoopView,
    eng: EngineView,
    bs: Seq<BatchView>,
    rec: RecoveryView,
    level: AckPoint,
    start_lsn: u64,
    gap: u64,
    p: int,
)
    requires
        fresh_batches(bs),
        in_step(eng, st.lsn, engine_laws::items_of(bs)),
        recovery::records_fit(engine_laws::items_of(bs)),
        !rec.torn,
        rec.db == st.db,
        rec.snap_lsn <= st.lsn,
        rec.highest <= st.lsn,
        0 <= p < engine_laws::items_of(bs).len(),
        types::is_put(engine_laws::items_of(bs)[p].data),
        forall|j: int|
            p < j < engine_laws::items_of(bs).len() && types::is_put(
                (#[trigger] engine_laws::items_of(bs)[j]).data,
            ) ==> wire::body_key(engine_laws::items_of(bs)[j].data) != wire::body_key(
                engine_laws::items_of(bs)[p].data,
            ),
    ensures
        ({
            let log = engine_laws::log_of(engine_laws::queued_by(eng, passed_on(st, bs)));
            let again = stage2::started(recovery::replay(rec, log).db, level, start_lsn, gap);
            let write = engine_laws::items_of(bs)[p].data;
            &&& again.db.contains_key(wire::body_key(write))
            &&& again.db[wire::body_key(write)] == wire::body_val(write)
        }),
{
    let log = engine_laws::log_of(engine_laws::queued_by(eng, passed_on(st, bs)));
    law_restart_restores_the_table(st, eng, bs, rec);
    law_stage2_goes_through_every_batch(st, bs);
    types::law_last_write_stays(st.db, engine_laws::items_of(bs), p);
    stage2::law_start_keeps_the_table(recovery::replay(rec, log).db, level, start_lsn, gap);
}

} // verus!
