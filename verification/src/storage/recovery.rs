//! Recovery: load the snapshot, then replay the log records behind it.

use vstd::prelude::*;
use vstd::slice::slice_subrange;

use crate::storage::db::Db;
use crate::storage::snapshot;
use crate::storage::table;
use crate::storage::wal_format;
use crate::storage::wal_format::RecordView;
use crate::types;
use crate::types::RequestView;
use crate::wire;

verus! {

broadcast use crate::le::group_le_len;

/// What has been recovered so far.
pub struct Recovery {
    pub db: Db,
    /// The snapshot holds every write up to this sequence number.
    pub snap_lsn: u64,
    /// The highest sequence number seen.
    pub highest: u64,
    /// Records replayed.
    pub replayed: u64,
    /// The log ended in a torn or corrupted record.
    pub torn: bool,
}

/// A recovery with the table as a map.
#[verifier::ext_equal]
pub struct RecoveryView {
    pub db: Map<Seq<u8>, Seq<u8>>,
    pub snap_lsn: u64,
    pub highest: u64,
    pub replayed: u64,
    pub torn: bool,
}

impl View for Recovery {
    type V = RecoveryView;

    open spec fn view(&self) -> RecoveryView {
        RecoveryView {
            db: self.db@,
            snap_lsn: self.snap_lsn,
            highest: self.highest,
            replayed: self.replayed,
            torn: self.torn,
        }
    }
}

/// A logged request that can be redone: it has an opcode, and if it is a write,
/// its key and value are there.
pub open spec fn redoable(data: Seq<u8>) -> bool {
    data.len() >= 1 && (types::is_put(data) ==> wire::kv_fits(data))
}

/// One record redone.
pub open spec fn redone(st: RecoveryView, lsn: u64, data: Seq<u8>) -> RecoveryView {
    RecoveryView {
        db: types::effect(st.db, data),
        highest: if lsn > st.highest {
            lsn
        } else {
            st.highest
        },
        replayed: if st.replayed < u64::MAX {
            (st.replayed + 1) as u64
        } else {
            u64::MAX
        },
        ..st
    }
}

/// What a record at the front of the log does: nothing if the snapshot holds it
/// already, else it is redone. `None` if it cannot be redone.
pub open spec fn record_redone(st: RecoveryView, rec: RecordView) -> Option<RecoveryView> {
    if rec.lsn <= st.snap_lsn {
        Some(st)
    } else if redoable(rec.wire) {
        Some(redone(st, rec.lsn, rec.wire))
    } else {
        None
    }
}

/// The log replayed up to its end or to the first torn or corrupted record.
pub open spec fn replay(st: RecoveryView, log: Seq<u8>) -> RecoveryView
    decreases log.len(),
{
    if st.torn || log.len() == 0 {
        st
    } else {
        match wal_format::record_at(log) {
            Some(rec) => match record_redone(st, rec) {
                Some(next) => replay(next, log.skip(rec.consumed as int)),
                None => RecoveryView { torn: true, ..st },
            },
            None => RecoveryView { torn: true, ..st },
        }
    }
}

/// Segments replayed one after the other.
pub open spec fn replay_all(st: RecoveryView, logs: Seq<Seq<u8>>) -> RecoveryView
    decreases logs.len(),
{
    if logs.len() == 0 {
        st
    } else {
        replay(replay_all(st, logs.drop_last()), logs.last())
    }
}

/// What is known before the log is looked at: the snapshot, where there is one.
pub open spec fn from_snapshot(snap: Option<Seq<u8>>) -> RecoveryView {
    match snap {
        Some(bytes) if snapshot::header_ok(bytes) => RecoveryView {
            db: snapshot::filled(
                table::no_entries(),
                snapshot::snapshot_entries(bytes).unwrap(),
            ),
            snap_lsn: snapshot::header_lsn(bytes),
            highest: snapshot::header_lsn(bytes),
            replayed: 0,
            torn: false,
        },
        _ => RecoveryView {
            db: table::no_entries(),
            snap_lsn: 0,
            highest: 0,
            replayed: 0,
            torn: false,
        },
    }
}

/// The bytes of each segment.
pub open spec fn logs_of(segments: Seq<Vec<u8>>) -> Seq<Seq<u8>> {
    segments.map_values(|s: Vec<u8>| s@)
}

impl Recovery {
    /// Loads the snapshot, where there is one. Bytes that are no snapshot count
    /// as none.
    pub fn start(snap: Option<&[u8]>) -> (r: Self)
        requires
            snap matches Some(bytes) ==> snapshot::loadable(bytes@),
        ensures
            r@ == from_snapshot(wire::opt_bytes(snap)),
    {
        let mut db = Db::new();
        let mut snap_lsn: u64 = 0;
        if let Some(bytes) = snap {
            if let Some(lsn) = snapshot::load(bytes, &mut db) {
                snap_lsn = lsn;
            }
        }
        Recovery { db, snap_lsn, highest: snap_lsn, replayed: 0, torn: false }
    }

    /// Replays one segment, up to its end or to the first torn or corrupted
    /// record. After such a record nothing more is replayed.
    pub fn replay_segment(&mut self, bytes: &[u8])
        ensures
            final(self)@ == replay(old(self)@, bytes@),
    {
        let n = bytes.len();
        let mut p: usize = 0;
        assert(bytes@.skip(0) =~= bytes@);
        while !self.torn && p < n
            invariant
                n == bytes@.len(),
                p <= n,
                replay(self@, bytes@.skip(p as int)) == replay(old(self)@, bytes@),
            decreases n - p, (if self.torn { 0int } else { 1int }),
        {
            let rest = slice_subrange(bytes, p, n);
            assert(rest@ =~= bytes@.skip(p as int));
            match wal_format::decode_record(rest) {
                None => {
                    self.torn = true;
                },
                Some(rec) => {
                    assert(rest@.skip(rec.consumed as int) =~= bytes@.skip(p + rec.consumed));
                    if rec.lsn <= self.snap_lsn {
                        p = p + rec.consumed;
                    } else if rec.wire_body.len() == 0 {
                        self.torn = true;
                    } else if wire::op(rec.wire_body) == wire::OP_PUT {
                        if wire::fits_kv(rec.wire_body) {
                            let (k, v) = wire::split_kv(rec.wire_body);
                            self.db.insert_raw(k, v);
                            self.count(rec.lsn);
                            p = p + rec.consumed;
                        } else {
                            self.torn = true;
                        }
                    } else {
                        self.count(rec.lsn);
                        p = p + rec.consumed;
                    }
                },
            }
        }
    }

    /// Counts one replayed record.
    fn count(&mut self, lsn: u64)
        ensures
            final(self)@ == (RecoveryView {
                highest: redone(old(self)@, lsn, seq![]).highest,
                replayed: redone(old(self)@, lsn, seq![]).replayed,
                ..old(self)@
            }),
    {
        if lsn > self.highest {
            self.highest = lsn;
        }
        if self.replayed < u64::MAX {
            self.replayed = self.replayed + 1;
        }
    }

    /// The sequence number behind the highest one seen.
    pub fn next_lsn(&self) -> (r: u64)
        requires
            self@.highest < u64::MAX,
        ensures
            r == self@.highest + 1,
    {
        self.highest + 1
    }
}

/// Recovers the table: loads the snapshot and replays every log record with a
/// higher sequence number. Stops at the first torn or corrupted record.
pub fn recover(snap: Option<&[u8]>, segments: &Vec<Vec<u8>>) -> (r: Recovery)
    requires
        snap matches Some(bytes) ==> snapshot::loadable(bytes@),
    ensures
        r@ == replay_all(from_snapshot(wire::opt_bytes(snap)), logs_of(segments@)),
{
    let mut st = Recovery::start(snap);
    let ghost st0 = st@;
    let ghost logs = logs_of(segments@);
    let mut i: usize = 0;
    assert(logs.take(0) =~= seq![]);
    while i < segments.len()
        invariant
            i <= segments@.len(),
            logs == logs_of(segments@),
            st@ == replay_all(st0, logs.take(i as int)),
        decreases segments@.len() - i,
    {
        st.replay_segment(segments[i].as_slice());
        proof {
            assert(logs.take(i + 1).drop_last() =~= logs.take(i as int));
            assert(logs.take(i + 1).last() == segments@[i as int]@);
        }
        i = i + 1;
    }
    assert(logs.take(segments@.len() as int) =~= logs);
    st
}

/// The records of a run of requests fit their length fields.
pub open spec fn records_fit(reqs: Seq<RequestView>) -> bool {
    forall|i: int|
        0 <= i < reqs.len() ==> wal_format::LSN_SIZE + (#[trigger] reqs[i]).data.len()
            < 0x1_0000_0000
}

/// What the records of a run of requests, numbered from `lsn` on, bring back.
pub open spec fn caught_up(st: RecoveryView, lsn: nat, reqs: Seq<RequestView>) -> RecoveryView
    decreases reqs.len(),
{
    if reqs.len() == 0 {
        st
    } else {
        let mid = caught_up(st, lsn, reqs.drop_last());
        let id = lsn + types::puts(reqs);
        if types::is_put(reqs.last().data) && id > st.snap_lsn {
            redone(mid, id as u64, reqs.last().data)
        } else {
            mid
        }
    }
}

/// Replaying the records of a run of requests and then whatever follows them.
#[verifier::rlimit(60)]
proof fn lemma_replay_redo(st: RecoveryView, lsn: nat, reqs: Seq<RequestView>, tail: Seq<u8>)
    requires
        !st.torn,
        types::all_answerable(reqs),
        records_fit(reqs),
        lsn + types::puts(reqs) <= u64::MAX,
    ensures
        !caught_up(st, lsn, reqs).torn,
        caught_up(st, lsn, reqs).snap_lsn == st.snap_lsn,
        replay(st, types::redo(lsn, reqs) + tail) == replay(caught_up(st, lsn, reqs), tail),
    decreases reqs.len(),
{
    if reqs.len() == 0 {
        assert(types::redo(lsn, reqs) + tail =~= tail);
    } else {
        let front = reqs.drop_last();
        let last = reqs.last();
        assert(reqs[reqs.len() - 1] == last);
        assert forall|i: int| 0 <= i < front.len() implies types::answerable(
            (#[trigger] front[i]).data,
        ) && wal_format::LSN_SIZE + front[i].data.len() < 0x1_0000_0000 by {
            assert(front[i] == reqs[i]);
        }
        if types::is_put(last.data) {
            let id = (lsn + types::puts(reqs)) as u64;
            let rec = wal_format::record_bytes(id, last.data);
            let mid = caught_up(st, lsn, front);
            lemma_replay_redo(st, lsn, front, rec + tail);
            assert(types::redo(lsn, reqs) + tail =~= types::redo(lsn, front) + (rec + tail));
            wal_format::law_record_roundtrip(id, last.data, tail);
            assert((rec + tail).skip(rec.len() as int) =~= tail);
            assert(types::answerable(last.data));
        } else {
            lemma_replay_redo(st, lsn, front, tail);
        }
    }
}

/// The bound that `records_fit` sets holds of the front of a run too.
proof fn lemma_front_fits(reqs: Seq<RequestView>, j: int)
    requires
        0 <= j <= reqs.len(),
        types::all_answerable(reqs),
        records_fit(reqs),
    ensures
        types::all_answerable(reqs.take(j)),
        records_fit(reqs.take(j)),
        types::puts(reqs.take(j)) <= types::puts(reqs),
{
    assert forall|i: int| 0 <= i < j implies types::answerable((#[trigger] reqs.take(j)[i]).data)
        && wal_format::LSN_SIZE + reqs.take(j)[i].data.len() < 0x1_0000_0000 by {
        assert(reqs.take(j)[i] == reqs[i]);
    }
    if j > 0 {
        types::lemma_puts_step(reqs, j - 1);
    } else {
        assert(reqs.take(j) =~= seq![]);
    }
}

/// Above the snapshot every write is redone: the table goes through the same
/// changes, and the highest sequence number is that of the last write.
proof fn lemma_caught_up_new(st: RecoveryView, lsn: nat, reqs: Seq<RequestView>)
    requires
        lsn >= st.snap_lsn,
        lsn >= st.highest,
        lsn + types::puts(reqs) <= u64::MAX,
    ensures
        caught_up(st, lsn, reqs).db == types::table_after(st.db, reqs),
        caught_up(st, lsn, reqs).highest == if types::puts(reqs) == 0 {
            st.highest as nat
        } else {
            lsn + types::puts(reqs)
        },
        caught_up(st, lsn, reqs).snap_lsn == st.snap_lsn,
        caught_up(st, lsn, reqs).torn == st.torn,
    decreases reqs.len(),
{
    if reqs.len() > 0 {
        lemma_caught_up_new(st, lsn, reqs.drop_last());
    }
}

/// Up to the snapshot nothing is redone.
proof fn lemma_caught_up_old(st: RecoveryView, lsn: nat, reqs: Seq<RequestView>)
    requires
        lsn + types::puts(reqs) <= st.snap_lsn,
    ensures
        caught_up(st, lsn, reqs) == st,
    decreases reqs.len(),
{
    if reqs.len() > 0 {
        lemma_caught_up_old(st, lsn, reqs.drop_last());
    }
}

/// Recovery redoes what was logged: replaying the records of a run of requests
/// above the snapshot leaves the table that handling the requests left, and the
/// sequence number they reached.
pub proof fn law_replay_redoes_the_log(st: RecoveryView, lsn: nat, reqs: Seq<RequestView>)
    requires
        !st.torn,
        lsn >= st.snap_lsn,
        lsn >= st.highest,
        types::all_answerable(reqs),
        records_fit(reqs),
        lsn + types::puts(reqs) <= u64::MAX,
    ensures
        !replay(st, types::redo(lsn, reqs)).torn,
        replay(st, types::redo(lsn, reqs)).db == types::table_after(st.db, reqs),
        types::puts(reqs) > 0 ==> replay(st, types::redo(lsn, reqs)).highest == lsn + types::puts(
            reqs,
        ),
        types::puts(reqs) == 0 ==> replay(st, types::redo(lsn, reqs)) == st,
{
    let log = types::redo(lsn, reqs);
    lemma_replay_redo(st, lsn, reqs, seq![]);
    lemma_caught_up_new(st, lsn, reqs);
    assert(log + seq![] =~= log);
    if types::puts(reqs) == 0 {
        types::law_reads_change_nothing(st.db, lsn, reqs);
    }
}

/// Records that the snapshot holds already change nothing when they are met
/// again.
pub proof fn law_snapshot_covers_old_records(
    st: RecoveryView,
    lsn: nat,
    reqs: Seq<RequestView>,
    tail: Seq<u8>,
)
    requires
        !st.torn,
        types::all_answerable(reqs),
        records_fit(reqs),
        lsn + types::puts(reqs) <= st.snap_lsn,
    ensures
        replay(st, types::redo(lsn, reqs) + tail) == replay(st, tail),
{
    lemma_replay_redo(st, lsn, reqs, tail);
    lemma_caught_up_old(st, lsn, reqs);
}

/// A log that was cut in its last record brings back all but the last request.
proof fn lemma_cut_in_last(st: RecoveryView, lsn: nat, reqs: Seq<RequestView>, cut: int)
    requires
        !st.torn,
        lsn >= st.snap_lsn,
        lsn >= st.highest,
        types::all_answerable(reqs),
        records_fit(reqs),
        lsn + types::puts(reqs) <= u64::MAX,
        reqs.len() > 0,
        types::redo(lsn, reqs.drop_last()).len() <= cut < types::redo(lsn, reqs).len(),
    ensures
        replay(st, types::redo(lsn, reqs).take(cut)).db == types::table_after(
            st.db,
            reqs.drop_last(),
        ),
{
    let n = reqs.len() - 1;
    let front = reqs.drop_last();
    let last = reqs.last();
    let before = types::redo(lsn, front);
    let log = types::redo(lsn, reqs);
    assert(front =~= reqs.take(n));
    lemma_front_fits(reqs, n);
    assert(types::is_put(last.data));
    let id = (lsn + types::puts(reqs)) as u64;
    let rec = wal_format::record_bytes(id, last.data);
    let part = rec.take(cut - before.len());
    assert(reqs[n] == last);
    assert(log.take(cut) =~= before + part);
    lemma_replay_redo(st, lsn, front, part);
    lemma_caught_up_new(st, lsn, front);
    if part.len() > 0 {
        wal_format::law_torn_record(id, last.data, part.len() as int);
    }
}

/// A log that was cut anywhere, as a crash leaves it, brings back the table that
/// some front part of the requests left: all whose records lie wholly before the
/// cut, and none behind it.
pub proof fn law_crash_leaves_a_prefix(
    st: RecoveryView,
    lsn: nat,
    reqs: Seq<RequestView>,
    cut: int,
)
    requires
        !st.torn,
        lsn >= st.snap_lsn,
        lsn >= st.highest,
        types::all_answerable(reqs),
        records_fit(reqs),
        lsn + types::puts(reqs) <= u64::MAX,
        0 <= cut <= types::redo(lsn, reqs).len(),
    ensures
        exists|j: int|
            {
                &&& 0 <= j <= reqs.len()
                &&& (#[trigger] types::redo(lsn, reqs.take(j))).len() <= cut
                &&& j < reqs.len() ==> cut < types::redo(lsn, reqs.take(j + 1)).len()
                &&& replay(st, types::redo(lsn, reqs).take(cut)).db == types::table_after(
                    st.db,
                    reqs.take(j),
                )
            },
    decreases reqs.len(),
{
    let log = types::redo(lsn, reqs);
    if cut == log.len() {
        law_replay_redoes_the_log(st, lsn, reqs);
        assert(log.take(cut) =~= log);
        assert(reqs.take(reqs.len() as int) =~= reqs);
        assert(types::redo(lsn, reqs.take(reqs.len() as int)).len() <= cut);
    } else {
        let n = reqs.len() - 1;
        let front = reqs.drop_last();
        assert(front =~= reqs.take(n));
        lemma_front_fits(reqs, n);
        let before = types::redo(lsn, front);
        if cut < before.len() {
            law_crash_leaves_a_prefix(st, lsn, front, cut);
            assert(log.take(cut) =~= before.take(cut));
            let j = choose|j: int|
                {
                    &&& 0 <= j <= front.len()
                    &&& (#[trigger] types::redo(lsn, front.take(j))).len() <= cut
                    &&& j < front.len() ==> cut < types::redo(lsn, front.take(j + 1)).len()
                    &&& replay(st, before.take(cut)).db == types::table_after(st.db, front.take(j))
                };
            assert(front.take(j) =~= reqs.take(j));
            if j < front.len() {
                assert(front.take(j + 1) =~= reqs.take(j + 1));
            } else {
                assert(front.take(j) =~= front);
            }
            assert(types::redo(lsn, reqs.take(j)).len() <= cut);
        } else {
            lemma_cut_in_last(st, lsn, reqs, cut);
            assert(reqs.take(n + 1) =~= reqs);
            assert(types::redo(lsn, reqs.take(n)).len() <= cut);
        }
    }
}

/// Every key and value of the table fits the length fields of a snapshot.
pub open spec fn entries_fit(db: Map<Seq<u8>, Seq<u8>>) -> bool {
    forall|k: Seq<u8>| #[trigger]
        db.contains_key(k) ==> k.len() < 0x1_0000_0000 && db[k].len() < 0x1_0000_0000
}

/// Requests whose records fit their length fields leave a table whose keys and
/// values fit those of a snapshot, if those of the table they met do; and they
/// add no more entries than there are writes among them.
pub proof fn law_logged_tables_fit_a_snapshot(
    base: Map<Seq<u8>, Seq<u8>>,
    reqs: Seq<RequestView>,
    order: Seq<(Seq<u8>, Seq<u8>)>,
)
    requires
        entries_fit(base),
        types::all_answerable(reqs),
        records_fit(reqs),
        table::lists(order, types::table_after(base, reqs)),
    ensures
        entries_fit(types::table_after(base, reqs)),
        snapshot::lengths_fit(order),
        base.dom().finite() ==> order.len() <= base.len() + types::puts(reqs),
{
    let db = types::table_after(base, reqs);
    lemma_table_is_small(base, reqs);
    assert forall|i: int| 0 <= i < order.len() implies (#[trigger] order[i]).0.len() < 0x1_0000_0000
        && order[i].1.len() < 0x1_0000_0000 by {
        assert(db.contains_key(order[i].0));
    }
}

/// The size of the table, and of what is in it.
proof fn lemma_table_is_small(base: Map<Seq<u8>, Seq<u8>>, reqs: Seq<RequestView>)
    requires
        entries_fit(base),
        types::all_answerable(reqs),
        records_fit(reqs),
    ensures
        ({
            let db = types::table_after(base, reqs);
            &&& base.dom().finite() ==> db.dom().finite() && db.len() <= base.len() + types::puts(
                reqs,
            )
            &&& entries_fit(db)
        }),
    decreases reqs.len(),
{
    if reqs.len() > 0 {
        let n = reqs.len() - 1;
        let front = reqs.drop_last();
        let last = reqs.last();
        assert(front =~= reqs.take(n));
        lemma_front_fits(reqs, n);
        lemma_table_is_small(base, front);
        assert(reqs[n] == last);
        assert(types::answerable(last.data));
    }
}

/// Entries that were read out of length fields fit length fields.
proof fn lemma_read_entries_fit(s: Seq<u8>, n: nat)
    ensures
        snapshot::entries_of(s, n) matches Some(entries) ==> snapshot::lengths_fit(entries),
    decreases n,
{
    if n > 0 && s.len() >= 4 && snapshot::front_whole(s) {
        let behind = snapshot::behind_front(s);
        lemma_read_entries_fit(behind, (n - 1) as nat);
        crate::le::lemma_le32_value_bound(s);
        crate::le::lemma_le32_value_bound(s.skip(4 + snapshot::front_klen(s)));
        if let Some(rest) = snapshot::entries_of(behind, (n - 1) as nat) {
            let all = seq![snapshot::front_entry(s)] + rest;
            assert forall|i: int| 0 <= i < all.len() implies (#[trigger] all[i]).0.len()
                < 0x1_0000_0000 && all[i].1.len() < 0x1_0000_0000 by {
                if i > 0 {
                    assert(all[i] == rest[i - 1]);
                }
            }
        }
    }
}

/// A table filled with entries that fit has entries that fit.
proof fn lemma_filled_fits(entries: Seq<(Seq<u8>, Seq<u8>)>)
    requires
        snapshot::lengths_fit(entries),
    ensures
        entries_fit(snapshot::filled(table::no_entries(), entries)),
    decreases entries.len(),
{
    if entries.len() > 0 {
        let front = entries.drop_last();
        assert forall|i: int| 0 <= i < front.len() implies (#[trigger] front[i]).0.len()
            < 0x1_0000_0000 && front[i].1.len() < 0x1_0000_0000 by {
            assert(front[i] == entries[i]);
        }
        lemma_filled_fits(front);
        assert(entries[entries.len() - 1] == entries.last());
    }
}

/// Replaying keeps the entries fitting, whatever the log holds.
proof fn lemma_replay_fits(st: RecoveryView, log: Seq<u8>)
    requires
        entries_fit(st.db),
    ensures
        entries_fit(replay(st, log).db),
    decreases log.len(),
{
    if !st.torn && log.len() > 0 {
        if let Some(rec) = wal_format::record_at(log) {
            crate::le::lemma_le32_value_bound(log);
            if let Some(next) = record_redone(st, rec) {
                lemma_replay_fits(next, log.skip(rec.consumed as int));
            }
        }
    }
}

/// A recovered table can always be saved again: whatever the snapshot and the
/// log hold, the keys and values that recovery brings back fit the length fields
/// of a snapshot.
pub proof fn law_recovered_tables_fit_a_snapshot(snap: Option<Seq<u8>>, logs: Seq<Seq<u8>>)
    requires
        snap matches Some(bytes) ==> snapshot::loadable(bytes),
    ensures
        entries_fit(replay_all(from_snapshot(snap), logs).db),
    decreases logs.len(),
{
    if logs.len() > 0 {
        law_recovered_tables_fit_a_snapshot(snap, logs.drop_last());
        lemma_replay_fits(replay_all(from_snapshot(snap), logs.drop_last()), logs.last());
    } else if let Some(bytes) = snap {
        if snapshot::header_ok(bytes) {
            lemma_read_entries_fit(
                bytes.skip(snapshot::SNAPSHOT_HDR as int),
                snapshot::header_count(bytes),
            );
            lemma_filled_fits(snapshot::snapshot_entries(bytes).unwrap());
        }
    }
}

/// A log in which one byte of a record was changed, in anything but its length,
/// brings back what was logged before that record, and nothing of what follows.
pub proof fn law_corruption_ends_replay(
    st: RecoveryView,
    lsn: nat,
    reqs: Seq<RequestView>,
    id: u64,
    data: Seq<u8>,
    i: int,
    x: u8,
    tail: Seq<u8>,
)
    requires
        !st.torn,
        lsn >= st.snap_lsn,
        lsn >= st.highest,
        types::all_answerable(reqs),
        records_fit(reqs),
        lsn + types::puts(reqs) <= u64::MAX,
        wal_format::LSN_SIZE + data.len() < 0x1_0000_0000,
        wal_format::LEN_SIZE <= i < wal_format::record_bytes(id, data).len(),
        x != wal_format::record_bytes(id, data)[i],
    ensures
        ({
            let bad = wal_format::record_bytes(id, data).update(i, x);
            let r = replay(st, types::redo(lsn, reqs) + (bad + tail));
            &&& r.db == types::table_after(st.db, reqs)
            &&& r.torn
        }),
{
    let bad = wal_format::record_bytes(id, data).update(i, x);
    lemma_replay_redo(st, lsn, reqs, bad + tail);
    lemma_caught_up_new(st, lsn, reqs);
    wal_format::law_corrupted_record(id, data, tail, i, x);
}

/// Nothing that was written is lost across a restart. The store started from a
/// table `base`, empty or recovered, at the sequence number `start`; a snapshot
/// was taken after some of the requests since then. With it and with the log of
/// all of them, recovery brings back the table that all of them left and the
/// sequence number they reached.
#[verifier::rlimit(60)]
pub proof fn law_recover_restores_everything(
    base: Map<Seq<u8>, Seq<u8>>,
    start: u64,
    old_reqs: Seq<RequestView>,
    new_reqs: Seq<RequestView>,
    order: Seq<(Seq<u8>, Seq<u8>)>,
)
    requires
        entries_fit(base),
        types::all_answerable(old_reqs),
        types::all_answerable(new_reqs),
        records_fit(old_reqs),
        records_fit(new_reqs),
        start + types::puts(old_reqs) + types::puts(new_reqs) <= u64::MAX,
        table::lists(order, types::table_after(base, old_reqs)),
        order.len() <= u64::MAX,
    ensures
        ({
            let snap = snapshot::snapshot_bytes((start + types::puts(old_reqs)) as u64, order);
            let log = types::redo(start as nat, old_reqs + new_reqs);
            let r = replay(from_snapshot(Some(snap)), log);
            &&& snapshot::loadable(snap)
            &&& r.db == types::table_after(base, old_reqs + new_reqs)
            &&& r.highest == start + types::puts(old_reqs + new_reqs)
            &&& !r.torn
        }),
{
    let lsn = start as nat + types::puts(old_reqs);
    let snap = snapshot::snapshot_bytes(lsn as u64, order);
    let st = from_snapshot(Some(snap));
    law_logged_tables_fit_a_snapshot(base, old_reqs, order);
    snapshot::law_snapshot_roundtrip(types::table_after(base, old_reqs), lsn as u64, order);
    types::law_batches_compose(base, start as nat, old_reqs, new_reqs);
    law_snapshot_covers_old_records(st, start as nat, old_reqs, types::redo(lsn, new_reqs));
    law_replay_redoes_the_log(st, lsn, new_reqs);
}

/// A snapshot that says it ends one write earlier than it does is as good: the
/// record of its last write changes nothing when it is redone.
proof fn lemma_caught_up_last(
    st: RecoveryView,
    lsn: nat,
    base: Map<Seq<u8>, Seq<u8>>,
    reqs: Seq<RequestView>,
)
    requires
        st.snap_lsn + 1 == lsn + types::puts(reqs),
        types::puts(reqs) > 0,
        st.db == types::table_after(base, reqs),
        st.highest == st.snap_lsn,
        st.snap_lsn < u64::MAX,
    ensures
        caught_up(st, lsn, reqs).db == st.db,
        caught_up(st, lsn, reqs).highest == lsn + types::puts(reqs),
        caught_up(st, lsn, reqs).snap_lsn == st.snap_lsn,
        caught_up(st, lsn, reqs).torn == st.torn,
    decreases reqs.len(),
{
    let front = reqs.drop_last();
    let last = reqs.last();
    if types::is_put(last.data) {
        lemma_caught_up_old(st, lsn, front);
        assert(types::effect(st.db, last.data) =~= st.db);
    } else {
        lemma_caught_up_last(st, lsn, base, front);
    }
}

/// Compaction loses nothing. The store started from a table `base`, empty or
/// recovered, at the sequence number `start`. The snapshot holds the table that
/// the old requests left, and says that it ends one write before the last of
/// them; behind it come the new requests. Whether the old records are still in
/// the log or have been removed with their segments, recovery brings back the
/// same table and reaches the same sequence number.
#[verifier::rlimit(60)]
pub proof fn law_compaction_loses_nothing(
    base: Map<Seq<u8>, Seq<u8>>,
    start: u64,
    old_reqs: Seq<RequestView>,
    new_reqs: Seq<RequestView>,
    order: Seq<(Seq<u8>, Seq<u8>)>,
)
    requires
        entries_fit(base),
        types::all_answerable(old_reqs),
        types::all_answerable(new_reqs),
        records_fit(old_reqs),
        records_fit(new_reqs),
        types::puts(old_reqs) > 0,
        start + types::puts(old_reqs) + types::puts(new_reqs) <= u64::MAX,
        table::lists(order, types::table_after(base, old_reqs)),
        order.len() <= u64::MAX,
    ensures
        ({
            let lsn = start as nat + types::puts(old_reqs);
            let snap = snapshot::snapshot_bytes((lsn - 1) as u64, order);
            let st = from_snapshot(Some(snap));
            let kept = replay(st, types::redo(start as nat, old_reqs + new_reqs));
            let gone = replay(st, types::redo(lsn, new_reqs));
            let all = types::table_after(base, old_reqs + new_reqs);
            &&& snapshot::loadable(snap)
            &&& kept.db == all && !kept.torn
            &&& gone.db == all && !gone.torn
            &&& kept.highest == start + types::puts(old_reqs + new_reqs)
            &&& types::puts(new_reqs) > 0 ==> gone.highest == kept.highest
        }),
{
    let lsn = start as nat + types::puts(old_reqs);
    let snap = snapshot::snapshot_bytes((lsn - 1) as u64, order);
    let st = from_snapshot(Some(snap));
    law_logged_tables_fit_a_snapshot(base, old_reqs, order);
    snapshot::law_snapshot_roundtrip(types::table_after(base, old_reqs), (lsn - 1) as u64, order);
    types::law_batches_compose(base, start as nat, old_reqs, new_reqs);
    law_replay_redoes_the_log(st, lsn, new_reqs);
    let mid = caught_up(st, start as nat, old_reqs);
    lemma_caught_up_last(st, start as nat, base, old_reqs);
    lemma_replay_redo(st, start as nat, old_reqs, types::redo(lsn, new_reqs));
    law_replay_redoes_the_log(mid, lsn, new_reqs);
}

/// Where a segment ends between two batches makes no difference: the records of
/// the first run and then the rest, as two segments, replay as one log.
pub proof fn law_segments_replay_as_one_log(
    st: RecoveryView,
    lsn: nat,
    reqs: Seq<RequestView>,
    rest: Seq<u8>,
)
    requires
        !st.torn,
        types::all_answerable(reqs),
        records_fit(reqs),
        lsn + types::puts(reqs) <= u64::MAX,
    ensures
        replay_all(st, seq![types::redo(lsn, reqs), rest]) == replay(
            st,
            types::redo(lsn, reqs) + rest,
        ),
{
    let log = types::redo(lsn, reqs);
    let logs = seq![log, rest];
    lemma_replay_redo(st, lsn, reqs, rest);
    lemma_replay_redo(st, lsn, reqs, seq![]);
    assert(log + seq![] =~= log);
    assert(logs.drop_last() =~= seq![log]);
    assert(seq![log].drop_last() =~= seq![]);
    assert(replay_all(st, seq![]) == st);
    assert(replay_all(st, seq![log]) == replay(st, log));
}

/// Once a torn or corrupted record was met, nothing more is replayed.
pub proof fn law_torn_log_ends_replay(st: RecoveryView, logs: Seq<Seq<u8>>)
    requires
        st.torn,
    ensures
        replay_all(st, logs) == st,
    decreases logs.len(),
{
    if logs.len() > 0 {
        law_torn_log_ends_replay(st, logs.drop_last());
    }
}

/// A recovery's view is the recovery.
pub proof fn law_recovery_view(r: Recovery)
    ensures
        r@.db == r.db@,
        r@.snap_lsn == r.snap_lsn,
        r@.highest == r.highest,
        r@.replayed == r.replayed,
        r@.torn == r.torn,
{
}

/// Every segment is replayed, all of its bytes, in its turn.
pub proof fn law_logs_are_the_segments(segments: Seq<Vec<u8>>, i: int)
    requires
        0 <= i < segments.len(),
    ensures
        logs_of(segments).len() == segments.len(),
        logs_of(segments)[i] == segments[i]@,
{
}

/// Any number of segments are replayed one after the other: first some and then
/// the others is the same as all of them, one alone is just replayed, and without
/// any nothing happens.
pub proof fn law_segments_are_replayed_in_turn(
    st: RecoveryView,
    a: Seq<Seq<u8>>,
    b: Seq<Seq<u8>>,
    x: Seq<u8>,
)
    ensures
        replay_all(st, a + b) == replay_all(replay_all(st, a), b),
        replay_all(st, seq![x]) == replay(st, x),
        replay_all(st, seq![]) == st,
        replay_all(st, a) == a.fold_left(st, |s: RecoveryView, log: Seq<u8>| replay(s, log)),
    decreases a.len() + b.len(),
{
    assert(seq![x].drop_last() =~= seq![]);
    assert(replay_all(st, seq![]) == st);
    if a.len() > 0 {
        law_segments_are_replayed_in_turn(st, a.drop_last(), seq![], x);
    }
    if b.len() == 0 {
        assert(a + b =~= a);
    } else {
        law_segments_are_replayed_in_turn(st, a, b.drop_last(), x);
        assert((a + b).drop_last() =~= a + b.drop_last());
        assert((a + b).last() == b.last());
    }
}

/// However many segments the log is cut into, as long as each holds the records
/// of a run of requests: recovering all of them is the same as replaying their
/// bytes as one log.
#[verifier::rlimit(60)]
pub proof fn law_all_segments_replay_as_one_log(
    st: RecoveryView,
    starts: Seq<nat>,
    runs: Seq<Seq<RequestView>>,
    logs: Seq<Seq<u8>>,
)
    requires
        !st.torn,
        starts.len() == runs.len() == logs.len(),
        forall|i: int|
            0 <= i < runs.len() ==> {
                &&& types::all_answerable(#[trigger] runs[i])
                &&& records_fit(runs[i])
                &&& starts[i] + types::puts(runs[i]) <= u64::MAX
                &&& logs[i] == types::redo(starts[i], runs[i])
            },
    ensures
        replay_all(st, logs) == replay(st, logs.flatten()),
        !replay_all(st, logs).torn,
    decreases logs.len(),
{
    if logs.len() > 0 {
        let x = logs[0];
        let rest = logs.drop_first();
        let runs1 = runs.drop_first();
        let starts1 = starts.drop_first();
        assert(types::all_answerable(runs[0]));
        let next = caught_up(st, starts[0], runs[0]);
        lemma_replay_redo(st, starts[0], runs[0], rest.flatten());
        lemma_replay_redo(st, starts[0], runs[0], seq![]);
        assert(x + seq![] =~= x);
        assert forall|i: int| 0 <= i < runs1.len() implies {
            &&& types::all_answerable(#[trigger] runs1[i])
            &&& records_fit(runs1[i])
            &&& starts1[i] + types::puts(runs1[i]) <= u64::MAX
            &&& rest[i] == types::redo(starts1[i], runs1[i])
        } by {
            assert(runs1[i] == runs[i + 1]);
        }
        law_all_segments_replay_as_one_log(next, starts1, runs1, rest);
        law_segments_are_replayed_in_turn(st, seq![x], rest, x);
        assert(seq![x] + rest =~= logs);
    } else {
        assert(logs.flatten() =~= seq![]);
    }
}

/// Nothing is left out, however many segments there are: if a run of requests
/// was logged in consecutive parts, each in a segment of its own, recovery brings
/// back the table that all of them left, the number of the last write, and counts
/// every one of them.
#[verifier::rlimit(60)]
pub proof fn law_all_segments_are_recovered(
    st: RecoveryView,
    lsn: nat,
    runs: Seq<Seq<RequestView>>,
    logs: Seq<Seq<u8>>,
)
    requires
        !st.torn,
        lsn >= st.snap_lsn,
        lsn >= st.highest,
        types::all_answerable(runs.flatten()),
        records_fit(runs.flatten()),
        lsn + types::puts(runs.flatten()) <= u64::MAX,
        runs.len() == logs.len(),
        forall|i: int|
            0 <= i < runs.len() ==> #[trigger] logs[i] == types::redo(
                lsn + types::puts(runs.take(i).flatten()),
                runs[i],
            ),
    ensures
        ({
            let r = replay_all(st, logs);
            let all = runs.flatten();
            &&& logs.flatten() == types::redo(lsn, all)
            &&& r == replay(st, logs.flatten())
            &&& r.db == types::table_after(st.db, all)
            &&& r.highest == if types::puts(all) == 0 {
                st.highest as nat
            } else {
                lsn + types::puts(all)
            }
            &&& st.replayed + types::puts(all) <= u64::MAX ==> r.replayed == st.replayed
                + types::puts(all)
            &&& r.snap_lsn == st.snap_lsn
            &&& !r.torn
        }),
    decreases runs.len(),
{
    if runs.len() == 0 {
        assert(runs.flatten() =~= seq![]);
        assert(logs.flatten() =~= seq![]);
    } else {
        let n = runs.len() - 1;
        let runs0 = runs.drop_last();
        let logs0 = logs.drop_last();
        let run = runs.last();
        let before = runs0.flatten();
        let at = lsn + types::puts(before);
        assert(runs =~= runs0.push(run));
        assert(logs =~= logs0.push(logs.last()));
        runs0.lemma_flatten_push(run);
        logs0.lemma_flatten_push(logs.last());
        assert(runs.flatten() =~= before + run);
        let all = runs.flatten();
        types::law_batches_compose(st.db, lsn, before, run);
        assert(runs.take(n) =~= runs0);
        assert(logs[n] == types::redo(at, run));
        assert(all.take(before.len() as int) =~= before);
        lemma_front_fits(all, before.len() as int);
        assert forall|i: int| 0 <= i < run.len() implies types::answerable(
            (#[trigger] run[i]).data,
        ) && wal_format::LSN_SIZE + run[i].data.len() < 0x1_0000_0000 by {
            assert(run[i] == all[before.len() + i]);
        }
        assert forall|i: int| 0 <= i < runs0.len() implies #[trigger] logs0[i] == types::redo(
            lsn + types::puts(runs0.take(i).flatten()),
            runs0[i],
        ) by {
            assert(logs[i] == logs0[i]);
            assert(runs.take(i) =~= runs0.take(i));
        }
        law_all_segments_are_recovered(st, lsn, runs0, logs0);
        let mid = replay_all(st, logs0);
        lemma_replay_redo(mid, at, run, seq![]);
        lemma_caught_up_new(mid, at, run);
        lemma_caught_up_count(mid, at, run);
        assert(types::redo(at, run) + seq![] =~= types::redo(at, run));
        assert(replay_all(st, logs) == replay(mid, logs.last()));
        lemma_replay_redo(st, lsn, all, seq![]);
        lemma_replay_redo(st, lsn, before, types::redo(at, run));
        lemma_replay_redo(st, lsn, before, seq![]);
        assert(types::redo(lsn, before) + seq![] =~= types::redo(lsn, before));
    }
}

/// Above the snapshot every write is counted.
proof fn lemma_caught_up_count(st: RecoveryView, lsn: nat, reqs: Seq<RequestView>)
    requires
        lsn >= st.snap_lsn,
    ensures
        st.replayed + types::puts(reqs) <= u64::MAX ==> caught_up(st, lsn, reqs).replayed
            == st.replayed + types::puts(reqs),
    decreases reqs.len(),
{
    if reqs.len() > 0 {
        lemma_caught_up_count(st, lsn, reqs.drop_last());
    }
}

/// What one record does, whatever is in it and whatever follows it: one that the
/// snapshot covers does nothing; a write gives its key its value, anything else
/// with an opcode leaves the table alone, and either is counted and raises the
/// highest number if its own is higher; a write without its key, or nothing at
/// all, ends the replay.
pub proof fn law_what_one_record_does(st: RecoveryView, id: u64, data: Seq<u8>, tail: Seq<u8>)
    requires
        !st.torn,
        wal_format::LSN_SIZE + data.len() < 0x1_0000_0000,
    ensures
        ({
            let r = replay(st, wal_format::record_bytes(id, data) + tail);
            let put = data.len() > 0 && data[0] == 1;
            let next = RecoveryView {
                db: if put {
                    st.db.insert(wire::body_key(data), wire::body_val(data))
                } else {
                    st.db
                },
                snap_lsn: st.snap_lsn,
                highest: if id > st.highest {
                    id
                } else {
                    st.highest
                },
                replayed: if st.replayed < u64::MAX {
                    (st.replayed + 1) as u64
                } else {
                    u64::MAX
                },
                torn: false,
            };
            &&& id <= st.snap_lsn ==> r == replay(st, tail)
            &&& id > st.snap_lsn && data.len() > 0 && (put ==> wire::kv_fits(data)) ==> r
                == replay(next, tail)
            &&& id > st.snap_lsn && !(data.len() > 0 && (put ==> wire::kv_fits(data))) ==> r
                == (RecoveryView { torn: true, ..st })
        }),
{
    let rec = wal_format::record_bytes(id, data);
    wal_format::law_record_roundtrip(id, data, tail);
    assert((rec + tail).skip(rec.len() as int) =~= tail);
}

/// An empty log changes nothing; one that does not start with a whole record is
/// torn, and changes nothing else; and behind a torn record nothing is replayed.
pub proof fn law_replay_ends_where_records_end(st: RecoveryView, log: Seq<u8>)
    ensures
        replay(st, seq![]) == st,
        st.torn ==> replay(st, log) == st,
        !st.torn && log.len() > 0 && wal_format::record_at(log) is None ==> replay(st, log) == (
        RecoveryView { torn: true, ..st }),
{
}

/// Where recovery starts: from nothing without a snapshot, or with bytes that are
/// none; else from exactly the table and the number that were saved.
pub proof fn law_recovery_starts_from_the_snapshot(
    bytes: Seq<u8>,
    db: Map<Seq<u8>, Seq<u8>>,
    lsn: u64,
    order: Seq<(Seq<u8>, Seq<u8>)>,
)
    requires
        table::lists(order, db),
        snapshot::lengths_fit(order),
        order.len() <= u64::MAX,
    ensures
        ({
            let nothing = RecoveryView {
                db: Map::empty(),
                snap_lsn: 0,
                highest: 0,
                replayed: 0,
                torn: false,
            };
            &&& from_snapshot(None) == nothing
            &&& !snapshot::header_ok(bytes) ==> from_snapshot(Some(bytes)) == nothing
            &&& snapshot::header_ok(bytes) ==> {
                let st = from_snapshot(Some(bytes));
                &&& st.db == snapshot::snapshot_entries(bytes).unwrap().fold_left(
                    Map::empty(),
                    |m: Map<Seq<u8>, Seq<u8>>, e: (Seq<u8>, Seq<u8>)| m.insert(e.0, e.1),
                )
                &&& st.snap_lsn == snapshot::header_lsn(bytes) && st.highest == st.snap_lsn
                &&& st.replayed == 0 && !st.torn
            }
            &&& from_snapshot(Some(snapshot::snapshot_bytes(lsn, order))) == (RecoveryView {
                db,
                snap_lsn: lsn,
                highest: lsn,
                replayed: 0,
                torn: false,
            })
        }),
{
    snapshot::law_snapshot_roundtrip(db, lsn, order);
    if snapshot::header_ok(bytes) {
        snapshot::law_load_fills_in_order(
            Map::empty(),
            snapshot::snapshot_entries(bytes).unwrap(),
        );
    }
}

} // verus!
