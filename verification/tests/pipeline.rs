use memkv::acker::{AckPoint, Acker};
use memkv::alloc_stat::Stats;
use memkv::args::Mode;
use memkv::client::reader::FrameReader;
use memkv::pipeline::{Ctrl, WalMsg, MAX_BATCH, SNAPSHOT_EVERY_LSN};
use memkv::stage1::{encode, ConnReader, ResponseBuffer};
use memkv::stage2::MainLoop;
use memkv::storage::db::Db;
use memkv::storage::recovery::recover;
use memkv::storage::wal_format::decode_record;
use memkv::types::{apply, can_apply, encode_puts, Batch, Request};
use memkv::wire::{encode as encode_request, Operation, Resp};

fn body(op: Operation, key: &[u8], value: Option<&[u8]>) -> Vec<u8> {
    encode_request(op, key, value).unwrap()[4..].to_vec()
}

fn request(data: Vec<u8>, conn: u64) -> Request {
    Request { data, reply: conn, resp: None }
}

fn put(key: &[u8], value: &[u8]) -> Request {
    request(body(Operation::Put, key, Some(value)), 1)
}

fn get(key: &[u8]) -> Request {
    request(body(Operation::Get, key, None), 2)
}

fn batch(items: Vec<Request>) -> Batch {
    let mut b = Batch::with_capacity(MAX_BATCH, 64);
    for r in items {
        b.items.push(r);
    }
    b
}

fn value(bytes: &[u8]) -> Resp {
    Resp::Value(bytes.into())
}

#[test]
fn request_accessors() {
    let r = put(b"key", b"val");
    assert_eq!(r.op(), 1);
    assert_eq!(r.klen(), 3);
    assert_eq!(r.key(), b"key");
    assert_eq!(r.val(), b"val");
    assert!(!r.is_read_only());
    assert!(r.is_answerable());
    assert!(get(b"k").is_read_only());
    assert!(request(vec![9], 0).is_read_only());
}

#[test]
fn malformed_requests_are_not_answerable() {
    assert!(!request(vec![], 0).is_answerable());
    assert!(!request(vec![1, 5, 0, 0, 0], 0).is_answerable());
    assert!(!request(vec![0], 0).is_answerable());
    assert!(request(vec![9], 0).is_answerable());
}

#[test]
fn read_behind_a_write_sees_it() {
    let mut db = Db::new();
    let mut lsn = 10;
    let mut b = batch(vec![get(b"k"), put(b"k", b"v"), get(b"k"), get(b"x"), request(vec![9], 3)]);
    assert!(can_apply(&b, lsn));
    apply(&mut db, &mut b, &mut lsn);
    let resps: Vec<Resp> = b.items.iter().map(|r| r.resp.clone().unwrap()).collect();
    assert_eq!(resps, vec![Resp::Miss, Resp::Okay, value(b"v"), Resp::Miss, Resp::UnknownOp]);
    assert_eq!((b.lsn_low, b.lsn_hi, lsn), (10, 11, 11));
    assert!(b.has_wal_work());
    assert_eq!(db.len(), 1);
}

#[test]
fn read_sees_the_last_write() {
    let mut b = batch(vec![put(b"k", b"1"), put(b"k", b"22"), put(b"x", b"3"), get(b"k")]);
    apply(&mut Db::new(), &mut b, &mut 0);
    assert_eq!(b.items[3].resp, Some(value(b"22")));
}

#[test]
fn write_leaves_other_keys_alone() {
    let mut db = Db::new();
    db.put(b"a", b"1");
    let mut lsn = 0;
    apply(&mut db, &mut batch(vec![put(b"b", b"2")]), &mut lsn);
    assert_eq!(&db.get(b"a").unwrap()[..], b"1");
    assert_eq!(&db.get(b"b").unwrap()[..], b"2");
}

#[test]
fn writes_are_numbered_after_the_watermark() {
    let mut db = Db::new();
    let mut lsn = 5;
    let mut b = batch(vec![put(b"a", b"1"), get(b"a"), put(b"b", b"2")]);
    apply(&mut db, &mut b, &mut lsn);
    assert_eq!(encode_puts(&mut b), 7);
    let first = decode_record(&b.out).unwrap();
    assert_eq!(first.lsn, 6);
    assert_eq!(first.wire_body, &b.items[0].data[..]);
    let second = decode_record(&b.out[first.consumed..]).unwrap();
    assert_eq!(second.lsn, 7);
    assert_eq!(second.wire_body, &b.items[2].data[..]);
    assert_eq!(first.consumed + second.consumed, b.out.len());
}

#[test]
fn applying_with_records_is_applying_and_encoding() {
    let items = || vec![put(b"a", b"1"), get(b"a"), put(b"a", b"2")];
    let mut one = batch(items());
    let mut db1 = Db::new();
    let mut lsn1 = 3;
    db1.apply(&mut one, &mut lsn1);
    let mut two = batch(items());
    let mut db2 = Db::new();
    let mut lsn2 = 3;
    apply(&mut db2, &mut two, &mut lsn2);
    encode_puts(&mut two);
    assert_eq!(one.out, two.out);
    assert_eq!((one.lsn_low, one.lsn_hi, lsn1), (two.lsn_low, two.lsn_hi, lsn2));
    assert_eq!(one.items[1].resp, Some(value(b"1")));
}

#[test]
fn batches_compose() {
    let mut db1 = Db::new();
    let mut lsn1 = 0;
    let mut a = batch(vec![put(b"a", b"1")]);
    let mut b = batch(vec![put(b"a", b"2"), put(b"b", b"3")]);
    db1.apply(&mut a, &mut lsn1);
    db1.apply(&mut b, &mut lsn1);
    let mut db2 = Db::new();
    let mut lsn2 = 0;
    let mut all = batch(vec![put(b"a", b"1"), put(b"a", b"2"), put(b"b", b"3")]);
    db2.apply(&mut all, &mut lsn2);
    assert_eq!([a.out, b.out].concat(), all.out);
    assert_eq!(lsn1, lsn2);
    assert_eq!(db1.get(b"a"), db2.get(b"a"));
    assert_eq!(db1.len(), db2.len());
}

#[test]
fn batch_without_writes_has_nothing_to_log() {
    let mut db = Db::new();
    let mut lsn = 4;
    let mut b = batch(vec![get(b"a"), request(vec![7], 0)]);
    db.apply(&mut b, &mut lsn);
    assert!(!b.has_wal_work());
    assert_eq!(lsn, 4);
    assert!(b.out.is_empty());
    b.recycle();
    assert!(b.items.is_empty());
    assert_eq!((b.lsn_low, b.lsn_hi), (0, 0));
}

#[test]
fn batch_is_a_list_of_requests() {
    let mut b = Batch::with_capacity(4, 0);
    b.push(get(b"a"));
    b.push(put(b"b", b"2"));
    assert_eq!(b.len(), 2);
    assert_eq!(b.items.len(), 2);
    assert_eq!(b.iter().filter(|r| r.is_read_only()).count(), 1);
}

#[test]
fn batch_that_cannot_be_numbered_is_not_applied() {
    let b = batch(vec![put(b"a", b"1"), put(b"b", b"2")]);
    assert!(can_apply(&b, u64::MAX - 2));
    assert!(!can_apply(&b, u64::MAX - 1));
    assert!(!can_apply(&batch(vec![request(vec![], 0)]), 0));
}

fn replies_at(mode: Mode, points: &[AckPoint]) -> Vec<Vec<(u64, Resp)>> {
    let ack = Acker::new(mode);
    let mut b = batch(vec![put(b"k", b"v"), get(b"k")]);
    apply(&mut Db::new(), &mut b, &mut 0);
    points
        .iter()
        .map(|p| ack.advance(&mut b, *p).into_iter().map(|r| (r.to, r.resp)).collect())
        .collect()
}

#[test]
fn sync_mode_answers_writes_when_durable() {
    let got = replies_at(Mode::Sync, &[AckPoint::Applied, AckPoint::Written, AckPoint::Durable]);
    assert_eq!(got, vec![vec![(2, value(b"v"))], vec![], vec![(1, Resp::Okay)]]);
}

#[test]
fn async_mode_answers_writes_when_written() {
    let got = replies_at(Mode::Async, &[AckPoint::Applied, AckPoint::Written, AckPoint::Durable]);
    assert_eq!(got, vec![vec![(2, value(b"v"))], vec![(1, Resp::Okay)], vec![]]);
}

#[test]
fn no_fsync_mode_answers_at_once_and_in_order() {
    let got = replies_at(Mode::NoFsync, &[AckPoint::Applied, AckPoint::Applied]);
    assert_eq!(got, vec![vec![(1, Resp::Okay), (2, value(b"v"))], vec![]]);
}

#[test]
fn later_point_answers_everything_before_it() {
    let got = replies_at(Mode::Async, &[AckPoint::Durable]);
    assert_eq!(got, vec![vec![(1, Resp::Okay), (2, value(b"v"))]]);
}

#[test]
fn settled_once_all_responses_are_out() {
    let ack = Acker::new(Mode::Sync);
    let mut b = batch(vec![put(b"k", b"v")]);
    assert!(ack.is_settled(&b));
    apply(&mut Db::new(), &mut b, &mut 0);
    assert!(!ack.is_settled(&b));
    assert_eq!(ack.required(&b.items[0]), AckPoint::Durable);
    assert_eq!(ack.required(&get(b"k")), AckPoint::Applied);
    assert!(ack.advance(&mut b, AckPoint::Written).is_empty());
    assert_eq!(ack.advance(&mut b, AckPoint::Durable).len(), 1);
    assert!(ack.is_settled(&b));
}

#[test]
fn guarantees_are_ordered() {
    assert!(AckPoint::Applied < AckPoint::Written && AckPoint::Written < AckPoint::Durable);
    for a in [AckPoint::Applied, AckPoint::Written, AckPoint::Durable] {
        for b in [AckPoint::Applied, AckPoint::Written, AckPoint::Durable] {
            assert_eq!(a.met_by(b), a <= b);
        }
    }
    assert_eq!(AckPoint::from(Mode::NoFsync), AckPoint::Applied);
    assert_eq!(AckPoint::from(Mode::Async), AckPoint::Written);
    assert_eq!(AckPoint::from(Mode::Sync), AckPoint::Durable);
}

#[test]
fn response_frames_have_this_layout() {
    let mut buf = vec![9u8];
    encode(&mut buf, &value(b"xy"));
    encode(&mut buf, &Resp::Miss);
    assert_eq!(buf, vec![9, 3, 0, 0, 0, 0, b'x', b'y', 1, 0, 0, 0, 2]);
    for (resp, code) in [(Resp::Okay, 1), (Resp::UnknownOp, 3), (Resp::Unknown, 4)] {
        let mut one = Vec::new();
        encode(&mut one, &resp);
        assert_eq!(one, vec![1, 0, 0, 0, code]);
    }
}

#[test]
fn responses_are_gathered_up_to_a_limit() {
    let mut w = ResponseBuffer::new();
    assert!(w.push(&Resp::Okay));
    assert_eq!(w.bytes(), &[1, 0, 0, 0, 1]);
    let big = vec![7u8; 262_144 - 11];
    assert!(w.push(&value(&big)));
    assert_eq!(w.bytes().len(), 262_143);
    assert!(!w.push(&Resp::Miss));
    w.clear();
    assert!(w.bytes().is_empty());
}

fn requests_of(stream: &[u8]) -> (Vec<Vec<u8>>, bool) {
    let mut conn = ConnReader::new(5);
    let mut at = 0;
    let mut out = Vec::new();
    while let Some(n) = conn.wants() {
        if stream.len() - at < n {
            return (out, false);
        }
        if let Some(req) = conn.on_bytes(stream[at..at + n].to_vec()) {
            assert_eq!(req.reply, 5);
            assert_eq!(req.resp, None);
            out.push(req.data);
        }
        at += n;
    }
    (out, true)
}

#[test]
fn requests_arrive_as_sent() {
    let mut stream = encode_request(Operation::Put, b"k", Some(b"v")).unwrap();
    stream.append(&mut encode_request(Operation::Get, b"k", None).unwrap());
    let want = vec![body(Operation::Put, b"k", Some(b"v")), body(Operation::Get, b"k", None)];
    assert_eq!(requests_of(&stream), (want.clone(), false));
    stream.extend_from_slice(&[5, 0]);
    assert_eq!(requests_of(&stream), (want, false));
}

#[test]
fn bad_length_ends_the_connection() {
    let good = encode_request(Operation::Get, b"k", None).unwrap();
    let mut empty = good.clone();
    empty.extend_from_slice(&[0, 0, 0, 0]);
    empty.extend_from_slice(&good);
    assert_eq!(requests_of(&empty), (vec![body(Operation::Get, b"k", None)], true));
    let mut long = (8u32 * 1024 * 1024 + 1).to_le_bytes().to_vec();
    long.extend_from_slice(&good);
    assert_eq!(requests_of(&long), (vec![], true));
}

#[test]
fn longest_body_is_accepted() {
    let mut conn = ConnReader::new(1);
    assert_eq!(conn.wants(), Some(4));
    assert!(conn.on_bytes((8u32 * 1024 * 1024).to_le_bytes().to_vec()).is_none());
    assert_eq!(conn.wants(), Some(8 * 1024 * 1024));
    conn.on_closed();
    assert_eq!(conn.wants(), None);
}

#[test]
fn stage2_passes_writes_on_and_keeps_other_batches() {
    let mut st = MainLoop::new(Db::new(), Acker::new(Mode::Sync), 7, 0);
    let b = batch(vec![get(b"k")]);
    assert!(st.accepts(&b));
    let (replies, msg) = st.on_batch(b);
    assert_eq!(replies.len(), 1);
    assert_eq!(replies[0].resp, Resp::Miss);
    assert!(msg.is_none());
    let kept = st.take_recycled().unwrap();
    assert!(kept.items.is_empty());
    assert!(st.take_recycled().is_none());

    let (replies, msg) = st.on_batch(batch(vec![put(b"k", b"v"), get(b"k")]));
    assert_eq!(replies.len(), 1);
    assert_eq!((replies[0].to, replies[0].resp.clone()), (2, value(b"v")));
    match msg {
        Some(WalMsg::Write(b)) => {
            assert_eq!((b.lsn_low, b.lsn_hi), (7, 8));
            assert_eq!(b.items[0].resp, Some(Resp::Okay));
            assert_eq!(b.items[1].resp, None);
        }
        _ => panic!("expected a write"),
    }
    assert!(st.take_recycled().is_none());
    assert_eq!(st.keys(), 1);
    assert!(st.snapshot().is_none());
}

#[test]
fn who_still_waits_behind_stage2() {
    for (mode, waits) in [(Mode::NoFsync, false), (Mode::Async, true), (Mode::Sync, true)] {
        let mut st = MainLoop::new(Db::new(), Acker::new(mode), 0, 0);
        match st.on_batch(batch(vec![get(b"k"), put(b"k", b"v"), request(vec![9], 3)])).1 {
            Some(WalMsg::Write(b)) => {
                let left: Vec<Option<Resp>> = b.items.iter().map(|r| r.resp.clone()).collect();
                let put_resp = if waits { Some(Resp::Okay) } else { None };
                assert_eq!(left, vec![None, put_resp, None]);
            }
            _ => panic!("expected a write"),
        }
    }
}

#[test]
fn stage2_takes_a_snapshot_when_due() {
    let mut st = MainLoop::new(Db::new(), Acker::new(Mode::NoFsync), 1, 100);
    let mut lsn = 1;
    while lsn < SNAPSHOT_EVERY_LSN {
        assert!(st.snapshot().is_none());
        let n = std::cmp::min(100_000, SNAPSHOT_EVERY_LSN - lsn);
        let items = (0..n).map(|_| put(b"k", b"v")).collect();
        assert!(st.on_batch(batch(items)).1.is_some());
        lsn += n;
    }
    let (boundary, bytes) = st.snapshot().unwrap();
    assert_eq!(boundary, SNAPSHOT_EVERY_LSN - 1);
    // A batch without writes does not trigger it.
    assert!(st.on_batch(batch(vec![get(b"k")])).1.is_none());
    assert_eq!(st.snapshot_after(false), None);
    assert_eq!(st.snapshot_after(true), Some((boundary, bytes.clone())));
    let r = recover(Some(&bytes), &vec![]);
    assert_eq!(r.db.len(), 1);
    assert_eq!(r.next_lsn(), SNAPSHOT_EVERY_LSN);
    match st.on_snapshot_written() {
        (WalMsg::Rotate { boundary_lsn: a }, WalMsg::Retire { boundary_lsn: b }) => {
            assert_eq!((a, b), (SNAPSHOT_EVERY_LSN - 1, SNAPSHOT_EVERY_LSN - 2));
        }
        _ => panic!("expected a rotation and a retirement"),
    }
    assert!(st.snapshot().is_none());
}

#[test]
fn client_reads_its_write() {
    let mut stream = encode_request(Operation::Put, b"key", Some(b"value")).unwrap();
    stream.append(&mut encode_request(Operation::Get, b"key", None).unwrap());
    let (bodies, _) = requests_of(&stream);
    let mut st = MainLoop::new(Db::new(), Acker::new(Mode::NoFsync), 0, 0);
    let (replies, _) = st.on_batch(batch(bodies.into_iter().map(|d| request(d, 4)).collect()));
    let mut w = ResponseBuffer::new();
    for r in &replies {
        assert_eq!(r.to, 4);
        w.push(&r.resp);
    }
    let mut reader = FrameReader::new();
    reader.feed(w.bytes());
    assert_eq!(reader.try_extract(), Some(Resp::Okay));
    assert_eq!(reader.try_extract(), Some(value(b"value")));
    assert_eq!(reader.try_extract(), None);
}

#[test]
fn control_message_carries_its_number() {
    assert_eq!(Ctrl::Compact(5), Ctrl::Compact(5));
    assert_ne!(Ctrl::Compact(5), Ctrl::Compact(6));
}

#[test]
fn allocation_counters_are_compared() {
    let last = Stats { allocs: 10, reallocs: 1, frees: 4, bytes: 100 };
    let now = Stats { allocs: 15, reallocs: 1, frees: 16, bytes: 200 };
    assert!(now.can_compare(&last));
    let d = now.since(&last);
    assert_eq!((d.allocs, d.reallocs, d.frees, d.live), (5, 0, 12, -1));
    assert!(!last.can_compare(&now));
}
