use memkv::acker::Acker;
use memkv::args::Mode;
use memkv::pipeline::WalMsg;
use memkv::stage2::MainLoop;
use memkv::stage3::engine::{RingStep, Todo, WalEngine};
use memkv::stage3::fsync_planner::{FsyncCadence, FsyncPlanner};
use memkv::stage3::io_work::{IoWork, SqeOp};
use memkv::stage3::segment::Segment;
use memkv::storage::db::Db;
use memkv::storage::recovery::recover;
use memkv::types::{Batch, Request};
use memkv::wire::{encode, Operation, Resp};

fn put(key: &[u8], value: &[u8], conn: u64) -> Request {
    let data = encode(Operation::Put, key, Some(value)).unwrap()[4..].to_vec();
    Request { data, reply: conn, resp: None }
}

fn engine(mode: Mode) -> WalEngine {
    WalEngine::new(4, 0, 100, mode, Acker::new(mode))
}

/// A batch of one write, as stage 2 passes it on.
fn write_msg(st: &mut MainLoop, key: &[u8], value: &[u8], conn: u64) -> Batch {
    let mut b = Batch::with_capacity(1, 64);
    b.items.push(put(key, value, conn));
    match st.on_batch(b).1 {
        Some(WalMsg::Write(b)) => b,
        _ => panic!("expected a write"),
    }
}

fn stage2(mode: Mode) -> MainLoop {
    MainLoop::new(Db::new(), Acker::new(mode), 0, 0)
}

/// Takes the next submission; its number and what it is.
fn submit(e: &mut WalEngine) -> (usize, SqeOp) {
    let sqe = e.next_submission().unwrap();
    (sqe.user_data as usize, sqe.op)
}

#[test]
fn new_engine_has_nothing_to_do() {
    let mut e = engine(Mode::Sync);
    assert!(e.should_park());
    assert!(!e.ring_is_full());
    assert!(!e.out_of_spins());
    assert_eq!(e.spins_left(), 500);
    assert_eq!(e.segment_start(), 0);
    assert!(e.next_submission().is_none());
    assert!(!e.arm_fsync());
    assert_eq!(e.ring_step(false), RingStep::Idle);
    assert!(e.work_at(0).is_none());
}

#[test]
fn writes_lie_one_behind_the_other_and_are_recovered() {
    let mut st = stage2(Mode::NoFsync);
    let mut e = engine(Mode::NoFsync);
    let mut log = Vec::new();
    let mut end = 100;
    for (k, v) in [(b"a", b"1"), (b"b", b"2"), (b"a", b"3")] {
        let b = write_msg(&mut st, k, v, 1);
        assert!(e.accepts(&b));
        assert_eq!(e.on_poll(Some(WalMsg::Write(b))), Todo::Nothing);
        let (idx, op) = submit(&mut e);
        let bytes = match e.work_at(idx) {
            Some(IoWork::Write(w)) => w.data.out.clone(),
            _ => panic!("expected a write"),
        };
        assert_eq!(op, SqeOp::Write { start: 0, len: bytes.len() as u32, offset: end });
        end += bytes.len() as u64;
        log.extend_from_slice(&bytes);
    }
    let r = recover(None, &vec![log]);
    assert_eq!(r.db.len(), 2);
    assert_eq!(&r.db.get(b"a").unwrap()[..], b"3");
    assert_eq!(r.next_lsn(), 4);
    assert_eq!(st.keys(), 2);
}

#[test]
fn gap_in_the_numbering_is_not_accepted() {
    let mut st = stage2(Mode::NoFsync);
    let e = engine(Mode::NoFsync);
    let _first = write_msg(&mut st, b"a", b"1", 1);
    let second = write_msg(&mut st, b"b", b"2", 1);
    assert!(!e.accepts(&second));
    let mut wrong = write_msg(&mut stage2(Mode::NoFsync), b"a", b"1", 1);
    wrong.lsn_hi = 2;
    assert!(!e.accepts(&wrong));
}

#[test]
fn sync_mode_answers_after_the_flush() {
    let mut st = stage2(Mode::Sync);
    let mut e = engine(Mode::Sync);
    let b = write_msg(&mut st, b"k", b"v", 9);
    e.on_poll(Some(WalMsg::Write(b)));
    assert!(e.dirty_bytes() > 0);
    assert!(e.arm_fsync());
    assert_eq!(e.dirty_bytes(), 0);
    let (w, op) = submit(&mut e);
    let len = match op {
        SqeOp::Write { len, .. } => len as i32,
        _ => panic!("expected a write"),
    };
    let (f, op) = submit(&mut e);
    assert_eq!(op, SqeOp::FsyncDataDrained);

    assert!(e.can_reap(w, len));
    let c = e.on_completion(w, len);
    assert!(c.replies.is_empty() && c.recycled.is_empty() && c.fatal.is_none());
    assert!(e.can_reap(f, 0));
    let c = e.on_completion(f, 0);
    assert_eq!(c.replies.len(), 1);
    assert_eq!((c.replies[0].to, c.replies[0].resp.clone()), (9, Resp::Okay));
    assert_eq!(c.recycled.len(), 1);
    assert!(c.recycled[0].items.is_empty() && c.recycled[0].out.is_empty());
    assert!(e.should_park());
    assert!(!e.can_reap(w, 0));
}

#[test]
fn async_mode_answers_after_the_write() {
    let mut st = stage2(Mode::Async);
    let mut e = engine(Mode::Async);
    e.on_poll(Some(WalMsg::Write(write_msg(&mut st, b"k", b"v", 9))));
    assert!(!e.arm_fsync());
    let (w, _) = submit(&mut e);
    let c = e.on_completion(w, i32::MAX);
    assert_eq!(c.replies.len(), 1);
    assert_eq!(c.recycled.len(), 1);
}

#[test]
fn short_write_goes_to_the_front_of_the_queue() {
    let mut st = stage2(Mode::Sync);
    let mut e = engine(Mode::Sync);
    e.on_poll(Some(WalMsg::Write(write_msg(&mut st, b"a", b"1", 1))));
    e.on_poll(Some(WalMsg::Write(write_msg(&mut st, b"b", b"2", 1))));
    let before = e.dirty_bytes();
    let (w, op) = submit(&mut e);
    let (len, offset) = match op {
        SqeOp::Write { len, offset, .. } => (len, offset),
        _ => panic!("expected a write"),
    };
    let c = e.on_completion(w, 10);
    assert!(c.replies.is_empty() && c.recycled.is_empty());
    assert_eq!(e.dirty_bytes(), before + len as u64 - 10);
    let (_, op) = submit(&mut e);
    assert_eq!(op, SqeOp::Write { start: 10, len: len - 10, offset: offset + 10 });
}

#[test]
fn failed_write_ends_the_engine_and_failed_removal_does_not() {
    let mut st = stage2(Mode::Sync);
    let mut e = engine(Mode::Sync);
    e.on_poll(Some(WalMsg::Write(write_msg(&mut st, b"a", b"1", 1))));
    let (w, _) = submit(&mut e);
    let c = e.on_completion(w, -libc::EIO);
    assert_eq!(c.fatal, Some(libc::EIO));

    let mut e = WalEngine::new(4, 9, 0, Mode::Sync, Acker::new(Mode::Sync));
    e.retire(9, &vec![(3, b"old".to_vec())]);
    let (r, op) = submit(&mut e);
    assert_eq!(op, SqeOp::Unlink);
    let c = e.on_completion(r, -libc::EACCES);
    assert!(c.unlink_failed && c.fatal.is_none());
}

#[test]
fn ring_takes_no_more_than_its_depth() {
    let mut st = stage2(Mode::NoFsync);
    let mut e = WalEngine::new(2, 0, 0, Mode::NoFsync, Acker::new(Mode::NoFsync));
    for _ in 0..3 {
        e.on_poll(Some(WalMsg::Write(write_msg(&mut st, b"a", b"1", 1))));
    }
    let (a, _) = submit(&mut e);
    let (b, _) = submit(&mut e);
    assert_ne!(a, b);
    assert!(e.ring_is_full());
    assert!(e.next_submission().is_none());
    assert_eq!(e.ring_step(true), RingStep::SubmitAndWait);
    let c = e.on_completion(a, i32::MAX);
    assert_eq!(c.recycled.len(), 1);
    assert_eq!(e.ring_step(true), RingStep::Submit);
    assert!(e.next_submission().is_some());
}

#[test]
fn submissions_go_in_the_order_of_the_queue() {
    let mut e = WalEngine::new(8, 10, 0, Mode::Sync, Acker::new(Mode::Sync));
    let paths: Vec<Vec<u8>> = (0..5u8).map(|i| vec![b'a' + i]).collect();
    let segs: Vec<(u64, Vec<u8>)> = (0..).zip(paths.clone()).collect();
    e.retire(10, &segs);
    let mut numbers = Vec::new();
    for want in &paths {
        let (idx, op) = submit(&mut e);
        assert_eq!(op, SqeOp::Unlink);
        assert!(!numbers.contains(&idx));
        numbers.push(idx);
        match e.work_at(idx) {
            Some(IoWork::Remove(path)) => assert_eq!(path, want),
            _ => panic!("expected a removal"),
        }
    }
    assert!(e.next_submission().is_none());
}

#[test]
fn empty_polls_run_out() {
    let mut st = stage2(Mode::NoFsync);
    let mut e = engine(Mode::NoFsync);
    e.on_poll(Some(WalMsg::Write(write_msg(&mut st, b"a", b"1", 1))));
    submit(&mut e);
    for _ in 0..500 {
        assert!(!e.out_of_spins());
        assert_eq!(e.ring_step(false), RingStep::Idle);
        assert_eq!(e.on_poll(None), Todo::Nothing);
    }
    assert!(e.out_of_spins());
    assert_eq!(e.ring_step(false), RingStep::SubmitAndWait);
    assert_eq!(e.on_poll(Some(WalMsg::Retire { boundary_lsn: 0 })), Todo::Retire { boundary_lsn: 0 });
    assert_eq!(e.spins_left(), 500);
}

#[test]
fn rotation_answers_all_who_waited_and_opens_a_new_file() {
    let mut st = stage2(Mode::Sync);
    let mut e = engine(Mode::Sync);
    e.on_poll(Some(WalMsg::Write(write_msg(&mut st, b"k", b"v", 3))));
    let (w, _) = submit(&mut e);
    assert!(!e.should_park());
    e.on_completion(w, i32::MAX);
    assert!(e.should_park());
    assert_eq!(
        e.on_poll(Some(WalMsg::Rotate { boundary_lsn: 1 })),
        Todo::Rotate { boundary_lsn: 1 }
    );
    let c = e.rotate(1, 0);
    assert_eq!(c.replies.len(), 1);
    assert_eq!(c.recycled.len(), 1);
    assert_eq!(e.segment_start(), 1);
    e.on_poll(Some(WalMsg::Write(write_msg(&mut st, b"k", b"w", 3))));
    match submit(&mut e).1 {
        SqeOp::Write { offset, .. } => assert_eq!(offset, 0),
        _ => panic!("expected a write"),
    }
}

#[test]
fn retirement_removes_old_segments_only() {
    let mut e = WalEngine::new(8, 10, 0, Mode::Sync, Acker::new(Mode::Sync));
    e.retire(
        9,
        &vec![(1, b"one".to_vec()), (8, b"eight".to_vec()), (9, b"nine".to_vec()), (10, b"ten".to_vec())],
    );
    let mut gone = Vec::new();
    while let Some(sqe) = e.next_submission() {
        assert_eq!(sqe.op, SqeOp::Unlink);
        match e.work_at(sqe.user_data as usize) {
            Some(IoWork::Remove(path)) => gone.push(path.clone()),
            _ => panic!("expected a removal"),
        }
    }
    assert_eq!(gone, vec![b"one".to_vec(), b"eight".to_vec()]);
}

#[test]
fn batches_are_neither_lost_nor_doubled() {
    let mut st = stage2(Mode::Sync);
    let mut e = engine(Mode::Sync);
    for _ in 0..3 {
        e.on_poll(Some(WalMsg::Write(write_msg(&mut st, b"k", b"v", 1))));
    }
    e.arm_fsync();
    let mut back = 0;
    let mut answered = 0;
    while let Some(sqe) = e.next_submission() {
        let res = match sqe.op {
            SqeOp::Write { start: 0, .. } => 5,
            SqeOp::Write { len, .. } => len as i32,
            _ => 0,
        };
        let c = e.on_completion(sqe.user_data as usize, res);
        back += c.recycled.len();
        answered += c.replies.len();
    }
    assert_eq!((back, answered), (3, 3));
    assert!(e.should_park());
}

#[test]
fn planner_follows_its_cadence() {
    let mut never = FsyncPlanner::new(FsyncCadence::from(Mode::NoFsync));
    never.on_write_queued(1 << 30);
    assert!(!never.should_fsync());

    let mut always = FsyncPlanner::new(FsyncCadence::from(Mode::Sync));
    assert!(!always.should_fsync());
    always.on_write_queued(1);
    assert!(always.should_fsync());
    always.on_write_queued(1);
    assert!(!always.should_fsync());
    always.on_fsync_completed();
    assert!(always.should_fsync());
    assert_eq!(always.dirty_bytes(), 0);

    let mut volume = FsyncPlanner::new(FsyncCadence::from(Mode::Async));
    volume.on_write_queued((1 << 20) - 1);
    assert!(!volume.should_fsync());
    volume.on_write_queued(1);
    assert!(volume.should_fsync());
    assert!(!volume.should_fsync());
    volume.on_write_queued(1 << 20);
    assert!(volume.should_fsync());
}

#[test]
fn segment_hands_out_adjacent_ranges() {
    let mut s = Segment::open(7, 50);
    assert_eq!(s.start_lsn(), 7);
    assert_eq!(s.advance_offset(10), (50, 60));
    assert_eq!(s.advance_offset(0), (60, 60));
    assert_eq!(s.advance_offset(5), (60, 65));
    s.mark_fsynced();
    assert_eq!(s.offset(), 65);
}
