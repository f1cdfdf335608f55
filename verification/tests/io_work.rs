use memkv::stage3::io_work::{IoWork, Sqe, SqeOp, Verdict};
use memkv::types::Batch;

fn batch(n: usize) -> Batch {
    let mut b = Batch::with_capacity(0, n);
    b.out.resize(n, 0xAB);
    b
}

#[test]
fn short_write_retries_at_first_unwritten_byte() {
    match IoWork::write(batch(100), 0).complete(60) {
        Verdict::Retry(IoWork::Write(w)) => assert_eq!(w.done, 60),
        _ => panic!("expected Retry"),
    }
}

#[test]
fn eintr_retries_without_progress() {
    match IoWork::write(batch(100), 0).complete(-libc::EINTR) {
        Verdict::Retry(IoWork::Write(w)) => assert_eq!(w.done, 0),
        _ => panic!("expected Retry"),
    }
}

#[test]
fn remove_tolerates_enoent() {
    let w = IoWork::Remove(b"/nope".to_vec());
    assert!(matches!(w.complete(-libc::ENOENT), Verdict::Okay(None)));
}

#[test]
fn how_heavy_actually() {
    println!("size_of<IoWork> = {}", std::mem::size_of::<IoWork>());
}

#[test]
fn eagain_retries_without_progress() {
    match IoWork::write(batch(100), 7).complete(-libc::EAGAIN) {
        Verdict::Retry(IoWork::Write(w)) => {
            assert_eq!(w.done, 0);
            assert_eq!(w.offset, 7);
            assert_eq!(w.data.out.len(), 100);
        }
        _ => panic!("expected Retry"),
    }
}

#[test]
fn error_numbers_are_those_of_the_c_library() {
    // EPERM stands next to ENOENT: it ends a write, and a removal is worth a
    // warning.
    assert!(matches!(
        IoWork::write(batch(1), 0).complete(-libc::EPERM),
        Verdict::Fatal(e) if e == libc::EPERM
    ));
    assert!(!IoWork::Remove(b"x".to_vec()).remove_failed(-libc::ENOENT));
    assert!(IoWork::Remove(b"x".to_vec()).remove_failed(-libc::EPERM));
    assert!(!IoWork::Remove(b"x".to_vec()).remove_failed(0));
    assert!(!IoWork::Fsync(3).remove_failed(-libc::EPERM));
}

#[test]
fn full_write_hands_the_batch_back() {
    match IoWork::write(batch(100), 0).complete(100) {
        Verdict::Okay(Some(b)) => assert_eq!(b.out, vec![0xAB; 100]),
        _ => panic!("expected the batch"),
    }
}

#[test]
fn failed_write_is_fatal() {
    assert!(matches!(
        IoWork::write(batch(10), 0).complete(-libc::ENOSPC),
        Verdict::Fatal(28)
    ));
}

#[test]
fn flush_is_durable_or_fatal() {
    assert!(matches!(IoWork::Fsync(5).complete(0), Verdict::Durable));
    assert!(matches!(
        IoWork::Fsync(5).complete(-libc::EINTR),
        Verdict::Fatal(4)
    ));
}

#[test]
fn failed_removal_is_no_failure() {
    let w = IoWork::Remove(b"/nope".to_vec());
    assert!(matches!(w.complete(-libc::EACCES), Verdict::Okay(None)));
}

#[test]
fn submission_of_a_write_covers_what_is_left() {
    let first = IoWork::write(batch(100), 1000);
    assert_eq!(
        first.sqe(3),
        Sqe { op: SqeOp::Write { start: 0, len: 100, offset: 1000 }, user_data: 3 }
    );
    match first.complete(60) {
        Verdict::Retry(next) => assert_eq!(
            next.sqe(4),
            Sqe { op: SqeOp::Write { start: 60, len: 40, offset: 1060 }, user_data: 4 }
        ),
        _ => panic!("expected Retry"),
    }
}

#[test]
fn submission_of_a_flush_and_of_a_removal() {
    assert_eq!(
        IoWork::Fsync(9).sqe(1),
        Sqe { op: SqeOp::FsyncDataDrained, user_data: 1 }
    );
    assert_eq!(
        IoWork::Remove(b"/tmp/x".to_vec()).sqe(2),
        Sqe { op: SqeOp::Unlink, user_data: 2 }
    );
}
