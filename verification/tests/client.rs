use memkv::client::backoff::Backoff;
use memkv::client::calls::{encode_calls, Call};
use memkv::client::driver::{Act, Driver, Event, Phase};
use memkv::client::inbox::Inbox;
use memkv::client::reader::FrameReader;
use memkv::stage1::encode;
use memkv::wire::{encode as encode_request, Operation, Resp};

fn value(bytes: &[u8]) -> Resp {
    Resp::Value(bytes.into())
}

fn stream(resps: &[Resp]) -> Vec<u8> {
    let mut buf = Vec::new();
    for r in resps {
        encode(&mut buf, r);
    }
    buf
}

#[test]
fn frames_come_out_in_order_however_the_stream_is_cut() {
    let resps = vec![Resp::Okay, value(b"abc"), Resp::Miss, Resp::UnknownOp, value(b"")];
    let bytes = stream(&resps);
    for cut in 0..=bytes.len() {
        let mut r = FrameReader::new();
        let mut got = Vec::new();
        for part in [&bytes[..cut], &bytes[cut..]] {
            r.feed(part);
            while let Some(resp) = r.try_extract() {
                got.push(resp);
            }
        }
        assert_eq!(got, resps);
    }
}

#[test]
fn unfinished_frame_waits() {
    let mut r = FrameReader::new();
    assert_eq!(r.try_extract(), None);
    r.feed(&[3, 0, 0]);
    assert_eq!(r.try_extract(), None);
    r.feed(&[0, 0, b'x']);
    assert_eq!(r.try_extract(), None);
    r.feed(&[b'y', 1]);
    assert_eq!(r.try_extract(), Some(value(b"xy")));
    assert_eq!(r.try_extract(), None);
}

#[test]
fn empty_frame_is_an_unknown_response() {
    let mut r = FrameReader::new();
    r.feed(&[0, 0, 0, 0]);
    assert_eq!(r.try_extract(), Some(Resp::Unknown));
}

#[test]
fn huge_length_just_waits() {
    let mut r = FrameReader::new();
    r.feed(&[255, 255, 255, 255, 1, 2, 3]);
    assert_eq!(r.try_extract(), None);
}

#[test]
fn calls_are_written_in_order() {
    let mut buf = vec![1u8, 2, 3];
    let ids = encode_calls(&mut buf, &vec![Call::put(7, b"k", b"v"), Call::get(8, b"k")]);
    assert_eq!(ids, vec![7, 8]);
    let mut want = encode_request(Operation::Put, b"k", Some(b"v")).unwrap();
    want.append(&mut encode_request(Operation::Get, b"k", None).unwrap());
    assert_eq!(buf, want);
    assert_eq!(encode_calls(&mut buf, &vec![]), Vec::<u64>::new());
    assert!(buf.is_empty());
}

#[test]
fn pipelined_calls_get_their_own_responses() {
    let mut inbox = Inbox::new();
    inbox.expect(10);
    inbox.expect(11);
    let bytes = stream(&[value(b"a"), Resp::Okay, Resp::Miss]);
    inbox.feed(&bytes[..7]);
    let a = inbox.next_answer().unwrap();
    assert_eq!((a.id, a.resp), (10, value(b"a")));
    assert!(inbox.next_answer().is_none());
    inbox.feed(&bytes[7..]);
    let b = inbox.next_answer().unwrap();
    assert_eq!(b.id, 11);
    assert_eq!(b.resp, Resp::Okay);
    // A response that nobody waits for stays until someone does.
    assert!(inbox.next_answer().is_none());
    inbox.expect(12);
    let c = inbox.next_answer().unwrap();
    assert_eq!(c.id, 12);
    assert_eq!(c.resp, Resp::Miss);
}

#[test]
fn answers_match_however_calls_and_bytes_are_interleaved() {
    let resps = vec![Resp::Okay, value(b"abc"), Resp::Miss, value(b"")];
    let bytes = stream(&resps);
    // Calls come before, between and after the bytes; the inbox is asked after
    // every step.
    for lead in 0..=resps.len() {
        for chunk in 1..=bytes.len() {
            let mut inbox = Inbox::new();
            let mut next: u64 = 0;
            let mut got = Vec::new();
            while next < lead as u64 {
                inbox.expect(next);
                next += 1;
            }
            for part in bytes.chunks(chunk) {
                inbox.feed(part);
                while let Some(a) = inbox.next_answer() {
                    got.push((a.id, a.resp));
                }
                if next < resps.len() as u64 {
                    inbox.expect(next);
                    next += 1;
                }
            }
            while next < resps.len() as u64 {
                inbox.expect(next);
                next += 1;
            }
            while let Some(a) = inbox.next_answer() {
                got.push((a.id, a.resp));
            }
            let want: Vec<(u64, Resp)> = (0..).zip(resps.clone()).collect();
            assert_eq!(got, want);
        }
    }
}

#[test]
fn lost_connection_fails_every_waiting_call() {
    let mut inbox = Inbox::new();
    inbox.expect(1);
    inbox.expect(2);
    assert!(!inbox.is_dead());
    assert_eq!(inbox.close(), vec![1, 2]);
    assert!(inbox.is_dead());
    assert_eq!(inbox.close(), Vec::<u64>::new());
}

#[test]
fn waits_double_up_to_five_seconds() {
    let mut b = Backoff::new();
    let mut waits = Vec::new();
    for _ in 0..8 {
        waits.push(b.delay_ms());
        b.on_failure();
    }
    assert_eq!(waits, vec![100, 200, 400, 800, 1600, 3200, 5000, 5000]);
    b.on_success();
    assert_eq!(b.delay_ms(), 100);
}

#[test]
fn driver_serves_until_its_users_are_gone() {
    let mut d = Driver::new();
    assert_eq!(d.current(), Phase::Opening);
    assert_eq!(d.step(Event::Opened { ok: true }), Act::AwaitCall);
    assert_eq!(d.step(Event::Called { dead: false }), Act::Send);
    assert_eq!(d.step(Event::Sent { ok: true }), Act::AwaitCall);
    assert_eq!(d.current(), Phase::Serving);
    assert_eq!(d.step(Event::UsersGone), Act::Stop);
    assert_eq!(d.current(), Phase::Stopped);
}

#[test]
fn driver_reconnects_with_growing_waits() {
    let mut d = Driver::new();
    assert_eq!(d.step(Event::Opened { ok: false }), Act::Reconnect { delay_ms: 100 });
    assert_eq!(d.step(Event::Connected { ok: false }), Act::Reconnect { delay_ms: 200 });
    assert_eq!(d.step(Event::Connected { ok: false }), Act::Reconnect { delay_ms: 400 });
    assert_eq!(d.step(Event::Connected { ok: true }), Act::Open);
    assert_eq!(d.step(Event::Opened { ok: true }), Act::AwaitCall);
    assert_eq!(d.step(Event::Called { dead: true }), Act::FailCallAndReconnect { delay_ms: 100 });
    assert_eq!(d.step(Event::Connected { ok: true }), Act::Open);
    assert_eq!(d.step(Event::Opened { ok: true }), Act::AwaitCall);
    assert_eq!(d.step(Event::Called { dead: false }), Act::Send);
    assert_eq!(d.step(Event::Sent { ok: false }), Act::DropAndReconnect { delay_ms: 100 });
}
