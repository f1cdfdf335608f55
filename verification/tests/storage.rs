use memkv::storage::db::Db;
use memkv::storage::recovery::{recover, Recovery};
use memkv::storage::segments::{list_segments, parse_segment_name, segment_name, segment_path};
use memkv::storage::snapshot::{encode_entries, encode_snapshot, has_header, is_loadable, load};
use memkv::storage::snapshotter::{Begin, ChildStatus, Outcome, Snapshotter};
use memkv::storage::wal_format::{checksum, decode_record, encode_record};
use memkv::wire::{encode, Operation};

fn body(op: Operation, key: &[u8], value: Option<&[u8]>) -> Vec<u8> {
    encode(op, key, value).unwrap()[4..].to_vec()
}

fn put(key: &[u8], value: &[u8]) -> Vec<u8> {
    body(Operation::Put, key, Some(value))
}

fn value(db: &Db, key: &[u8]) -> Option<Vec<u8>> {
    db.get(key).map(|v| v.to_vec())
}

#[test]
fn table_gives_back_what_was_put() {
    let mut db = Db::new();
    assert_eq!(db.len(), 0);
    db.put(b"a", b"1");
    db.put(b"b", b"2");
    assert_eq!(db.len(), 2);
    assert_eq!(value(&db, b"a"), Some(b"1".to_vec()));
    assert_eq!(value(&db, b"c"), None);
}

#[test]
fn put_overwrites_in_place_or_with_a_fresh_value() {
    let mut db = Db::default();
    db.put(b"a", b"one");
    // Same size, nobody holds it.
    db.put(b"a", b"two");
    assert_eq!(value(&db, b"a"), Some(b"two".to_vec()));
    // Same size, a reader holds it and keeps what it read.
    let held = db.get(b"a").unwrap().clone();
    db.put(b"a", b"six");
    assert_eq!(&held[..], b"two");
    assert_eq!(value(&db, b"a"), Some(b"six".to_vec()));
    // Another size.
    db.put(b"a", b"seven");
    assert_eq!(value(&db, b"a"), Some(b"seven".to_vec()));
    assert_eq!(db.len(), 1);
}

#[test]
fn removal_hands_back_what_was_there() {
    let mut db = Db::new();
    db.insert_raw(b"a", b"1");
    db.insert_raw(b"b", b"2");
    db.insert_raw(b"c", b"3");
    assert_eq!(db.remove(b"a").map(|v| v.to_vec()), Some(b"1".to_vec()));
    assert_eq!(db.remove(b"a"), None);
    assert_eq!(db.remove_raw(b"b").map(|v| v.to_vec()), Some(b"2".to_vec()));
    let (k, v) = db.remove_entry(b"c").unwrap();
    assert_eq!((&k[..], &v[..]), (&b"c"[..], &b"3"[..]));
    assert!(db.remove_entry(b"c").is_none());
    assert_eq!(db.len(), 0);
}

#[test]
fn iteration_meets_every_entry_once() {
    let mut db = Db::new();
    db.put(b"a", b"1");
    db.put(b"b", b"22");
    let mut all: Vec<(Vec<u8>, Vec<u8>)> =
        db.iter().into_iter().map(|(k, v)| (k.to_vec(), v.to_vec())).collect();
    all.sort();
    assert_eq!(
        all,
        vec![(b"a".to_vec(), b"1".to_vec()), (b"b".to_vec(), b"22".to_vec())]
    );
}

#[test]
fn checksum_is_fnv1a() {
    assert_eq!(checksum(b""), 0xcbf2_9ce4_8422_2325);
    assert_eq!(checksum(b"a"), 0xaf63_dc4c_8601_ec8c);
    assert_eq!(checksum(b"foobar"), 0x8594_4171_f739_67e8);
}

#[test]
fn record_has_this_layout() {
    let mut out = vec![0xEE];
    encode_record(&mut out, 7, b"xy");
    assert_eq!(out[0], 0xEE);
    assert_eq!(&out[1..5], &[10, 0, 0, 0]);
    assert_eq!(&out[5..13], &[7, 0, 0, 0, 0, 0, 0, 0]);
    assert_eq!(&out[13..15], b"xy");
    assert_eq!(&out[15..], &checksum(&out[5..15]).to_le_bytes());
    assert_eq!(out.len(), 23);
}

#[test]
fn record_reads_back_whatever_follows() {
    let mut out = Vec::new();
    encode_record(&mut out, 42, b"hello");
    let n = out.len();
    out.extend_from_slice(b"tail");
    let rec = decode_record(&out).unwrap();
    assert_eq!(rec.lsn, 42);
    assert_eq!(rec.wire_body, b"hello");
    assert_eq!(rec.consumed, n);
}

#[test]
fn torn_or_corrupted_record_is_refused() {
    let mut out = Vec::new();
    encode_record(&mut out, 42, b"hello");
    for cut in 0..out.len() {
        assert!(decode_record(&out[..cut]).is_none());
    }
    for i in 4..out.len() {
        let mut bad = out.clone();
        bad[i] ^= 1;
        assert!(decode_record(&bad).is_none());
    }
    // A body too short for a sequence number, with the right checksum.
    let mut short = vec![2, 0, 0, 0, 1, 2];
    short.extend_from_slice(&checksum(&[1, 2]).to_le_bytes());
    assert!(decode_record(&short).is_none());
}

#[test]
fn segment_names_are_padded_and_read_back() {
    assert_eq!(segment_name(42), "wal.00000000000000000042");
    assert_eq!(segment_name(u64::MAX), "wal.18446744073709551615");
    assert_eq!(segment_path("data", 0), "data/wal.00000000000000000000");
    assert_eq!(segment_path("data/", 7), "data/wal.00000000000000000007");
    for lsn in [0, 1, 9, 10, 12345, u64::MAX] {
        assert_eq!(parse_segment_name(&segment_name(lsn)), Some(lsn));
    }
}

#[test]
fn other_names_are_no_segments() {
    assert_eq!(parse_segment_name("wal.7"), Some(7));
    assert_eq!(parse_segment_name("wal.+7"), Some(7));
    assert_eq!(parse_segment_name("wal."), None);
    assert_eq!(parse_segment_name("wal.-7"), None);
    assert_eq!(parse_segment_name("wal.7x"), None);
    assert_eq!(parse_segment_name("snapshot"), None);
    assert_eq!(parse_segment_name("wal.18446744073709551616"), None);
}

#[test]
fn segments_are_listed_in_order() {
    let names: Vec<String> =
        ["wal.00000000000000000010", "snapshot", "wal.2", "wal.x", "wal.00000000000000000001"]
            .iter()
            .map(|s| s.to_string())
            .collect();
    assert_eq!(list_segments(&names), vec![(1, 4), (2, 2), (10, 0)]);
    let twins: Vec<String> = ["wal.5", "wal.05"].iter().map(|s| s.to_string()).collect();
    assert_eq!(list_segments(&twins), vec![(5, 0), (5, 1)]);
}

#[test]
fn snapshot_has_this_layout() {
    let mut db = Db::new();
    db.put(b"k", b"vv");
    let bytes = encode_snapshot(&db, 5);
    let mut want = b"SNAP".to_vec();
    want.extend_from_slice(&5u64.to_le_bytes());
    want.extend_from_slice(&1u64.to_le_bytes());
    want.extend_from_slice(&[1, 0, 0, 0, b'k', 2, 0, 0, 0, b'v', b'v']);
    assert_eq!(bytes, want);
}

#[test]
fn snapshot_entries_keep_their_order() {
    let one = encode_entries(&vec![(&b"a"[..], &b"1"[..]), (&b"b"[..], &b""[..])], 9);
    assert_eq!(&one[4..20], &[9, 0, 0, 0, 0, 0, 0, 0, 2, 0, 0, 0, 0, 0, 0, 0]);
    assert_eq!(
        &one[20..],
        &[1, 0, 0, 0, b'a', 1, 0, 0, 0, b'1', 1, 0, 0, 0, b'b', 0, 0, 0, 0]
    );
    assert_eq!(encode_entries(&vec![], 0).len(), 20);
}

#[test]
fn snapshot_reads_back() {
    let mut db = Db::new();
    db.put(b"a", b"1");
    db.put(b"b", b"");
    db.put(b"", b"3");
    let bytes = encode_snapshot(&db, 77);
    assert!(is_loadable(&bytes));
    let mut back = Db::new();
    assert_eq!(load(&bytes, &mut back), Some(77));
    assert_eq!(back.len(), 3);
    for k in [&b"a"[..], b"b", b""] {
        assert_eq!(value(&back, k), value(&db, k));
    }
}

#[test]
fn bytes_that_are_no_snapshot_load_nothing() {
    let mut db = Db::new();
    assert!(is_loadable(b"junk"));
    assert!(!has_header(b"junk"));
    assert!(has_header(&encode_snapshot(&db, 1)));
    assert_eq!(load(b"junk", &mut db), None);
    let mut wrong = encode_snapshot(&db, 1);
    wrong[0] = b'X';
    assert!(is_loadable(&wrong));
    assert_eq!(load(&wrong, &mut db), None);
    assert_eq!(db.len(), 0);
}

#[test]
fn snapshot_that_ends_between_entries_loads_what_is_there() {
    let mut db = Db::new();
    db.put(b"a", b"1");
    let mut bytes = encode_snapshot(&db, 3);
    bytes[12] = 2;
    let mut back = Db::new();
    assert!(is_loadable(&bytes));
    assert_eq!(load(&bytes, &mut back), Some(3));
    assert_eq!(back.len(), 1);
}

#[test]
fn snapshot_cut_inside_an_entry_is_not_loadable() {
    let mut db = Db::new();
    db.put(b"a", b"1");
    let bytes = encode_snapshot(&db, 3);
    assert!(!is_loadable(&bytes[..bytes.len() - 1]));
}

#[test]
fn snapshot_waits_for_the_gap() {
    let mut db = Db::new();
    db.put(b"k", b"v");
    let mut s = Snapshotter::new(100, 10);
    assert!(s.write_snapshot_sync_TEMP_FUNC(&db, 109).is_none());
    assert_eq!(s.write_snapshot_sync_TEMP_FUNC(&db, 110), Some(encode_snapshot(&db, 110)));
    assert_eq!(s.last_boundary(), 100);
    s.snapshot_written(110);
    assert_eq!(s.last_boundary(), 110);
    assert!(s.write_snapshot_sync_TEMP_FUNC(&db, 119).is_none());
    assert!(s.write_snapshot_sync_TEMP_FUNC(&db, 120).is_some());
}

#[test]
fn without_a_gap_a_snapshot_never_waits() {
    let db = Db::new();
    let mut s = Snapshotter::new(7, 0);
    assert_eq!(s.write_snapshot_sync_TEMP_FUNC(&db, 7), Some(encode_snapshot(&db, 7)));
    assert_eq!(s.try_begin(6), Begin::RejectReason);
    assert_eq!(s.try_begin(7), Begin::Started);
}

#[test]
fn one_snapshot_child_at_a_time() {
    let mut s = Snapshotter::new(0, 5);
    assert_eq!(s.poll(ChildStatus::Succeeded), None);
    assert_eq!(s.try_begin(4), Begin::RejectReason);
    assert_eq!(s.try_begin(5), Begin::Started);
    assert_eq!(s.try_begin(100), Begin::RejectReason);
    assert_eq!(s.poll(ChildStatus::Running), None);
    assert_eq!(s.poll(ChildStatus::Succeeded), Some(Outcome::Committed { boundary_lsn: 5 }));
    assert_eq!(s.poll(ChildStatus::Succeeded), None);
    // The gap now counts from the committed snapshot.
    assert_eq!(s.try_begin(9), Begin::RejectReason);
    assert_eq!(s.try_begin(10), Begin::Started);
    assert_eq!(s.poll(ChildStatus::Failed), Some(Outcome::Failed));
    assert_eq!(s.try_begin(10), Begin::Started);
}

#[test]
fn recovery_of_nothing_is_an_empty_table() {
    let r = recover(None, &vec![]);
    assert_eq!(r.db.len(), 0);
    assert_eq!(r.next_lsn(), 1);
    assert_eq!(r.replayed, 0);
    assert!(!r.torn);
}

#[test]
fn recovery_redoes_the_log() {
    let mut log = Vec::new();
    encode_record(&mut log, 1, &put(b"a", b"1"));
    encode_record(&mut log, 2, &put(b"b", b"2"));
    encode_record(&mut log, 3, &put(b"a", b"3"));
    let r = recover(None, &vec![log]);
    assert_eq!(value(&r.db, b"a"), Some(b"3".to_vec()));
    assert_eq!(value(&r.db, b"b"), Some(b"2".to_vec()));
    assert_eq!((r.replayed, r.highest, r.next_lsn(), r.torn), (3, 3, 4, false));
}

#[test]
fn recovery_skips_what_the_snapshot_holds() {
    let mut db = Db::new();
    db.put(b"a", b"new");
    let snap = encode_snapshot(&db, 2);
    let mut log = Vec::new();
    encode_record(&mut log, 1, &put(b"a", b"old"));
    encode_record(&mut log, 2, &put(b"a", b"new"));
    encode_record(&mut log, 3, &put(b"b", b"2"));
    let r = recover(Some(&snap), &vec![log]);
    assert_eq!(value(&r.db, b"a"), Some(b"new".to_vec()));
    assert_eq!(value(&r.db, b"b"), Some(b"2".to_vec()));
    assert_eq!((r.snap_lsn, r.replayed, r.next_lsn()), (2, 1, 4));
}

#[test]
fn recovery_after_compaction_with_and_without_the_old_log() {
    // The snapshot holds the write numbered 2 but says that it ends at 1.
    let mut db = Db::new();
    db.put(b"a", b"1");
    db.put(b"b", b"2");
    let snap = encode_snapshot(&db, 1);
    let mut old = Vec::new();
    encode_record(&mut old, 1, &put(b"a", b"1"));
    encode_record(&mut old, 2, &put(b"b", b"2"));
    let mut new = Vec::new();
    encode_record(&mut new, 3, &put(b"a", b"3"));
    for logs in [vec![old, new.clone()], vec![new]] {
        let r = recover(Some(&snap), &logs);
        assert_eq!(r.db.len(), 2);
        assert_eq!(value(&r.db, b"a"), Some(b"3".to_vec()));
        assert_eq!(value(&r.db, b"b"), Some(b"2".to_vec()));
        assert_eq!(r.next_lsn(), 4);
    }
}

#[test]
fn restarted_store_is_recovered_and_compacted() {
    // A first life leaves two keys; the second one starts from them at 3.
    let mut log = Vec::new();
    encode_record(&mut log, 1, &put(b"a", b"1"));
    encode_record(&mut log, 2, &put(b"b", b"2"));
    let first = recover(None, &vec![log]);
    let start = first.next_lsn();
    assert_eq!(start, 3);
    let mut db = first.db;
    let mut old = Vec::new();
    for (i, (k, v)) in [(b"a", b"3"), (b"c", b"4")].into_iter().enumerate() {
        encode_record(&mut old, start + 1 + i as u64, &put(k, v));
        db.put(k, v);
    }
    let mut new = Vec::new();
    encode_record(&mut new, start + 3, &put(b"b", b"5"));
    // Labelled with its last write, or with the one before; with the old records
    // or without them.
    for label in [start + 2, start + 1] {
        let snap = encode_snapshot(&db, label);
        for logs in [vec![old.clone(), new.clone()], vec![new.clone()]] {
            let r = recover(Some(&snap), &logs);
            assert_eq!(r.db.len(), 3);
            assert_eq!(value(&r.db, b"a"), Some(b"3".to_vec()));
            assert_eq!(value(&r.db, b"b"), Some(b"5".to_vec()));
            assert_eq!(value(&r.db, b"c"), Some(b"4".to_vec()));
            assert_eq!((r.highest, r.torn), (start + 3, false));
            // What was recovered can be saved and loaded again.
            let again = encode_snapshot(&r.db, r.highest);
            assert!(is_loadable(&again));
            assert_eq!(recover(Some(&again), &vec![]).db.len(), 3);
        }
    }
}

#[test]
fn crash_leaves_a_front_part_of_the_log() {
    let mut log = Vec::new();
    encode_record(&mut log, 1, &put(b"a", b"1"));
    let first = log.len();
    encode_record(&mut log, 2, &put(b"b", b"2"));
    for cut in 0..=log.len() {
        let r = recover(None, &vec![log[..cut].to_vec()]);
        let want = if cut < first {
            0
        } else if cut < log.len() {
            1
        } else {
            2
        };
        assert_eq!(r.db.len(), want);
        assert_eq!(r.torn, cut != 0 && cut != first && cut != log.len());
    }
}

#[test]
fn nothing_is_replayed_behind_a_torn_record() {
    let mut torn = Vec::new();
    encode_record(&mut torn, 1, &put(b"a", b"1"));
    torn.pop();
    let mut fine = Vec::new();
    encode_record(&mut fine, 2, &put(b"b", b"2"));
    let r = recover(None, &vec![torn, fine]);
    assert!(r.torn);
    assert_eq!(r.db.len(), 0);
}

#[test]
fn changed_byte_ends_recovery_at_its_record() {
    let mut log = Vec::new();
    encode_record(&mut log, 1, &put(b"a", b"1"));
    let first = log.len();
    encode_record(&mut log, 2, &put(b"b", b"2"));
    let second = log.len();
    encode_record(&mut log, 3, &put(b"c", b"3"));
    for i in first + 4..second {
        let mut bad = log.clone();
        bad[i] ^= 0x80;
        let r = recover(None, &vec![bad]);
        assert!(r.torn);
        assert_eq!(r.db.len(), 1);
        assert_eq!(value(&r.db, b"a"), Some(b"1".to_vec()));
    }
}

#[test]
fn where_a_segment_ends_makes_no_difference() {
    let mut one = Vec::new();
    encode_record(&mut one, 1, &put(b"a", b"1"));
    let mut two = Vec::new();
    encode_record(&mut two, 2, &put(b"b", b"2"));
    let split = recover(None, &vec![one.clone(), two.clone()]);
    let mut all = one;
    all.append(&mut two);
    let whole = recover(None, &vec![all]);
    assert_eq!(split.db.len(), whole.db.len());
    assert_eq!(split.next_lsn(), whole.next_lsn());
}

#[test]
fn reads_in_the_log_change_nothing_and_malformed_writes_end_it() {
    let mut log = Vec::new();
    encode_record(&mut log, 1, &body(Operation::Get, b"a", None));
    encode_record(&mut log, 2, &[1, 9, 0, 0, 0, b'k']);
    let r = recover(None, &vec![log]);
    assert_eq!(r.db.len(), 0);
    assert_eq!((r.replayed, r.highest, r.torn), (1, 1, true));
    let mut empty = Vec::new();
    encode_record(&mut empty, 1, b"");
    assert!(recover(None, &vec![empty]).torn);
}

#[test]
fn recovery_can_go_segment_by_segment() {
    let mut log = Vec::new();
    encode_record(&mut log, 1, &put(b"a", b"1"));
    let mut r = Recovery::start(Some(b"no snapshot"));
    r.replay_segment(&log);
    assert_eq!(r.db.len(), 1);
    assert_eq!(r.snap_lsn, 0);
}
