//! Snapshots of the table.
//!
//! A snapshot is `[magic:u32][lsn:u64][count:u64]` and then, for every key,
//! `[klen:u32][key][vlen:u32][val]`. It holds every write up to its sequence
//! number.

use vstd::prelude::*;
use vstd::slice::slice_subrange;

use crate::le;
use crate::storage::db::Db;
use crate::storage::table;
use crate::wire::{rd_u32, rd_u64};

verus! {

broadcast use crate::le::group_le_len;

/// The bytes `SNAP`, read as a number.
pub const SNAPSHOT_MAGIC: u32 = 0x5041_4e53;

/// Bytes in front of the first entry.
pub const SNAPSHOT_HDR: usize = 20;

/// One entry.
pub open spec fn entry_bytes(k: Seq<u8>, v: Seq<u8>) -> Seq<u8> {
    le::le32(le::low32(k.len())) + k + le::le32(le::low32(v.len())) + v
}

/// A run of entries.
pub open spec fn entries_bytes(order: Seq<(Seq<u8>, Seq<u8>)>) -> Seq<u8>
    decreases order.len(),
{
    if order.len() == 0 {
        seq![]
    } else {
        entries_bytes(order.drop_last()) + entry_bytes(order.last().0, order.last().1)
    }
}

/// The front of a snapshot.
pub open spec fn header_bytes(lsn: u64, count: u64) -> Seq<u8> {
    le::le32(SNAPSHOT_MAGIC) + le::le64(lsn) + le::le64(count)
}

/// A snapshot that lists the table in a given order.
pub open spec fn snapshot_bytes(lsn: u64, order: Seq<(Seq<u8>, Seq<u8>)>) -> Seq<u8> {
    header_bytes(lsn, order.len() as u64) + entries_bytes(order)
}

/// A snapshot is long enough for its header and starts with the magic number.
pub open spec fn header_ok(bytes: Seq<u8>) -> bool {
    bytes.len() >= SNAPSHOT_HDR && le::le32_value(bytes) == SNAPSHOT_MAGIC
}

/// The sequence number of a snapshot.
pub open spec fn header_lsn(bytes: Seq<u8>) -> u64 {
    le::le64_value(bytes.skip(4)) as u64
}

/// The number of entries that a snapshot declares.
pub open spec fn header_count(bytes: Seq<u8>) -> nat {
    le::le64_value(bytes.skip(12))
}

/// The length of the key at the front of a run of entries.
pub open spec fn front_klen(s: Seq<u8>) -> int {
    le::le32_value(s) as int
}

/// The length of the value at the front of a run of entries.
pub open spec fn front_vlen(s: Seq<u8>) -> int {
    le::le32_value(s.skip(4 + front_klen(s))) as int
}

/// The entry at the front is all there.
pub open spec fn front_whole(s: Seq<u8>) -> bool {
    &&& s.len() >= 4
    &&& 4 + front_klen(s) + 4 <= s.len()
    &&& 4 + front_klen(s) + 4 + front_vlen(s) <= s.len()
}

/// The entry at the front.
pub open spec fn front_entry(s: Seq<u8>) -> (Seq<u8>, Seq<u8>) {
    (
        s.subrange(4, 4 + front_klen(s)),
        s.subrange(8 + front_klen(s), 8 + front_klen(s) + front_vlen(s)),
    )
}

/// What follows the entry at the front.
pub open spec fn behind_front(s: Seq<u8>) -> Seq<u8> {
    s.skip(8 + front_klen(s) + front_vlen(s))
}

/// Up to `n` entries. They end early where not even a length field is left;
/// `None` means that an entry is cut short.
pub open spec fn entries_of(s: Seq<u8>, n: nat) -> Option<Seq<(Seq<u8>, Seq<u8>)>>
    decreases n,
{
    if n == 0 || s.len() < 4 {
        Some(seq![])
    } else if !front_whole(s) {
        None
    } else {
        match entries_of(behind_front(s), (n - 1) as nat) {
            Some(rest) => Some(seq![front_entry(s)] + rest),
            None => None,
        }
    }
}

/// The entries of a snapshot.
pub open spec fn snapshot_entries(bytes: Seq<u8>) -> Option<Seq<(Seq<u8>, Seq<u8>)>> {
    entries_of(bytes.skip(SNAPSHOT_HDR as int), header_count(bytes))
}

/// A snapshot that can be loaded: none of its entries is cut short. What is no
/// snapshot at all can be passed to `load` too, which turns it down.
pub open spec fn loadable(bytes: Seq<u8>) -> bool {
    header_ok(bytes) ==> snapshot_entries(bytes) is Some
}

/// The table with a run of entries put into it.
pub open spec fn filled(db: Map<Seq<u8>, Seq<u8>>, entries: Seq<(Seq<u8>, Seq<u8>)>) -> Map<
    Seq<u8>,
    Seq<u8>,
>
    decreases entries.len(),
{
    if entries.len() == 0 {
        db
    } else {
        filled(db, entries.drop_last()).insert(entries.last().0, entries.last().1)
    }
}

/// True when the bytes are a snapshot, as far as its header tells.
pub fn has_header(bytes: &[u8]) -> (r: bool)
    ensures
        r == header_ok(bytes@),
{
    bytes.len() >= SNAPSHOT_HDR && rd_u32(bytes) == SNAPSHOT_MAGIC as usize
}

/// True when the bytes can be passed to `load`.
pub fn is_loadable(bytes: &[u8]) -> (r: bool)
    ensures
        r == loadable(bytes@),
{
    let n = bytes.len();
    if !has_header(bytes) {
        return true;
    }
    let count_field = slice_subrange(bytes, 12, n);
    assert(count_field@ =~= bytes@.skip(12));
    let count = rd_u64(count_field);
    let mut p: usize = SNAPSHOT_HDR;
    let mut i: u64 = 0;
    while i < count && n - p >= 4
        invariant
            n == bytes@.len(),
            p <= n,
            i <= count,
            header_ok(bytes@),
            count == header_count(bytes@),
            snapshot_entries(bytes@) is Some <==> entries_of(
                bytes@.skip(p as int),
                (count - i) as nat,
            ) is Some,
        decreases n - p,
    {
        let ghost s = bytes@.skip(p as int);
        match entry_end(bytes, p) {
            Some(end) => {
                assert(behind_front(s) =~= bytes@.skip(end as int));
                p = end;
                i = i + 1;
            },
            None => {
                return false;
            },
        }
    }
    true
}

/// Where the entry at `p` ends; `None` when it is cut short.
fn entry_end(bytes: &[u8], p: usize) -> (r: Option<usize>)
    requires
        p + 4 <= bytes@.len(),
    ensures
        match r {
            Some(end) => {
                &&& front_whole(bytes@.skip(p as int))
                &&& end == p + 8 + front_klen(bytes@.skip(p as int)) + front_vlen(
                    bytes@.skip(p as int),
                )
                &&& end <= bytes@.len()
            },
            None => !front_whole(bytes@.skip(p as int)),
        },
{
    let n = bytes.len();
    let ghost s = bytes@.skip(p as int);
    let klen_field = slice_subrange(bytes, p, n);
    assert(klen_field@ =~= s);
    let klen = rd_u32(klen_field);
    if klen > n - p - 4 || n - p - 4 - klen < 4 {
        return None;
    }
    let vlen_at = p + 4 + klen;
    let vlen_field = slice_subrange(bytes, vlen_at, n);
    assert(vlen_field@ =~= s.skip(4 + front_klen(s)));
    let vlen = rd_u32(vlen_field);
    if vlen > n - vlen_at - 4 {
        return None;
    }
    Some(vlen_at + 4 + vlen)
}

/// Puts the entries of a snapshot into the table and returns the snapshot's
/// sequence number. Bytes that are no snapshot are turned down, and the table
/// stays as it is.
pub fn load(bytes: &[u8], db: &mut Db) -> (r: Option<u64>)
    requires
        loadable(bytes@),
    ensures
        r is Some <==> header_ok(bytes@),
        r matches Some(lsn) ==> {
            &&& lsn == header_lsn(bytes@)
            &&& final(db)@ == filled(old(db)@, snapshot_entries(bytes@).unwrap())
        },
        r is None ==> final(db)@ == old(db)@,
{
    let n = bytes.len();
    if !has_header(bytes) {
        return None;
    }
    let ghost db0 = db@;
    let ghost entries = snapshot_entries(bytes@).unwrap();
    let lsn_field = slice_subrange(bytes, 4, n);
    assert(lsn_field@ =~= bytes@.skip(4));
    let lsn = rd_u64(lsn_field);
    let count_field = slice_subrange(bytes, 12, n);
    assert(count_field@ =~= bytes@.skip(12));
    let count = rd_u64(count_field);

    let mut p: usize = SNAPSHOT_HDR;
    let mut i: u64 = 0;
    let ghost mut done: Seq<(Seq<u8>, Seq<u8>)> = seq![];
    assert(done + entries =~= entries);
    while i < count && n - p >= 4
        invariant
            n == bytes@.len(),
            p <= n,
            i <= count,
            entries_of(bytes@.skip(p as int), (count - i) as nat) is Some,
            entries == done + entries_of(bytes@.skip(p as int), (count - i) as nat).unwrap(),
            db@ == filled(db0, done),
        decreases n - p,
    {
        let ghost s = bytes@.skip(p as int);
        match entry_end(bytes, p) {
            Some(end) => {
                let klen_field = slice_subrange(bytes, p, n);
                assert(klen_field@ =~= s);
                let klen = rd_u32(klen_field);
                let key = slice_subrange(bytes, p + 4, p + 4 + klen);
                let val = slice_subrange(bytes, p + 8 + klen, end);
                db.insert_raw(key, val);
                proof {
                    let e = front_entry(s);
                    let rest = entries_of(behind_front(s), (count - i - 1) as nat).unwrap();
                    assert(key@ =~= e.0);
                    assert(val@ =~= e.1);
                    assert(behind_front(s) =~= bytes@.skip(end as int));
                    assert(done + (seq![e] + rest) =~= done.push(e) + rest);
                    assert(done.push(e).drop_last() =~= done);
                    done = done.push(e);
                }
                p = end;
                i = i + 1;
            },
            None => {
                assert(false);
            },
        }
    }
    assert(entries =~= done);
    Some(lsn)
}

/// The bytes of a snapshot of the table. The table is gone through in an order
/// that is left open.
pub fn encode_snapshot(db: &Db, lsn: u64) -> (r: Vec<u8>)
    ensures
        exists|order: Seq<(Seq<u8>, Seq<u8>)>|
            table::lists(order, db@) && r@ == snapshot_bytes(lsn, order),
{
    let pairs = db.iter();
    let r = encode_entries(&pairs, lsn);
    assert(table::lists(table::pairs(pairs@), db@));
    r
}

/// The bytes of a snapshot of these entries, in this order.
pub fn encode_entries(pairs: &Vec<(&[u8], &[u8])>, lsn: u64) -> (r: Vec<u8>)
    ensures
        r@ == snapshot_bytes(lsn, table::pairs(pairs@)),
{
    let ghost order = table::pairs(pairs@);
    let mut out: Vec<u8> = Vec::new();
    le::push_le32(&mut out, SNAPSHOT_MAGIC);
    le::push_le64(&mut out, lsn);
    le::push_le64(&mut out, pairs.len() as u64);
    assert(out@ =~= header_bytes(lsn, order.len() as u64));
    assert(order.take(0) =~= seq![]);
    assert(out@ =~= header_bytes(lsn, order.len() as u64) + entries_bytes(order.take(0)));
    let mut i: usize = 0;
    while i < pairs.len()
        invariant
            i <= pairs@.len(),
            order == table::pairs(pairs@),
            out@ == header_bytes(lsn, order.len() as u64) + entries_bytes(order.take(i as int)),
        decreases pairs@.len() - i,
    {
        let (k, v) = pairs[i];
        let ghost before = out@;
        le::push_le32(&mut out, le::to_low32(k.len()));
        le::push_bytes(&mut out, k);
        le::push_le32(&mut out, le::to_low32(v.len()));
        le::push_bytes(&mut out, v);
        proof {
            assert(order[i as int] == (k@, v@));
            assert(order.take(i + 1).drop_last() =~= order.take(i as int));
            assert(out@ =~= before + entry_bytes(k@, v@));
            assert(out@ =~= header_bytes(lsn, order.len() as u64) + entries_bytes(
                order.take(i + 1),
            ));
        }
        i = i + 1;
    }
    assert(order.take(order.len() as int) =~= order);
    out
}

/// Every key and value fits its length field.
pub open spec fn lengths_fit(order: Seq<(Seq<u8>, Seq<u8>)>) -> bool {
    forall|i: int|
        0 <= i < order.len() ==> (#[trigger] order[i]).0.len() < 0x1_0000_0000 && order[i].1.len()
            < 0x1_0000_0000
}

/// A run of entries starts with its first entry.
proof fn lemma_entries_front(order: Seq<(Seq<u8>, Seq<u8>)>)
    requires
        order.len() > 0,
    ensures
        entries_bytes(order) == entry_bytes(order[0].0, order[0].1) + entries_bytes(order.skip(1)),
    decreases order.len(),
{
    if order.len() == 1 {
        assert(order.drop_last() =~= seq![]);
        assert(order.skip(1) =~= seq![]);
        assert(entries_bytes(order) =~= entry_bytes(order[0].0, order[0].1) + entries_bytes(
            order.skip(1),
        ));
    } else {
        lemma_entries_front(order.drop_last());
        assert(order.drop_last().skip(1) =~= order.skip(1).drop_last());
        assert(order.skip(1).last() == order.last());
        assert(entries_bytes(order) =~= entry_bytes(order[0].0, order[0].1) + entries_bytes(
            order.skip(1),
        ));
    }
}

/// An entry that was written reads back, whatever follows it.
proof fn lemma_front_entry(k: Seq<u8>, v: Seq<u8>, rest: Seq<u8>)
    requires
        k.len() < 0x1_0000_0000,
        v.len() < 0x1_0000_0000,
    ensures
        front_whole(entry_bytes(k, v) + rest),
        front_entry(entry_bytes(k, v) + rest) == (k, v),
        behind_front(entry_bytes(k, v) + rest) == rest,
{
    let s = entry_bytes(k, v) + rest;
    let kn = le::low32(k.len());
    let vn = le::low32(v.len());
    assert(front_klen(s) == k.len()) by {
        assert(s =~= le::le32(kn) + (k + le::le32(vn) + v + rest));
        le::law_le32_roundtrip(kn, k + le::le32(vn) + v + rest);
    }
    assert(front_vlen(s) == v.len()) by {
        assert(s.skip(4 + k.len() as int) =~= le::le32(vn) + (v + rest));
        le::law_le32_roundtrip(vn, v + rest);
    }
    assert(front_entry(s).0 =~= k);
    assert(front_entry(s).1 =~= v);
    assert(behind_front(s) =~= rest);
}

/// Entries that were written read back in the order they were written.
proof fn lemma_entries_roundtrip(order: Seq<(Seq<u8>, Seq<u8>)>)
    requires
        lengths_fit(order),
    ensures
        entries_of(entries_bytes(order), order.len()) == Some(order),
    decreases order.len(),
{
    if order.len() == 0 {
        assert(order =~= seq![]);
    } else {
        lemma_entries_front(order);
        assert(order[0].0.len() < 0x1_0000_0000);
        lemma_front_entry(order[0].0, order[0].1, entries_bytes(order.skip(1)));
        assert(lengths_fit(order.skip(1))) by {
            assert forall|i: int| 0 <= i < order.skip(1).len() implies (#[trigger] order.skip(
                1,
            )[i]).0.len() < 0x1_0000_0000 && order.skip(1)[i].1.len() < 0x1_0000_0000 by {
                assert(order.skip(1)[i] == order[i + 1]);
            }
        }
        lemma_entries_roundtrip(order.skip(1));
        assert(order[0] == (order[0].0, order[0].1));
        assert(seq![order[0]] + order.skip(1) =~= order);
    }
}

/// Filling an empty table from a list of distinct keys gives each key its value
/// and holds nothing else.
proof fn lemma_filled(entries: Seq<(Seq<u8>, Seq<u8>)>, k: Seq<u8>)
    requires
        forall|i: int, j: int|
            0 <= i < j < entries.len() ==> (#[trigger] entries[i]).0 != (#[trigger] entries[j]).0,
    ensures
        filled(table::no_entries(), entries).contains_key(k) <==> exists|i: int|
            0 <= i < entries.len() && (#[trigger] entries[i]).0 == k,
        forall|i: int|
            0 <= i < entries.len() && (#[trigger] entries[i]).0 == k ==> filled(
                table::no_entries(),
                entries,
            )[k] == entries[i].1,
    decreases entries.len(),
{
    if entries.len() > 0 {
        let front = entries.drop_last();
        assert forall|i: int, j: int| 0 <= i < j < front.len() implies (#[trigger] front[i]).0 != (
        #[trigger] front[j]).0 by {
            assert(entries[i].0 != entries[j].0);
        }
        lemma_filled(front, k);
        let n = entries.len() - 1;
        if entries[n].0 == k {
            assert(entries.last().0 == k);
        } else {
            if exists|i: int| 0 <= i < entries.len() && (#[trigger] entries[i]).0 == k {
                let i = choose|i: int| 0 <= i < entries.len() && (#[trigger] entries[i]).0 == k;
                assert(front[i].0 == k);
            }
            if exists|i: int| 0 <= i < front.len() && (#[trigger] front[i]).0 == k {
                let i = choose|i: int| 0 <= i < front.len() && (#[trigger] front[i]).0 == k;
                assert(entries[i].0 == k);
            }
        }
        assert forall|i: int| 0 <= i < entries.len() && (#[trigger] entries[i]).0 == k implies filled(
            table::no_entries(),
            entries,
        )[k] == entries[i].1 by {
            if i < n {
                assert(front[i].0 == k);
                assert(entries[i].0 != entries[n].0);
            }
        }
    }
}

/// What a load gives back of a snapshot: the sequence number and exactly the
/// table that was saved, in whatever order it was gone through. Every key and
/// value has to fit its length field.
pub proof fn law_snapshot_roundtrip(
    db: Map<Seq<u8>, Seq<u8>>,
    lsn: u64,
    order: Seq<(Seq<u8>, Seq<u8>)>,
)
    requires
        table::lists(order, db),
        lengths_fit(order),
        order.len() <= u64::MAX,
    ensures
        header_ok(snapshot_bytes(lsn, order)),
        loadable(snapshot_bytes(lsn, order)),
        header_lsn(snapshot_bytes(lsn, order)) == lsn,
        snapshot_entries(snapshot_bytes(lsn, order)) == Some(order),
        filled(table::no_entries(), order) == db,
{
    let n = order.len() as u64;
    let s = snapshot_bytes(lsn, order);
    let rest = entries_bytes(order);
    le::law_le32_roundtrip(SNAPSHOT_MAGIC, le::le64(lsn) + le::le64(n) + rest);
    le::law_le64_roundtrip(lsn, le::le64(n) + rest);
    le::law_le64_roundtrip(n, rest);
    assert(s =~= le::le32(SNAPSHOT_MAGIC) + (le::le64(lsn) + le::le64(n) + rest));
    assert(s.skip(4) =~= le::le64(lsn) + (le::le64(n) + rest));
    assert(s.skip(12) =~= le::le64(n) + rest);
    assert(s.skip(20) =~= rest);
    lemma_entries_roundtrip(order);

    let t = filled(table::no_entries(), order);
    assert forall|k: Seq<u8>| t.contains_key(k) == db.contains_key(k) by {
        lemma_filled(order, k);
    }
    assert forall|k: Seq<u8>| db.contains_key(k) implies t[k] == db[k] by {
        lemma_filled(order, k);
        let i = choose|i: int| 0 <= i < order.len() && (#[trigger] order[i]).0 == k;
        assert(order[i].0 == k);
    }
    assert(t =~= db);
}

/// What a snapshot looks like, byte for byte: `SNAP`, eight bytes for the
/// sequence number, eight for the number of entries, and then every entry, in
/// order: four bytes for the key's length, the whole key, four for the value's
/// length, the whole value. Lengths are written modulo 2^32.
#[verifier::rlimit(60)]
pub proof fn law_snapshot_layout(lsn: u64, order: Seq<(Seq<u8>, Seq<u8>)>, i: int)
    requires
        0 <= i < order.len() <= u64::MAX,
    ensures
        ({
            let s = snapshot_bytes(lsn, order);
            let (k, v) = order[i];
            let e = entry_bytes(k, v);
            let at = 4 + k.len() as int;
            &&& s[0] == 0x53 && s[1] == 0x4e && s[2] == 0x41 && s[3] == 0x50
            &&& s.subrange(4, 12) == le::le64(lsn)
            &&& s.subrange(12, 20) == le::le64(order.len() as u64)
            &&& s.skip(20) == order.map_values(
                |p: (Seq<u8>, Seq<u8>)| entry_bytes(p.0, p.1),
            ).flatten()
            &&& e.len() == 8 + k.len() + v.len()
            &&& e[0] + 256 * e[1] + 65536 * e[2] + 16777216 * e[3] == k.len() % 0x1_0000_0000
            &&& e.subrange(4, at) == k
            &&& e[at] + 256 * e[at + 1] + 65536 * e[at + 2] + 16777216 * e[at + 3] == v.len()
                % 0x1_0000_0000
            &&& e.skip(at + 4) == v
        }),
{
    let s = snapshot_bytes(lsn, order);
    let (k, v) = order[i];
    let e = entry_bytes(k, v);
    let at = 4 + k.len() as int;
    let kn = le::le32(le::low32(k.len()));
    let vn = le::le32(le::low32(v.len()));
    le::law_le32_is_little_endian(SNAPSHOT_MAGIC, le::le32(SNAPSHOT_MAGIC));
    le::law_le32_is_little_endian(le::low32(k.len()), kn);
    le::law_le32_is_little_endian(le::low32(v.len()), vn);
    assert(s.subrange(4, 12) =~= le::le64(lsn));
    assert(s.subrange(12, 20) =~= le::le64(order.len() as u64));
    assert(s.skip(20) =~= entries_bytes(order));
    lemma_entries_flatten(order);
    assert(e.subrange(4, at) =~= k);
    assert(e =~= kn + k + (vn + v));
    assert(e[at] == vn[0] && e[at + 1] == vn[1] && e[at + 2] == vn[2] && e[at + 3] == vn[3]);
    assert(e.skip(at + 4) =~= v);
}

/// A run of entries is its entries, one behind the other.
proof fn lemma_entries_flatten(order: Seq<(Seq<u8>, Seq<u8>)>)
    ensures
        entries_bytes(order) == order.map_values(
            |p: (Seq<u8>, Seq<u8>)| entry_bytes(p.0, p.1),
        ).flatten(),
    decreases order.len(),
{
    let f = |p: (Seq<u8>, Seq<u8>)| entry_bytes(p.0, p.1);
    if order.len() == 0 {
        assert(order.map_values(f) =~= seq![]);
        assert(order.map_values(f).flatten() =~= seq![]);
    } else {
        let front = order.drop_last();
        lemma_entries_flatten(front);
        assert(order.map_values(f) =~= front.map_values(f).push(f(order.last())));
        front.map_values(f).lemma_flatten_push(f(order.last()));
    }
}

/// Loading puts every entry into the table, in order.
pub proof fn law_load_fills_in_order(
    db: Map<Seq<u8>, Seq<u8>>,
    entries: Seq<(Seq<u8>, Seq<u8>)>,
)
    ensures
        filled(db, entries) == entries.fold_left(
            db,
            |m: Map<Seq<u8>, Seq<u8>>, e: (Seq<u8>, Seq<u8>)| m.insert(e.0, e.1),
        ),
    decreases entries.len(),
{
    if entries.len() > 0 {
        law_load_fills_in_order(db, entries.drop_last());
    }
}

/// What is read out of a run of entries is what stands there, all of it: the
/// entries read are exactly the bytes in front, as many as were asked for, or
/// fewer only where less than a length field is left. Where nothing can be read,
/// a whole number of entries is followed by one that is cut short.
pub proof fn law_entries_are_read_as_they_stand(s: Seq<u8>, n: nat)
    ensures
        entries_of(s, n) matches Some(e) ==> {
            let len = entries_bytes(e).len() as int;
            &&& len <= s.len()
            &&& s.take(len) == entries_bytes(e)
            &&& e.len() <= n
            &&& e.len() == n || s.len() - len < 4
        },
        entries_of(s, n) is None ==> exists|e: Seq<(Seq<u8>, Seq<u8>)>|
            e.len() < n && #[trigger] cut_behind(s, e),
{
    if let Some(e) = entries_of(s, n) {
        lemma_read_entries(s, n, e);
    } else {
        lemma_unread_entries(s, n);
    }
}

/// The bytes start with these entries, and the one behind them is cut short.
pub open spec fn cut_behind(s: Seq<u8>, e: Seq<(Seq<u8>, Seq<u8>)>) -> bool {
    let len = entries_bytes(e).len() as int;
    &&& len + 4 <= s.len()
    &&& s.take(len) == entries_bytes(e)
    &&& !front_whole(s.skip(len))
}

/// The bytes of entries with one more in front.
#[verifier::rlimit(60)]
proof fn lemma_one_more_entry(s: Seq<u8>, e: Seq<(Seq<u8>, Seq<u8>)>)
    requires
        front_whole(s),
        entries_bytes(e).len() <= behind_front(s).len(),
        behind_front(s).take(entries_bytes(e).len() as int) == entries_bytes(e),
    ensures
        ({
            let all = seq![front_entry(s)] + e;
            let len = entries_bytes(all).len() as int;
            let len0 = entries_bytes(e).len() as int;
            &&& len <= s.len()
            &&& s.len() - len == behind_front(s).len() - len0
            &&& s.take(len) == entries_bytes(all)
            &&& s.skip(len) == behind_front(s).skip(len0)
        }),
{
    let rest = behind_front(s);
    let f = front_entry(s);
    let first = entry_bytes(f.0, f.1);
    let all = seq![f] + e;
    let len0 = entries_bytes(e).len() as int;
    lemma_front_bytes(s);
    lemma_entries_front(all);
    assert(all.skip(1) =~= e);
    assert(all[0] == f);
    let len = entries_bytes(all).len() as int;
    assert(len == first.len() + len0);
    assert(s.take(len) =~= first + rest.take(len0));
    assert(s.skip(len) =~= rest.skip(len0));
}

/// Entries that were read are what stands there.
proof fn lemma_read_entries(s: Seq<u8>, n: nat, e: Seq<(Seq<u8>, Seq<u8>)>)
    requires
        entries_of(s, n) == Some(e),
    ensures
        ({
            let len = entries_bytes(e).len() as int;
            &&& len <= s.len()
            &&& s.take(len) == entries_bytes(e)
            &&& e.len() <= n
            &&& e.len() == n || s.len() - len < 4
        }),
    decreases n,
{
    if n == 0 || s.len() < 4 {
        assert(entries_bytes(e) =~= seq![]);
        assert(s.take(0) =~= seq![]);
    } else {
        let rest = behind_front(s);
        let e0 = entries_of(rest, (n - 1) as nat).unwrap();
        lemma_read_entries(rest, (n - 1) as nat, e0);
        lemma_one_more_entry(s, e0);
    }
}

/// Where nothing is read, an entry is cut short.
proof fn lemma_unread_entries(s: Seq<u8>, n: nat)
    requires
        entries_of(s, n) is None,
    ensures
        exists|e: Seq<(Seq<u8>, Seq<u8>)>| e.len() < n && #[trigger] cut_behind(s, e),
    decreases n,
{
    if !front_whole(s) {
        let none: Seq<(Seq<u8>, Seq<u8>)> = seq![];
        assert(entries_bytes(none) =~= seq![]);
        assert(s.take(0) =~= seq![]);
        assert(s.skip(0) =~= s);
        assert(cut_behind(s, none));
    } else {
        let rest = behind_front(s);
        lemma_unread_entries(rest, (n - 1) as nat);
        let e = choose|e: Seq<(Seq<u8>, Seq<u8>)>| e.len() < n - 1 && #[trigger] cut_behind(rest, e);
        lemma_one_more_entry(s, e);
        assert(cut_behind(s, seq![front_entry(s)] + e));
    }
}

/// The entry at the front is the bytes that writing it would give.
#[verifier::rlimit(60)]
proof fn lemma_front_bytes(s: Seq<u8>)
    requires
        front_whole(s),
    ensures
        ({
            let first = entry_bytes(front_entry(s).0, front_entry(s).1);
            &&& first.len() + behind_front(s).len() == s.len()
            &&& s == first + behind_front(s)
        }),
{
    let k = front_klen(s);
    let v = front_vlen(s);
    let f = front_entry(s);
    le::lemma_le32_value_bound(s);
    le::lemma_le32_value_bound(s.skip(4 + k));
    le::law_le32_is_little_endian(0, s);
    le::law_le32_is_little_endian(0, s.skip(4 + k));
    assert(le::low32(f.0.len()) == k as u32);
    assert(le::low32(f.1.len()) == v as u32);
    assert(s.skip(4 + k).take(4) =~= s.subrange(4 + k, 8 + k));
    assert(s =~= s.take(4) + f.0 + s.subrange(4 + k, 8 + k) + f.1 + behind_front(s));
}

/// When an entry is all there: both length fields, and as many bytes behind each
/// as it says.
pub proof fn law_whole_entries(s: Seq<u8>)
    requires
        s.len() >= 4,
    ensures
        ({
            let k = s[0] + 256 * s[1] + 65536 * s[2] + 16777216 * s[3];
            front_whole(s) <==> 8 + k <= s.len() && 8 + k + s[4 + k] + 256 * s[5 + k] + 65536 * s[6
                + k] + 16777216 * s[7 + k] <= s.len()
        }),
{
    let k = front_klen(s);
    if 8 + k <= s.len() {
        let t = s.skip(4 + k);
        assert(t[0] == s[4 + k] && t[1] == s[5 + k] && t[2] == s[6 + k] && t[3] == s[7 + k]);
    }
}

/// What a header says: the first four bytes are `SNAP`, the next eight the
/// sequence number, the next eight the number of entries; anything shorter than
/// these twenty bytes is no snapshot.
pub proof fn law_header_reading(bytes: Seq<u8>)
    ensures
        header_ok(bytes) <==> bytes.len() >= 20 && bytes[0] == 0x53 && bytes[1] == 0x4e && bytes[2]
            == 0x41 && bytes[3] == 0x50,
        header_ok(bytes) ==> {
            &&& le::le64(header_lsn(bytes)) == bytes.subrange(4, 12)
            &&& le::le64(header_count(bytes) as u64) == bytes.subrange(12, 20)
            &&& header_count(bytes) <= u64::MAX
            &&& snapshot_entries(bytes) == entries_of(bytes.skip(20), header_count(bytes))
        },
        !header_ok(bytes) ==> loadable(bytes),
        header_ok(bytes) ==> (loadable(bytes) <==> snapshot_entries(bytes) is Some),
{
    if bytes.len() >= 20 {
        le::law_le32_is_little_endian(SNAPSHOT_MAGIC, bytes);
        le::law_le64_is_little_endian(0, bytes.skip(4));
        le::law_le64_is_little_endian(0, bytes.skip(12));
        le::lemma_le64_value_bound(bytes.skip(12));
        assert(bytes.skip(4).take(8) =~= bytes.subrange(4, 12));
        assert(bytes.skip(12).take(8) =~= bytes.subrange(12, 20));
    }
}

} // verus!
