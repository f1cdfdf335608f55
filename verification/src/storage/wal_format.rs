//! Log records.
//!
//! A record is `[len:u32] [lsn:u64][op][klen][key][val] [checksum:u64]`: the
//! length and the checksum both cover the part in the middle.

use vstd::prelude::*;
use vstd::slice::slice_subrange;

use crate::le;
use crate::wire::{rd_u32, rd_u64};

verus! {

broadcast use crate::le::group_le_len;

/// Bytes of the length field.
pub const LEN_SIZE: usize = 4;

/// Bytes of the sequence number.
pub const LSN_SIZE: usize = 8;

/// Bytes of the checksum field.
pub const CHECKSUM_SIZE: usize = 8;

/// Start value of the checksum.
pub const FNV_OFFSET: u64 = 0xcbf2_9ce4_8422_2325;

/// Factor of the checksum.
pub const FNV_PRIME: u64 = 0x0000_0100_0000_01b3;

/// One step of the checksum: mix a byte in, multiply modulo 2^64.
pub open spec fn fnv1a_step(h: u64, x: u8) -> u64 {
    (((h ^ (x as u64)) * FNV_PRIME) % 0x1_0000_0000_0000_0000) as u64
}

/// The 64-bit FNV-1a checksum.
pub open spec fn fnv1a(b: Seq<u8>) -> u64
    decreases b.len(),
{
    if b.len() == 0 {
        FNV_OFFSET
    } else {
        fnv1a_step(fnv1a(b.drop_last()), b.last())
    }
}

/// The 64-bit FNV-1a checksum.
pub fn checksum(b: &[u8]) -> (r: u64)
    ensures
        r == fnv1a(b@),
{
    let mut h: u64 = FNV_OFFSET;
    let mut i: usize = 0;
    assert(b@.take(0) =~= seq![]);
    while i < b.len()
        invariant
            i <= b@.len(),
            h == fnv1a(b@.take(i as int)),
        decreases b@.len() - i,
    {
        let x = b[i];
        assert(b@.take(i + 1).drop_last() =~= b@.take(i as int));
        assert(b@.take(i + 1).last() == x);
        h = (h ^ (x as u64)).wrapping_mul(FNV_PRIME);
        i = i + 1;
    }
    assert(b@.take(b@.len() as int) =~= b@);
    h
}

/// The part of a record that the length and the checksum cover.
pub open spec fn record_body(lsn: u64, wire: Seq<u8>) -> Seq<u8> {
    le::le64(lsn) + wire
}

/// A whole record.
pub open spec fn record_bytes(lsn: u64, wire: Seq<u8>) -> Seq<u8> {
    le::le32(le::low32(LSN_SIZE as nat + wire.len())) + record_body(lsn, wire) + le::le64(
        fnv1a(record_body(lsn, wire)),
    )
}

/// Appends one record for a request body.
pub fn encode_record(out: &mut Vec<u8>, lsn: u64, wire_bytes_blob: &[u8])
    ensures
        final(out)@ == old(out)@ + record_bytes(lsn, wire_bytes_blob@),
{
    let body_len: u32 = le::to_low32(wire_bytes_blob.len()).wrapping_add(8);
    assert(body_len == le::low32(LSN_SIZE as nat + wire_bytes_blob@.len()));

    le::push_le32(out, body_len);
    let body_start = out.len();

    le::push_le64(out, lsn);
    le::push_bytes(out, wire_bytes_blob);

    let body = slice_subrange(out.as_slice(), body_start, out.len());
    assert(body@ =~= record_body(lsn, wire_bytes_blob@));
    let cs = checksum(body);
    le::push_le64(out, cs);
    assert(out@ =~= old(out)@ + record_bytes(lsn, wire_bytes_blob@));
}

/// A record that was read.
pub struct Record<'a> {
    pub lsn: u64,
    /// The request body: `[op][klen][key][val]`.
    pub wire_body: &'a [u8],
    /// Bytes that the record took.
    pub consumed: usize,
}

/// A record with its request body as a sequence.
pub struct RecordView {
    pub lsn: u64,
    pub wire: Seq<u8>,
    pub consumed: nat,
}

impl<'a> View for Record<'a> {
    type V = RecordView;

    open spec fn view(&self) -> RecordView {
        RecordView { lsn: self.lsn, wire: self.wire_body@, consumed: self.consumed as nat }
    }
}

/// The part of the record at the start of `bytes` that its length covers.
pub open spec fn covered(bytes: Seq<u8>) -> Seq<u8> {
    bytes.subrange(LEN_SIZE as int, LEN_SIZE + le::le32_value(bytes))
}

/// `bytes` starts with an intact record: all of it is there, it is long enough
/// for a sequence number, and its checksum is right.
pub open spec fn intact(bytes: Seq<u8>) -> bool {
    &&& bytes.len() >= LEN_SIZE
    &&& LEN_SIZE + le::le32_value(bytes) + CHECKSUM_SIZE <= bytes.len()
    &&& le::le32_value(bytes) >= LSN_SIZE
    &&& le::le64_value(bytes.skip(LEN_SIZE + le::le32_value(bytes))) == fnv1a(covered(bytes))
}

/// The record at the start of `bytes`, where it is intact.
pub open spec fn record_at(bytes: Seq<u8>) -> Option<RecordView> {
    if intact(bytes) {
        Some(
            RecordView {
                lsn: le::le64_value(covered(bytes)) as u64,
                wire: covered(bytes).skip(LSN_SIZE as int),
                consumed: LEN_SIZE as nat + le::le32_value(bytes) + CHECKSUM_SIZE as nat,
            },
        )
    } else {
        None
    }
}

/// Reads the record at the start of `bytes`. `None` means a torn or corrupted
/// tail: stop replaying.
pub fn decode_record(bytes: &[u8]) -> (r: Option<Record<'_>>)
    ensures
        match r {
            Some(rec) => record_at(bytes@) == Some(rec@),
            None => record_at(bytes@) is None,
        },
{
    let n = bytes.len();
    if n < LEN_SIZE {
        return None;
    }
    let body_len = rd_u32(bytes);

    // Length field and checksum must both be there.
    if n < LEN_SIZE + CHECKSUM_SIZE || body_len > n - LEN_SIZE - CHECKSUM_SIZE {
        return None;
    }
    if body_len < LSN_SIZE {
        return None;
    }
    let body_end = LEN_SIZE + body_len;
    let body = slice_subrange(bytes, LEN_SIZE, body_end);
    let tail = slice_subrange(bytes, body_end, n);
    assert(body@ =~= covered(bytes@));
    assert(tail@ =~= bytes@.skip(LEN_SIZE + le::le32_value(bytes@)));

    if checksum(body) != rd_u64(tail) {
        return None;
    }
    let wire_body = slice_subrange(body, LSN_SIZE, body_len);
    assert(wire_body@ =~= covered(bytes@).skip(LSN_SIZE as int));
    Some(Record { lsn: rd_u64(body), wire_body, consumed: body_end + CHECKSUM_SIZE })
}

/// What a read gives back of a write: a record that was written reads back with
/// its sequence number and its request body, whatever follows it, and takes
/// exactly the bytes that were written. The body has to fit its length field.
#[verifier::rlimit(60)]
pub proof fn law_record_roundtrip(lsn: u64, wire: Seq<u8>, tail: Seq<u8>)
    requires
        LSN_SIZE + wire.len() < 0x1_0000_0000,
    ensures
        record_at(record_bytes(lsn, wire) + tail) == Some(
            RecordView { lsn, wire, consumed: record_bytes(lsn, wire).len() },
        ),
        record_bytes(lsn, wire).len() == LEN_SIZE + LSN_SIZE + wire.len() + CHECKSUM_SIZE,
{
    let n = le::low32(LSN_SIZE as nat + wire.len());
    let body = record_body(lsn, wire);
    let sum = fnv1a(body);
    let bytes = record_bytes(lsn, wire) + tail;
    le::law_le32_roundtrip(n, body + le::le64(sum) + tail);
    le::law_le64_roundtrip(lsn, wire);
    le::law_le64_roundtrip(sum, tail);
    assert(bytes =~= le::le32(n) + (body + le::le64(sum) + tail));
    assert(le::le32_value(bytes) == body.len());
    assert(covered(bytes) =~= body);
    assert(bytes.skip(LEN_SIZE + body.len()) =~= le::le64(sum) + tail);
    assert(body.skip(LSN_SIZE as int) =~= wire);
}

/// A record that was cut short anywhere does not read back at all.
pub proof fn law_torn_record(lsn: u64, wire: Seq<u8>, cut: int)
    requires
        LSN_SIZE + wire.len() < 0x1_0000_0000,
        0 <= cut < record_bytes(lsn, wire).len(),
    ensures
        record_at(record_bytes(lsn, wire).take(cut)) is None,
{
    let n = le::low32(LSN_SIZE as nat + wire.len());
    let whole = record_bytes(lsn, wire);
    let part = whole.take(cut);
    if cut >= LEN_SIZE {
        law_record_roundtrip(lsn, wire, seq![]);
        le::law_le32_roundtrip(n, seq![]);
        assert(forall|i: int| 0 <= i < 4 ==> part[i] == le::le32(n)[i]);
    }
}

/// One step of the checksum keeps different states apart: the factor is odd, so
/// that multiplying by it can be undone modulo 2^64.
proof fn lemma_step_injective(g: u64, h: u64, x: u8, y: u8)
    requires
        fnv1a_step(g, x) == fnv1a_step(h, y),
    ensures
        g ^ (x as u64) == h ^ (y as u64),
{
    let a = (g ^ (x as u64)) as int;
    let b = (h ^ (y as u64)) as int;
    let m: int = 0x1_0000_0000_0000_0000;
    let d = a - b;
    let q = (a * FNV_PRIME) / m - (b * FNV_PRIME) / m;
    assert(d * FNV_PRIME == q * m);
    // 0xce96_5057_aff6_957b * FNV_PRIME == 887_285_111_055 * 2^64 + 1
    let t = q * 0xce96_5057_aff6_957b - d * 887_285_111_055;
    assert(d == t * m);
    assert(t == 0);
}

/// Strings that differ in one byte differ in their checksums.
proof fn lemma_one_byte_changes_checksum(a: Seq<u8>, i: int, x: u8)
    requires
        0 <= i < a.len(),
        x != a[i],
    ensures
        fnv1a(a.update(i, x)) != fnv1a(a),
    decreases a.len(),
{
    let b = a.update(i, x);
    let n = a.len() - 1;
    let g = fnv1a(a.drop_last());
    let h = fnv1a(b.drop_last());
    let u = a.last();
    let v = b.last();
    if fnv1a_step(g, u) == fnv1a_step(h, v) {
        lemma_step_injective(g, h, u, v);
        if i == n {
            assert(b.drop_last() =~= a.drop_last());
            assert(g ^ (u as u64) == g ^ (v as u64) ==> u == v) by (bit_vector);
        } else {
            assert(b.drop_last() =~= a.drop_last().update(i, x));
            lemma_one_byte_changes_checksum(a.drop_last(), i, x);
            assert(g ^ (u as u64) == h ^ (u as u64) ==> g == h) by (bit_vector);
        }
    }
}

/// A record in which one byte behind the length was changed, in the sequence
/// number, in the request body or in the checksum, does not read back at all.
#[verifier::rlimit(60)]
pub proof fn law_corrupted_record(lsn: u64, wire: Seq<u8>, tail: Seq<u8>, i: int, x: u8)
    requires
        LSN_SIZE + wire.len() < 0x1_0000_0000,
        LEN_SIZE <= i < record_bytes(lsn, wire).len(),
        x != record_bytes(lsn, wire)[i],
    ensures
        record_at(record_bytes(lsn, wire).update(i, x) + tail) is None,
{
    let n = le::low32(LSN_SIZE as nat + wire.len());
    let body = record_body(lsn, wire);
    let sum = fnv1a(body);
    let good = record_bytes(lsn, wire);
    let bytes = good.update(i, x) + tail;
    let end = LEN_SIZE + body.len();
    law_record_roundtrip(lsn, wire, tail);
    le::law_le32_roundtrip(n, seq![]);
    le::law_le64_roundtrip(sum, tail);
    assert(good =~= le::le32(n) + (body + le::le64(sum)));
    assert(forall|j: int| 0 <= j < 4 ==> bytes[j] == le::le32(n)[j]);
    assert(le::le32_value(bytes) == body.len());
    if i < end {
        assert(covered(bytes) =~= body.update(i - LEN_SIZE, x));
        assert(body[i - LEN_SIZE] == good[i]);
        lemma_one_byte_changes_checksum(body, i - LEN_SIZE, x);
        assert(bytes.skip(end as int) =~= le::le64(sum) + tail);
    } else {
        let field = le::le64(sum);
        assert(covered(bytes) =~= body);
        assert(field[i - end] == good[i]);
        assert(bytes.skip(end as int) =~= field.update(i - end, x) + tail);
        le::lemma_le64_byte_matters(sum, i - end, x, tail);
    }
}

/// The checksum is 64-bit FNV-1a: it starts from a fixed number, and every byte
/// is mixed in by exclusive or and a multiplication modulo 2^64.
pub proof fn law_checksum_takes_every_byte(b: Seq<u8>, x: u8)
    ensures
        fnv1a(seq![]) == 0xcbf2_9ce4_8422_2325u64,
        fnv1a(b.push(x)) as int == ((fnv1a(b) ^ (x as u64)) * 0x0000_0100_0000_01b3)
            % 0x1_0000_0000_0000_0000,
        fnv1a(b) == b.fold_left(
            0xcbf2_9ce4_8422_2325u64,
            |h: u64, y: u8|
                (((h ^ (y as u64)) * 0x0000_0100_0000_01b3) % 0x1_0000_0000_0000_0000) as u64,
        ),
    decreases b.len(),
{
    assert(b.push(x).drop_last() =~= b);
    if b.len() > 0 {
        law_checksum_takes_every_byte(b.drop_last(), x);
    }
}

/// What a record looks like, byte for byte: four bytes for the length of the
/// sequence number and the body, modulo 2^32, eight for the sequence number, the
/// whole body, and eight for the checksum of what lies between.
#[verifier::rlimit(60)]
pub proof fn law_record_layout(lsn: u64, wire: Seq<u8>)
    ensures
        ({
            let r = record_bytes(lsn, wire);
            let n = wire.len() as int;
            &&& r.len() == 20 + n
            &&& r[0] + 256 * r[1] + 65536 * r[2] + 16777216 * r[3] == (8 + n) % 0x1_0000_0000
            &&& r.subrange(4, 12) == le::le64(lsn)
            &&& r.subrange(12, 12 + n) == wire
            &&& r.skip(12 + n) == le::le64(fnv1a(r.subrange(4, 12 + n)))
        }),
{
    let r = record_bytes(lsn, wire);
    let n = wire.len() as int;
    let len = le::low32(8 + wire.len());
    let body = record_body(lsn, wire);
    le::law_le32_is_little_endian(len, le::le32(len));
    assert(r =~= le::le32(len) + (body + le::le64(fnv1a(body))));
    assert(r.subrange(4, 12) =~= le::le64(lsn));
    assert(r.subrange(12, 12 + n) =~= wire);
    assert(r.subrange(4, 12 + n) =~= body);
    assert(r.skip(12 + n) =~= le::le64(fnv1a(body)));
}

/// Nothing but a record is read as a record: where one is read, the bytes it
/// took are exactly those that writing it would give, and no byte beyond them
/// has a say.
#[verifier::rlimit(60)]
pub proof fn law_only_records_are_read(bytes: Seq<u8>)
    ensures
        record_at(bytes) matches Some(rec) ==> {
            &&& rec.consumed <= bytes.len()
            &&& bytes.take(rec.consumed as int) == record_bytes(rec.lsn, rec.wire)
            &&& LSN_SIZE + rec.wire.len() < 0x1_0000_0000
            &&& rec.consumed == 20 + rec.wire.len()
        },
        record_at(bytes) is None ==> forall|lsn: u64, wire: Seq<u8>, tail: Seq<u8>|
            8 + wire.len() < 0x1_0000_0000 ==> bytes != #[trigger] (record_bytes(lsn, wire) + tail),
{
    if let Some(rec) = record_at(bytes) {
        let n = le::le32_value(bytes);
        let body = covered(bytes);
        let end = bytes.skip(4 + n as int);
        le::lemma_le32_value_bound(bytes);
        le::lemma_le64_value_bound(body);
        le::lemma_le64_value_bound(end);
        le::law_le32_is_little_endian(0, bytes);
        le::law_le64_is_little_endian(0, body);
        le::law_le64_is_little_endian(0, end);
        assert(le::low32(8 + rec.wire.len()) == n as u32);
        assert(body =~= body.take(8) + body.skip(8));
        assert(record_body(rec.lsn, rec.wire) == body);
        assert(bytes.take(rec.consumed as int) =~= bytes.take(4) + body + end.take(8));
    } else {
        assert forall|lsn: u64, wire: Seq<u8>, tail: Seq<u8>|
            8 + wire.len() < 0x1_0000_0000 implies bytes != #[trigger] (record_bytes(lsn, wire)
            + tail) by {
            law_record_roundtrip(lsn, wire, tail);
        }
    }
}

/// A record's view is the record.
pub proof fn law_record_view(r: Record<'_>)
    ensures
        r@.lsn == r.lsn,
        r@.wire == r.wire_body@,
        r@.consumed == r.consumed,
{
}

} // verus!
