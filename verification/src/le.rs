//! Little-endian integers as byte sequences.

use vstd::prelude::*;

verus! {

/// One more than the largest number that four bytes can hold.
pub const TWO_32: u64 = 0x1_0000_0000;

/// The low 32 bits of a length.
pub open spec fn low32(n: nat) -> u32 {
    (n % 0x1_0000_0000) as u32
}

/// The four bytes of `x`, least significant first.
#[verifier::opaque]
pub open spec fn le32(x: u32) -> Seq<u8> {
    seq![
        (x % 256) as u8,
        ((x / 256) % 256) as u8,
        ((x / 65536) % 256) as u8,
        ((x / 16777216) % 256) as u8,
    ]
}

/// The number that the first four bytes of `s` stand for.
pub open spec fn le32_value(s: Seq<u8>) -> nat {
    (s[0] + s[1] * 256 + s[2] * 65536 + s[3] * 16777216) as nat
}

/// The eight bytes of `x`, least significant first.
#[verifier::opaque]
pub open spec fn le64(x: u64) -> Seq<u8> {
    le32((x % 0x1_0000_0000) as u32) + le32((x / 0x1_0000_0000) as u32)
}

/// The number that the first eight bytes of `s` stand for.
pub open spec fn le64_value(s: Seq<u8>) -> nat {
    le32_value(s) + 0x1_0000_0000 * le32_value(s.skip(4))
}

/// Four bytes.
pub broadcast proof fn lemma_le32_len(x: u32)
    ensures
        #[trigger] le32(x).len() == 4,
{
    reveal(le32);
}

/// Eight bytes.
pub broadcast proof fn lemma_le64_len(x: u64)
    ensures
        #[trigger] le64(x).len() == 8,
{
    reveal(le32);
    reveal(le64);
}

/// The lengths of encoded integers.
pub broadcast group group_le_len {
    lemma_le32_len,
    lemma_le64_len,
}

/// Four bytes read back as the number they were written from.
pub proof fn law_le32_roundtrip(x: u32, tail: Seq<u8>)
    ensures
        le32(x).len() == 4,
        le32_value(le32(x)) == x,
        le32_value(le32(x) + tail) == x,
{
    reveal(le32);
    let s = le32(x) + tail;
    assert(s[0] == le32(x)[0] && s[1] == le32(x)[1] && s[2] == le32(x)[2] && s[3] == le32(x)[3]);
    assert(x == x % 256 + ((x / 256) % 256) * 256 + ((x / 65536) % 256) * 65536 + ((x / 16777216)
        % 256) * 16777216) by (bit_vector);
}

/// Four bytes always stand for a number that fits in 32 bits.
pub proof fn lemma_le32_value_bound(s: Seq<u8>)
    ensures
        le32_value(s) < 0x1_0000_0000,
{
}

/// Eight bytes always stand for a number that fits in 64 bits.
pub proof fn lemma_le64_value_bound(s: Seq<u8>)
    ensures
        le64_value(s) <= u64::MAX,
{
    lemma_le32_value_bound(s);
    lemma_le32_value_bound(s.skip(4));
}

/// Eight bytes read back as the number they were written from.
pub proof fn law_le64_roundtrip(x: u64, tail: Seq<u8>)
    ensures
        le64(x).len() == 8,
        le64_value(le64(x)) == x,
        le64_value(le64(x) + tail) == x,
{
    broadcast use lemma_le32_len;

    reveal(le64);
    let lo = (x % 0x1_0000_0000) as u32;
    let hi = (x / 0x1_0000_0000) as u32;
    assert(le64(x) == le32(lo) + le32(hi));
    law_le32_roundtrip(lo, le32(hi));
    law_le32_roundtrip(lo, le32(hi) + tail);
    law_le32_roundtrip(hi, seq![]);
    law_le32_roundtrip(hi, tail);
    assert((le64(x) + tail) =~= le32(lo) + (le32(hi) + tail));
    assert(le64(x).skip(4) =~= le32(hi));
    assert((le64(x) + tail).skip(4) =~= le32(hi) + tail);
}

/// The low 32 bits of a length.
pub fn to_low32(n: usize) -> (r: u32)
    ensures
        r == low32(n as nat),
{
    (n as u64 % TWO_32) as u32
}

/// Appends the four bytes of `x`.
pub fn push_le32(out: &mut Vec<u8>, x: u32)
    ensures
        final(out)@ == old(out)@ + le32(x),
{
    out.push((x % 256) as u8);
    out.push(((x / 256) % 256) as u8);
    out.push(((x / 65536) % 256) as u8);
    out.push(((x / 16777216) % 256) as u8);
    proof {
        reveal(le32);
    }
    assert(out@ =~= old(out)@ + le32(x));
}

/// Appends the eight bytes of `x`.
pub fn push_le64(out: &mut Vec<u8>, x: u64)
    ensures
        final(out)@ == old(out)@ + le64(x),
{
    push_le32(out, (x % TWO_32) as u32);
    push_le32(out, (x / TWO_32) as u32);
    proof {
        reveal(le64);
    }
    assert(out@ =~= old(out)@ + le64(x));
}

/// Appends a run of bytes.
pub fn push_bytes(out: &mut Vec<u8>, bytes: &[u8])
    ensures
        final(out)@ == old(out)@ + bytes@,
{
    out.extend_from_slice(bytes);
    assert(out@ =~= old(out)@ + bytes@);
}

/// Changing one of the eight bytes changes the number.
#[verifier::rlimit(60)]
pub proof fn lemma_le64_byte_matters(x: u64, i: int, b: u8, tail: Seq<u8>)
    requires
        0 <= i < 8,
        b != le64(x)[i],
    ensures
        le64_value(le64(x).update(i, b) + tail) != x,
{
    let s = le64(x);
    let t = s.update(i, b) + tail;
    law_le64_roundtrip(x, seq![]);
    lemma_le64_len(x);
    assert(s + seq![] =~= s);
    assert(forall|j: int| 0 <= j < 8 && j != i ==> t[j] == #[trigger] s[j]);
    assert(t[i] == b);
    assert(forall|j: int| 0 <= j < 4 ==> t.skip(4)[j] == t[j + 4]);
    assert(forall|j: int| 0 <= j < 4 ==> s.skip(4)[j] == s[j + 4]);
    assert(t.skip(4)[0] == t[4] && t.skip(4)[1] == t[5] && t.skip(4)[2] == t[6] && t.skip(4)[3]
        == t[7]);
    assert(s.skip(4)[0] == s[4] && s.skip(4)[1] == s[5] && s.skip(4)[2] == s[6] && s.skip(4)[3]
        == s[7]);
    assert(i == 0 || i == 1 || i == 2 || i == 3 || i == 4 || i == 5 || i == 6 || i == 7);
}

/// Four bytes, whichever they are, stand for the number that has them as its
/// digits to the base 256, least significant first; and every number has exactly
/// these four.
pub proof fn law_le32_is_little_endian(x: u32, s: Seq<u8>)
    requires
        s.len() >= 4,
    ensures
        le32(x).len() == 4,
        le32(x)[0] + 256 * le32(x)[1] + 65536 * le32(x)[2] + 16777216 * le32(x)[3] == x,
        le32_value(s) == s[0] + 256 * s[1] + 65536 * s[2] + 16777216 * s[3],
        le32(le32_value(s) as u32) == s.take(4),
{
    law_le32_roundtrip(x, seq![]);
    let v = le32_value(s) as u32;
    law_le32_roundtrip(v, seq![]);
    assert(le32(v) =~= s.take(4));
}

/// The same of eight bytes.
#[verifier::rlimit(60)]
pub proof fn law_le64_is_little_endian(x: u64, s: Seq<u8>)
    requires
        s.len() >= 8,
    ensures
        le64(x).len() == 8,
        le64(x)[0] + 256 * le64(x)[1] + 65536 * le64(x)[2] + 16777216 * le64(x)[3] + 4294967296
            * (le64(x)[4] + 256 * le64(x)[5] + 65536 * le64(x)[6] + 16777216 * le64(x)[7]) == x,
        le64_value(s) == s[0] + 256 * s[1] + 65536 * s[2] + 16777216 * s[3] + 4294967296 * (s[4]
            + 256 * s[5] + 65536 * s[6] + 16777216 * s[7]),
        le64(le64_value(s) as u64) == s.take(8),
{
    law_le64_roundtrip(x, seq![]);
    let w = le64(x);
    assert(w.skip(4)[0] == w[4] && w.skip(4)[1] == w[5] && w.skip(4)[2] == w[6] && w.skip(4)[3]
        == w[7]);
    assert(s.skip(4)[0] == s[4] && s.skip(4)[1] == s[5] && s.skip(4)[2] == s[6] && s.skip(4)[3]
        == s[7]);
    lemma_le64_value_bound(s);
    lemma_le32_value_bound(s);
    lemma_le32_value_bound(s.skip(4));
    let v = le64_value(s) as u64;
    reveal(le64);
    law_le32_is_little_endian(0, s);
    law_le32_is_little_endian(0, s.skip(4));
    assert((v % 0x1_0000_0000) as u32 == le32_value(s) as u32);
    assert((v / 0x1_0000_0000) as u32 == le32_value(s.skip(4)) as u32);
    assert(le64(v) =~= s.take(8));
}

/// Of a length that does not fit four bytes, the low 32 bits are kept.
pub proof fn law_low32_is_the_remainder(n: nat, k: nat)
    ensures
        low32(n) as nat == n % 0x1_0000_0000,
        n < 0x1_0000_0000 ==> low32(n) == n,
        low32(n + 0x1_0000_0000 * k) == low32(n),
{
}

} // verus!
