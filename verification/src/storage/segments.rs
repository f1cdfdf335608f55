//! Names of log segments.
//!
//! A segment's file is named `wal.` and the sequence number it starts from, in
//! twenty decimal digits.

use vstd::prelude::*;

verus! {

/// What every segment's name starts with.
pub const SEG_PREFIX: &'static str = "wal.";

/// Decimal digits in a segment's name.
pub const SEG_DIGITS: usize = 20;

/// The decimal digit for a number below ten.
pub open spec fn digit_char(d: nat) -> char {
    ('0' as u32 + d) as char
}

/// The character is a decimal digit.
pub open spec fn is_digit(c: char) -> bool {
    '0' <= c <= '9'
}

/// The number that a decimal digit stands for.
pub open spec fn digit_value(c: char) -> nat {
    (c as u32 - '0' as u32) as nat
}

/// The last `width` decimal digits of `n`.
pub open spec fn padded(n: nat, width: nat) -> Seq<char>
    decreases width,
{
    if width == 0 {
        seq![]
    } else {
        padded(n / 10, (width - 1) as nat).push(digit_char(n % 10))
    }
}

/// The number that a run of decimal digits stands for.
pub open spec fn decimal(s: Seq<char>) -> nat
    decreases s.len(),
{
    if s.len() == 0 {
        0
    } else {
        10 * decimal(s.drop_last()) + digit_value(s.last())
    }
}

/// Every character is a decimal digit.
pub open spec fn all_digits(s: Seq<char>) -> bool {
    forall|i: int| 0 <= i < s.len() ==> is_digit(#[trigger] s[i])
}

/// The digits of an unsigned number: a leading plus sign does not count.
pub open spec fn unsigned_digits(s: Seq<char>) -> Seq<char> {
    if s.len() > 0 && s[0] == '+' {
        s.skip(1)
    } else {
        s
    }
}

/// The 64-bit number that a text stands for: at least one digit, nothing but
/// digits, perhaps behind a plus sign, and not too large.
pub open spec fn parsed_u64(s: Seq<char>) -> Option<u64> {
    let d = unsigned_digits(s);
    if d.len() > 0 && all_digits(d) && decimal(d) <= u64::MAX {
        Some(decimal(d) as u64)
    } else {
        None
    }
}

/// A segment's name.
pub open spec fn segment_text(start_lsn: u64) -> Seq<char> {
    SEG_PREFIX@ + padded(start_lsn as nat, SEG_DIGITS as nat)
}

/// The sequence number in a segment's name; `None` for any other name.
pub open spec fn segment_start(name: Seq<char>) -> Option<u64> {
    if name.len() >= 4 && name.take(4) == SEG_PREFIX@ {
        parsed_u64(name.skip(4))
    } else {
        None
    }
}

/// A path separator goes between a directory and a name, unless the directory
/// is empty or ends with one.
pub open spec fn joined(dir: Seq<char>, name: Seq<char>) -> Seq<char> {
    if dir.len() == 0 || dir.last() == '/' {
        dir + name
    } else {
        dir + seq!['/'] + name
    }
}

/// The text of one decimal digit.
fn digit_str(d: u64) -> (r: &'static str)
    requires
        d < 10,
    ensures
        r@ == seq![digit_char(d as nat)],
{
    proof {
        reveal_strlit("0");
        reveal_strlit("1");
        reveal_strlit("2");
        reveal_strlit("3");
        reveal_strlit("4");
        reveal_strlit("5");
        reveal_strlit("6");
        reveal_strlit("7");
        reveal_strlit("8");
        reveal_strlit("9");
    }
    let r = match d {
        0 => "0",
        1 => "1",
        2 => "2",
        3 => "3",
        4 => "4",
        5 => "5",
        6 => "6",
        7 => "7",
        8 => "8",
        _ => "9",
    };
    assert(r@ =~= seq![digit_char(d as nat)]);
    r
}

/// Appends the last `width` decimal digits of `n`.
fn append_padded(s: &mut String, n: u64, width: usize)
    ensures
        final(s)@ == old(s)@ + padded(n as nat, width as nat),
    decreases width,
{
    if width > 0 {
        append_padded(s, n / 10, width - 1);
        s.append(digit_str(n % 10));
    }
    assert(s@ =~= old(s)@ + padded(n as nat, width as nat));
}

/// The name of the segment that starts from a sequence number.
pub fn segment_name(start_lsn: u64) -> (r: String)
    ensures
        r@ == segment_text(start_lsn),
{
    let mut s = String::from_str(SEG_PREFIX);
    append_padded(&mut s, start_lsn, SEG_DIGITS);
    s
}

/// The path of the segment that starts from a sequence number.
pub fn segment_path(dir: &str, start_lsn: u64) -> (r: String)
    ensures
        r@ == joined(dir@, segment_text(start_lsn)),
{
    let n = dir.unicode_len();
    let mut s = String::from_str(dir);
    if n > 0 && dir.get_char(n - 1) != '/' {
        proof {
            reveal_strlit("/");
            assert("/"@ =~= seq!['/']);
        }
        s.append("/");
    }
    let name = segment_name(start_lsn);
    s.append(name.as_str());
    s
}

/// A run of digits stands for no less than any run that it starts with.
proof fn lemma_decimal_prefix(s: Seq<char>, i: int)
    requires
        0 <= i <= s.len(),
    ensures
        decimal(s.take(i)) <= decimal(s),
    decreases s.len() - i,
{
    if i == s.len() {
        assert(s.take(i) =~= s);
    } else {
        lemma_decimal_prefix(s, i + 1);
        assert(s.take(i + 1).drop_last() =~= s.take(i));
    }
}

/// Reads an unsigned number from the characters from `from` on.
fn parse_u64_from(s: &str, from: usize) -> (r: Option<u64>)
    requires
        from <= s@.len(),
    ensures
        r == parsed_u64(s@.skip(from as int)),
{
    let n = s.unicode_len();
    let ghost text = s@.skip(from as int);
    let ghost d = unsigned_digits(text);
    let mut i: usize = from;
    if i < n && s.get_char(i) == '+' {
        i = i + 1;
    }
    let ghost first = i as int;
    assert(d =~= s@.skip(first));
    if i == n {
        return None;
    }
    let mut v: u64 = 0;
    assert(d.take(0) =~= seq![]);
    while i < n
        invariant
            n == s@.len(),
            0 <= first <= i <= n,
            first < n,
            d == s@.skip(first),
            d == unsigned_digits(text),
            text == s@.skip(from as int),
            v == decimal(d.take(i - first)),
            forall|j: int| 0 <= j < i - first ==> is_digit(#[trigger] d[j]),
        decreases n - i,
    {
        let c = s.get_char(i);
        assert(d[i - first] == c);
        if !('0' <= c && c <= '9') {
            return None;
        }
        let digit: u64 = c as u64 - '0' as u64;
        proof {
            assert(d.take(i - first + 1).drop_last() =~= d.take(i - first));
            assert(d.take(i - first + 1).last() == c);
            lemma_decimal_prefix(d, i - first + 1);
        }
        if v > (u64::MAX - digit) / 10 {
            return None;
        }
        v = v * 10 + digit;
        i = i + 1;
    }
    assert(d.take(n - first) =~= d);
    Some(v)
}

/// The sequence number in a segment's name; `None` for any other name.
pub fn parse_segment_name(name: &str) -> (r: Option<u64>)
    ensures
        r == segment_start(name@),
{
    proof {
        reveal_strlit("wal.");
    }
    let n = name.unicode_len();
    if n < 4 {
        return None;
    }
    let is_segment = name.get_char(0) == 'w' && name.get_char(1) == 'a' && name.get_char(2) == 'l'
        && name.get_char(3) == '.';
    proof {
        if is_segment {
            assert(name@.take(4) =~= SEG_PREFIX@);
        } else if name@.take(4) == SEG_PREFIX@ {
            assert(name@[0] == SEG_PREFIX@[0] && name@[1] == SEG_PREFIX@[1] && name@[2]
                == SEG_PREFIX@[2] && name@[3] == SEG_PREFIX@[3]) by {
                assert(forall|i: int| 0 <= i < 4 ==> name@.take(4)[i] == #[trigger] name@[i]);
            }
        }
    }
    if is_segment {
        parse_u64_from(name, 4)
    } else {
        None
    }
}

/// Comes before: smaller start, or the same start and listed earlier.
pub open spec fn listed_before(a: (u64, usize), b: (u64, usize)) -> bool {
    a.0 < b.0 || (a.0 == b.0 && a.1 < b.1)
}

/// `r` holds the segments among the first `n` names, each as its start and its
/// place among the names, and nothing else.
pub open spec fn segments_of(r: Seq<(u64, usize)>, names: Seq<String>, n: int) -> bool {
    &&& forall|k: int|
        0 <= k < r.len() ==> (#[trigger] r[k]).1 < n && segment_start(names[r[k].1 as int]@)
            == Some(r[k].0)
    &&& forall|i: int|
        0 <= i < n && segment_start((#[trigger] names[i])@) is Some ==> exists|k: int|
            0 <= k < r.len() && (#[trigger] r[k]).1 == i
}

/// Ordered by start; names with the same start keep their order.
pub open spec fn ordered(r: Seq<(u64, usize)>) -> bool {
    forall|a: int, b: int| 0 <= a < b < r.len() ==> listed_before(#[trigger] r[a], #[trigger] r[b])
}

/// The segments among the names in a directory, by the sequence number they
/// start from: each as that number and the place of its name.
pub fn list_segments(names: &Vec<String>) -> (r: Vec<(u64, usize)>)
    ensures
        ordered(r@),
        segments_of(r@, names@, names@.len() as int),
        forall|k: int|
            0 <= k < r@.len() ==> (#[trigger] r@[k]).1 < names@.len() && segment_start(
                names@[r@[k].1 as int]@,
            ) == Some(r@[k].0),
        forall|i: int|
            0 <= i < names@.len() && segment_start((#[trigger] names@[i])@) is Some ==> exists|
                k: int,
            |
                0 <= k < r@.len() && (#[trigger] r@[k]).1 == i,
        forall|a: int, b: int|
            0 <= a < b < r@.len() ==> (#[trigger] r@[a]).0 < (#[trigger] r@[b]).0 || (r@[a].0
                == r@[b].0 && r@[a].1 < r@[b].1),
{
    let mut v: Vec<(u64, usize)> = Vec::new();
    let mut i: usize = 0;
    while i < names.len()
        invariant
            i <= names@.len(),
            ordered(v@),
            segments_of(v@, names@, i as int),
        decreases names@.len() - i,
    {
        let ghost before = v@;
        match parse_segment_name(names[i].as_str()) {
            Some(start) => {
                let mut p: usize = v.len();
                while p > 0 && v[p - 1].0 > start
                    invariant
                        p <= v@.len(),
                        v@ == before,
                        forall|k: int| p <= k < v@.len() ==> (#[trigger] v@[k]).0 > start,
                    decreases p,
                {
                    p = p - 1;
                }
                v.insert(p, (start, i));
                proof {
                    assert(v@ =~= before.insert(p as int, (start, i)));
                    lemma_insert_segment(before, p as int, start, i, names@);
                }
            },
            None => {},
        }
        i = i + 1;
    }
    v
}

/// Putting the next name's segment behind every segment that does not start
/// later keeps the list ordered and complete.
proof fn lemma_insert_segment(
    r: Seq<(u64, usize)>,
    p: int,
    start: u64,
    i: usize,
    names: Seq<String>,
)
    requires
        ordered(r),
        segments_of(r, names, i as int),
        0 <= p <= r.len(),
        i < names.len(),
        segment_start(names[i as int]@) == Some(start),
        forall|k: int| p <= k < r.len() ==> (#[trigger] r[k]).0 > start,
        p > 0 ==> r[p - 1].0 <= start,
    ensures
        ordered(r.insert(p, (start, i))),
        segments_of(r.insert(p, (start, i)), names, i + 1),
{
    let t = r.insert(p, (start, i));
    assert forall|k: int| 0 <= k < p implies (#[trigger] r[k]).0 <= start by {
        if k < p - 1 {
            assert(listed_before(r[k], r[p - 1]));
        }
    }
    assert forall|a: int, b: int| 0 <= a < b < t.len() implies listed_before(
        #[trigger] t[a],
        #[trigger] t[b],
    ) by {
        let a0 = if a < p { a } else { a - 1 };
        let b0 = if b < p { b } else { b - 1 };
        if a != p && b != p {
            assert(t[a] == r[a0] && t[b] == r[b0]);
        } else if a == p {
            assert(t[b] == r[b0]);
        } else {
            assert(t[a] == r[a0]);
        }
    }
    assert forall|k: int| 0 <= k < t.len() implies (#[trigger] t[k]).1 < i + 1 && segment_start(
        names[t[k].1 as int]@,
    ) == Some(t[k].0) by {
        if k != p {
            let k0 = if k < p { k } else { k - 1 };
            assert(t[k] == r[k0]);
        }
    }
    assert forall|j: int| 0 <= j < i + 1 && segment_start((#[trigger] names[j])@) is Some implies exists|
        k: int,
    | 0 <= k < t.len() && (#[trigger] t[k]).1 == j by {
        if j == i {
            assert(t[p].1 == j);
        } else {
            let k0 = choose|k: int| 0 <= k < r.len() && (#[trigger] r[k]).1 == j;
            let k = if k0 < p { k0 } else { k0 + 1 };
            assert(t[k] == r[k0]);
        }
    }
}

/// Ten to the power of `w`.
spec fn ten_to(w: nat) -> nat
    decreases w,
{
    if w == 0 {
        1
    } else {
        10 * ten_to((w - 1) as nat)
    }
}

/// Digits that were written read back as the number, where there are enough.
proof fn lemma_padded_decimal(n: nat, w: nat)
    requires
        n < ten_to(w),
    ensures
        padded(n, w).len() == w,
        all_digits(padded(n, w)),
        decimal(padded(n, w)) == n,
    decreases w,
{
    if w > 0 {
        let front = padded(n / 10, (w - 1) as nat);
        lemma_padded_decimal(n / 10, (w - 1) as nat);
        assert(padded(n, w).drop_last() =~= front);
        assert forall|i: int| 0 <= i < w implies is_digit(#[trigger] padded(n, w)[i]) by {
            if i < w - 1 {
                assert(padded(n, w)[i] == front[i]);
            }
        }
    }
}

/// The name of a segment gives back the sequence number it was made from.
pub proof fn law_segment_name_roundtrip(start_lsn: u64)
    ensures
        segment_start(segment_text(start_lsn)) == Some(start_lsn),
{
    reveal_strlit("wal.");
    let name = segment_text(start_lsn);
    let digits = padded(start_lsn as nat, SEG_DIGITS as nat);
    assert(ten_to(20) == 100_000_000_000_000_000_000) by {
        reveal_with_fuel(ten_to, 21);
    }
    lemma_padded_decimal(start_lsn as nat, 20);
    assert(name.take(4) =~= SEG_PREFIX@);
    assert(name.skip(4) =~= digits);
    assert(is_digit(digits[0]));
}

/// What a segment's name looks like: `wal.` and then twenty decimal digits, which
/// stand for the sequence number.
pub proof fn law_segment_name_layout(start_lsn: u64)
    ensures
        ({
            let t = segment_text(start_lsn);
            &&& t.len() == 24
            &&& t[0] == 'w' && t[1] == 'a' && t[2] == 'l' && t[3] == '.'
            &&& forall|i: int| 4 <= i < 24 ==> '0' <= #[trigger] t[i] <= '9'
            &&& decimal(t.skip(4)) == start_lsn
        }),
{
    reveal_strlit("wal.");
    let t = segment_text(start_lsn);
    let digits = padded(start_lsn as nat, SEG_DIGITS as nat);
    assert(ten_to(20) == 100_000_000_000_000_000_000) by {
        reveal_with_fuel(ten_to, 21);
    }
    lemma_padded_decimal(start_lsn as nat, 20);
    assert(t.skip(4) =~= digits);
    assert forall|i: int| 4 <= i < 24 implies '0' <= #[trigger] t[i] <= '9' by {
        assert(is_digit(digits[i - 4]));
    }
}

/// What decimal digits stand for: nothing stands for zero, and one more digit
/// behind them counts ten times what was there and itself.
pub proof fn law_digits_count_by_ten(s: Seq<char>, c: char)
    requires
        '0' <= c <= '9',
    ensures
        decimal(seq![]) == 0,
        decimal(s.push(c)) == 10 * decimal(s) + (c as u32 - '0' as u32),
{
    assert(s.push(c).drop_last() =~= s);
}

/// Which names are segments, and of what: `wal.`, then at least one digit and
/// nothing but digits, perhaps behind one plus sign, that stand for a number of
/// 64 bits; no other name is one. `d` is what follows `wal.` and the sign.
#[verifier::rlimit(60)]
pub proof fn law_which_names_are_segments(name: Seq<char>, d: Seq<char>)
    requires
        name.len() > 4 && name[4] == '+' ==> d == name.skip(5),
        !(name.len() > 4 && name[4] == '+') ==> d == name.skip(4),
    ensures
        name.len() <= 4 ==> segment_start(name) is None,
        name.len() > 4 && !(name[0] == 'w' && name[1] == 'a' && name[2] == 'l' && name[3] == '.')
            ==> segment_start(name) is None,
        name.len() > 4 && name[0] == 'w' && name[1] == 'a' && name[2] == 'l' && name[3] == '.' ==> {
            &&& d.len() == 0 ==> segment_start(name) is None
            &&& forall|i: int|
                0 <= i < d.len() && !('0' <= #[trigger] d[i] <= '9') ==> segment_start(name) is None
            &&& decimal(d) > 0xffff_ffff_ffff_ffff ==> segment_start(name) is None
            &&& d.len() > 0 && (forall|i: int|
                0 <= i < d.len() ==> '0' <= #[trigger] d[i] <= '9') && decimal(d)
                <= 0xffff_ffff_ffff_ffff ==> segment_start(name) == Some(decimal(d) as u64)
        },
{
    reveal_strlit("wal.");
    if name.len() >= 4 {
        let head = name.take(4);
        let rest = name.skip(4);
        assert(head[0] == name[0] && head[1] == name[1] && head[2] == name[2] && head[3]
            == name[3]);
        if name[0] == 'w' && name[1] == 'a' && name[2] == 'l' && name[3] == '.' {
            assert(head =~= SEG_PREFIX@);
        }
        if name.len() > 4 {
            assert(rest[0] == name[4]);
            assert(rest.skip(1) =~= name.skip(5));
            assert(d == unsigned_digits(rest));
            assert forall|i: int|
                0 <= i < d.len() && !('0' <= #[trigger] d[i] <= '9') implies !all_digits(d) by {
                assert(!is_digit(d[i]));
            }
        }
    }
}

/// A path is the directory and the name behind it, with one separator between
/// them.
pub proof fn law_paths_are_joined(dir: Seq<char>, name: Seq<char>)
    ensures
        dir.len() == 0 ==> joined(dir, name) == name,
        dir.len() > 0 && dir.last() == '/' ==> joined(dir, name) == dir + name,
        dir.len() > 0 && dir.last() != '/' ==> joined(dir, name) == dir.push('/') + name,
{
    if dir.len() == 0 {
        assert(dir + name =~= name);
    }
    assert(dir + seq!['/'] =~= dir.push('/'));
}

} // verus!
