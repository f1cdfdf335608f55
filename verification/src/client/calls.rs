//! Calls that wait to be written to the connection.

use vstd::prelude::*;

use crate::stage1;
use crate::stage1::Reading;
use crate::wire;
use crate::wire::Operation;

verus! {

broadcast use crate::le::group_le_len;

/// One request of a user, with the number under which its response is awaited.
pub struct Call {
    pub op: Operation,
    pub key: Vec<u8>,
    pub value: Option<Vec<u8>>,
    pub id: u64,
}

/// A call with its bytes as sequences.
#[verifier::ext_equal]
pub struct CallView {
    pub op: Operation,
    pub key: Seq<u8>,
    pub value: Option<Seq<u8>>,
    pub id: u64,
}

impl View for Call {
    type V = CallView;

    open spec fn view(&self) -> CallView {
        CallView {
            op: self.op,
            key: self.key@,
            value: match self.value {
                Some(v) => Some(v@),
                None => None,
            },
            id: self.id,
        }
    }
}

/// The views of a run of calls.
pub open spec fn calls(cs: Seq<Call>) -> Seq<CallView> {
    cs.map_values(|c: Call| c@)
}

impl Call {
    /// A read of a key.
    pub fn get(id: u64, key: &[u8]) -> (r: Self)
        ensures
            r@ == (CallView { op: Operation::Get, key: key@, value: None, id }),
            r.op is Get && r.key@ == key@ && r.value is None && r.id == id,
    {
        Call { op: Operation::Get, key: vstd::slice::slice_to_vec(key), value: None, id }
    }

    /// A write of a key.
    pub fn put(id: u64, key: &[u8], value: &[u8]) -> (r: Self)
        ensures
            r@ == (CallView { op: Operation::Put, key: key@, value: Some(value@), id }),
            r.op is Put && r.key@ == key@ && r.id == id,
            r.value matches Some(v) && v@ == value@,
    {
        Call {
            op: Operation::Put,
            key: vstd::slice::slice_to_vec(key),
            value: Some(vstd::slice::slice_to_vec(value)),
            id,
        }
    }
}

/// The frame of a call; a write without a value has none.
pub open spec fn call_frame(c: CallView) -> Seq<u8> {
    if wire::encodable(c.op, c.value) {
        wire::request_frame(c.op, c.key, c.value)
    } else {
        seq![]
    }
}

/// The frames of a run of calls, one behind the other.
pub open spec fn call_stream(cs: Seq<CallView>) -> Seq<u8>
    decreases cs.len(),
{
    if cs.len() == 0 {
        seq![]
    } else {
        call_stream(cs.drop_last()) + call_frame(cs.last())
    }
}

/// The numbers of a run of calls.
pub open spec fn call_ids(cs: Seq<CallView>) -> Seq<u64> {
    cs.map_values(|c: CallView| c.id)
}

/// Fills the buffer with the frames of the calls, for one write to the socket,
/// and returns their numbers in the order in which the responses will come.
pub fn encode_calls(write_buf: &mut Vec<u8>, batch: &Vec<Call>) -> (ids: Vec<u64>)
    ensures
        final(write_buf)@ == call_stream(calls(batch@)),
        ids@ == call_ids(calls(batch@)),
        ids@.len() == batch@.len(),
        forall|i: int| 0 <= i < batch@.len() ==> #[trigger] ids@[i] == batch@[i].id,
{
    let ghost cs = calls(batch@);
    write_buf.clear();
    let mut ids: Vec<u64> = Vec::new();
    let mut i: usize = 0;
    assert(cs.take(0) =~= seq![]);
    assert(ids@ =~= call_ids(cs.take(0)));
    while i < batch.len()
        invariant
            i <= batch@.len(),
            cs == calls(batch@),
            write_buf@ == call_stream(cs.take(i as int)),
            ids@ == call_ids(cs.take(i as int)),
        decreases batch@.len() - i,
    {
        assert(cs[i as int] == batch@[i as int]@);
        assert(cs.take(i + 1).drop_last() =~= cs.take(i as int));
        let ghost before = write_buf@;
        let call = &batch[i];
        let value: Option<&[u8]> = match &call.value {
            Some(v) => Some(v.as_slice()),
            None => None,
        };
        wire::encode_raw(write_buf, call.op, call.key.as_slice(), value);
        ids.push(call.id);
        proof {
            assert(write_buf@ =~= before + call_frame(cs[i as int]));
            assert(ids@ =~= call_ids(cs.take(i + 1)));
        }
        i = i + 1;
    }
    assert(cs.take(batch@.len() as int) =~= cs);
    ids
}

/// A call's view is the call.
pub proof fn law_call_views(cs: Seq<Call>, i: int)
    requires
        0 <= i < cs.len(),
    ensures
        calls(cs).len() == cs.len(),
        calls(cs)[i].op == cs[i].op,
        calls(cs)[i].key == cs[i].key@,
        calls(cs)[i].value is Some <==> cs[i].value is Some,
        cs[i].value matches Some(v) ==> calls(cs)[i].value == Some(v@),
        calls(cs)[i].id == cs[i].id,
        call_ids(calls(cs)).len() == cs.len(),
        call_ids(calls(cs))[i] == cs[i].id,
{
}

/// Every call of a run is written, however long the run: the bytes of two runs
/// are those of the first and then those of the second; those of one call are its
/// request's frame, or none for a write without a value.
pub proof fn law_every_call_is_written(a: Seq<CallView>, b: Seq<CallView>, c: CallView)
    ensures
        call_stream(a + b) == call_stream(a) + call_stream(b),
        call_stream(seq![]) == Seq::<u8>::empty(),
        call_stream(seq![c]) == if c.op is Get || c.value is Some {
            wire::request_frame(c.op, c.key, c.value)
        } else {
            seq![]
        },
    decreases b.len(),
{
    assert(seq![c].drop_last() =~= seq![]);
    assert(call_stream(seq![]) =~= seq![]);
    assert(call_stream(seq![c]) =~= call_frame(c));
    if b.len() == 0 {
        assert(a + b =~= a);
        assert(call_stream(a) + call_stream(b) =~= call_stream(a));
    } else {
        law_every_call_is_written(a, b.drop_last(), c);
        assert((a + b).drop_last() =~= a + b.drop_last());
        assert((a + b).last() == b.last());
        assert(call_stream(a + b) =~= call_stream(a) + call_stream(b));
    }
}

/// One call at the front of a stream is read as its body.
#[verifier::rlimit(50)]
proof fn lemma_server_reads_one_call(c: CallView, tail: Seq<u8>)
    requires
        c.op is Get || c.value is Some,
        5 + c.key.len() + match c.value {
            Some(v) => v.len(),
            None => 0,
        } <= 8_388_608,
    ensures
        stage1::read_stream(Reading::Length, call_frame(c) + tail) == seq![
            wire::request_frame(c.op, c.key, c.value).skip(4),
        ] + stage1::read_stream(Reading::Length, tail),
{
    let frame = call_frame(c);
    let body = frame.skip(4);
    let s = frame + tail;
    wire::law_request_layout(c.op, c.key, c.value);
    stage1::law_streams_are_read_frame_by_frame(s);
    assert(s[0] == frame[0] && s[1] == frame[1] && s[2] == frame[2] && s[3] == frame[3]);
    assert(s.subrange(4, 4 + body.len() as int) =~= body);
    assert(s.skip(4 + body.len() as int) =~= tail);
}

/// The server reads every call, whole and in order, however many there are: as
/// many bodies as there are calls with a frame, the i-th being the body of the
/// i-th of them, behind which it reads whatever follows.
#[verifier::rlimit(60)]
pub proof fn law_server_reads_every_call(cs: Seq<CallView>, tail: Seq<u8>)
    requires
        forall|i: int|
            0 <= i < cs.len() ==> 5 + (#[trigger] cs[i]).key.len() + match cs[i].value {
                Some(v) => v.len(),
                None => 0,
            } <= 8_388_608,
    ensures
        stage1::read_stream(Reading::Length, call_stream(cs) + tail) == cs.filter(
            |c: CallView| c.op is Get || c.value is Some,
        ).map_values(
            |c: CallView| wire::request_frame(c.op, c.key, c.value).skip(4),
        ) + stage1::read_stream(Reading::Length, tail),
    decreases cs.len(),
{
    reveal(Seq::filter);
    let p = |c: CallView| c.op is Get || c.value is Some;
    let f = |c: CallView| wire::request_frame(c.op, c.key, c.value).skip(4);
    if cs.len() == 0 {
        assert(call_stream(cs) + tail =~= tail);
        assert(cs.filter(p).map_values(f) + stage1::read_stream(Reading::Length, tail)
            =~= stage1::read_stream(Reading::Length, tail));
    } else {
        let front = cs.drop_last();
        let c = cs.last();
        assert(cs[cs.len() - 1] == c);
        assert forall|i: int| 0 <= i < front.len() implies 5 + (#[trigger] front[i]).key.len()
            + match front[i].value {
            Some(v) => v.len(),
            None => 0,
        } <= 8_388_608 by {
            assert(front[i] == cs[i]);
        }
        let frame = call_frame(c);
        law_server_reads_every_call(front, frame + tail);
        assert(call_stream(cs) + tail =~= call_stream(front) + (frame + tail));
        if p(c) {
            let body = f(c);
            lemma_server_reads_one_call(c, tail);
            let rest = stage1::read_stream(Reading::Length, tail);
            assert(cs.filter(p).map_values(f) =~= front.filter(p).map_values(f).push(body));
            assert(front.filter(p).map_values(f) + (seq![body] + rest) =~= cs.filter(p).map_values(
                f,
            ) + rest);
        } else {
            assert(frame + tail =~= tail);
        }
    }
}

} // verus!
