//! Response frames out of a stream of bytes.
//!
//! No I/O happens here: the caller feeds bytes as they come and pulls complete
//! responses.

use vstd::prelude::*;
use vstd::slice::slice_subrange;

use crate::le;
use crate::stage1;
use crate::wire;
use crate::wire::{Resp, RespView};

verus! {

broadcast use crate::le::group_le_len;

/// Bytes of a frame's length.
pub const FRAME_HDR: usize = 4;

/// Bytes of a stream that have not been read as responses yet.
pub struct FrameReader {
    buf: Vec<u8>,
}

impl View for FrameReader {
    type V = Seq<u8>;

    closed spec fn view(&self) -> Seq<u8> {
        self.buf@
    }
}

/// The length of the first frame, if its header is there.
pub open spec fn frame_len(buf: Seq<u8>) -> int {
    FRAME_HDR + le::le32_value(buf)
}

/// A complete frame stands at the front.
pub open spec fn has_frame(buf: Seq<u8>) -> bool {
    buf.len() >= FRAME_HDR && buf.len() >= frame_len(buf)
}

/// The response in the first frame.
pub open spec fn first_response(buf: Seq<u8>) -> RespView {
    wire::resp_of_body(buf.subrange(FRAME_HDR as int, frame_len(buf)))
}

impl FrameReader {
    /// A reader that has been fed nothing.
    pub fn new() -> (r: Self)
        ensures
            r@ == Seq::<u8>::empty(),
    {
        FrameReader { buf: Vec::with_capacity(4096) }
    }

    /// Adds bytes that came from the socket.
    pub fn feed(&mut self, data: &[u8])
        ensures
            final(self)@ == old(self)@ + data@,
    {
        le::push_bytes(&mut self.buf, data);
    }

    /// Takes the first complete response; `None` if more bytes are needed. Called
    /// again and again it drains all complete frames.
    pub fn try_extract(&mut self) -> (r: Option<Resp>)
        ensures
            r is Some <==> has_frame(old(self)@),
            r is None ==> final(self)@ == old(self)@,
            r matches Some(resp) ==> {
                &&& resp@ == first_response(old(self)@)
                &&& final(self)@ == old(self)@.skip(frame_len(old(self)@))
            },
    {
        let n = self.buf.len();
        if n < FRAME_HDR {
            return None;
        }
        let hdr = slice_subrange(self.buf.as_slice(), 0, FRAME_HDR);
        assert(forall|i: int| 0 <= i < 4 ==> hdr@[i] == #[trigger] self.buf@[i]);
        let body_len = wire::rd_u32(hdr);
        assert(body_len == le::le32_value(self.buf@));
        if n - FRAME_HDR < body_len {
            return None;
        }
        let total = FRAME_HDR + body_len;
        let resp = Resp::from_proto_code(slice_subrange(self.buf.as_slice(), FRAME_HDR, total));
        self.buf = self.buf.split_off(total);
        assert(self.buf@ =~= old(self)@.skip(total as int));
        Some(resp)
    }
}

/// The responses in the complete frames at the front, in order.
pub open spec fn responses(buf: Seq<u8>) -> Seq<RespView>
    decreases buf.len(),
{
    if has_frame(buf) {
        seq![first_response(buf)] + responses(buf.skip(frame_len(buf)))
    } else {
        seq![]
    }
}

/// What is left behind the complete frames.
pub open spec fn leftover(buf: Seq<u8>) -> Seq<u8>
    decreases buf.len(),
{
    if has_frame(buf) {
        leftover(buf.skip(frame_len(buf)))
    } else {
        buf
    }
}

/// A complete frame stays what it is when more bytes come.
proof fn lemma_frame_stays(a: Seq<u8>, b: Seq<u8>)
    requires
        has_frame(a),
    ensures
        has_frame(a + b),
        frame_len(a + b) == frame_len(a),
        first_response(a + b) == first_response(a),
        (a + b).skip(frame_len(a + b)) == a.skip(frame_len(a)) + b,
{
    let all = a + b;
    assert(all[0] == a[0] && all[1] == a[1] && all[2] == a[2] && all[3] == a[3]);
    assert(all.subrange(FRAME_HDR as int, frame_len(all)) =~= a.subrange(
        FRAME_HDR as int,
        frame_len(a),
    ));
    assert(all.skip(frame_len(all)) =~= a.skip(frame_len(a)) + b);
}

/// How the stream is cut into reads makes no difference: draining after each of
/// two reads gives the responses, and leaves the bytes, that draining after both
/// does.
pub proof fn law_reads_may_be_cut_anywhere(a: Seq<u8>, b: Seq<u8>)
    ensures
        responses(a + b) == responses(a) + responses(leftover(a) + b),
        leftover(a + b) == leftover(leftover(a) + b),
    decreases a.len(),
{
    if has_frame(a) {
        lemma_frame_stays(a, b);
        let rest = a.skip(frame_len(a));
        law_reads_may_be_cut_anywhere(rest, b);
        assert(seq![first_response(a)] + (responses(rest) + responses(leftover(rest) + b))
            =~= responses(a) + responses(leftover(a) + b));
    } else {
        assert(responses(a) + responses(leftover(a) + b) =~= responses(a + b));
    }
}

/// A response whose frame says its length in full.
pub open spec fn frame_fits(r: RespView) -> bool {
    wire::resp_body(r).len() < 0x1_0000_0000
}

/// One response frame at the front is read as that response.
proof fn lemma_frame_read(r: RespView, tail: Seq<u8>)
    requires
        frame_fits(r),
    ensures
        ({
            let buf = stage1::response_frame(r) + tail;
            &&& has_frame(buf)
            &&& first_response(buf) == r
            &&& buf.skip(frame_len(buf)) == tail
        }),
{
    let body = wire::resp_body(r);
    let n = le::low32(body.len());
    let buf = stage1::response_frame(r) + tail;
    assert(buf =~= le::le32(n) + (body + tail));
    le::law_le32_roundtrip(n, body + tail);
    assert(frame_len(buf) == 4 + body.len());
    assert(buf.subrange(4, frame_len(buf)) =~= body);
    wire::law_response_roundtrip(r);
    assert(buf.skip(frame_len(buf)) =~= tail);
}

/// Responses come back as the server sent them: all of them, in order, however
/// the stream is cut; whatever follows them is still there.
pub proof fn law_responses_come_back_in_order(rs: Seq<RespView>, tail: Seq<u8>)
    requires
        forall|i: int| 0 <= i < rs.len() ==> frame_fits(#[trigger] rs[i]),
    ensures
        responses(stage1::response_stream(rs) + tail) == rs + responses(tail),
        leftover(stage1::response_stream(rs) + tail) == leftover(tail),
    decreases rs.len(),
{
    let stream = stage1::response_stream(rs);
    if rs.len() == 0 {
        assert(stream + tail =~= tail);
        assert(rs + responses(tail) =~= responses(tail));
    } else {
        let front = rs.drop_last();
        let last = rs.last();
        assert(rs[rs.len() - 1] == last);
        assert forall|i: int| 0 <= i < front.len() implies frame_fits(#[trigger] front[i]) by {
            assert(front[i] == rs[i]);
        }
        let frame = stage1::response_frame(last);
        law_responses_come_back_in_order(front, frame + tail);
        assert(stream + tail =~= stage1::response_stream(front) + (frame + tail));
        lemma_frame_read(last, tail);
        assert(front + (seq![last] + responses(tail)) =~= rs + responses(tail));
    }
}

/// How a stream of responses is read, whatever is in it: a length of four bytes,
/// then as many bytes, which are one response; a frame is complete exactly if all
/// of it is there.
pub proof fn law_frames_are_read_one_by_one(buf: Seq<u8>)
    ensures
        ({
            let n = buf[0] + 256 * buf[1] + 65536 * buf[2] + 16777216 * buf[3];
            let whole = buf.len() >= 4 && buf.len() >= 4 + n;
            &&& has_frame(buf) <==> whole
            &&& whole ==> {
                &&& frame_len(buf) == 4 + n
                &&& first_response(buf) == wire::resp_of_body(buf.subrange(4, 4 + n))
                &&& responses(buf) == seq![wire::resp_of_body(buf.subrange(4, 4 + n))] + responses(
                    buf.skip(4 + n),
                )
                &&& leftover(buf) == leftover(buf.skip(4 + n))
            }
            &&& !whole ==> responses(buf) == Seq::<RespView>::empty() && leftover(buf) == buf
        }),
{
}

} // verus!
