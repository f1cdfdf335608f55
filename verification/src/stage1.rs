//! Stage 1: requests off the network, responses back onto it.

use vstd::prelude::*;

use crate::le;
use crate::types::{Request, RequestView};
use crate::wire;
use crate::wire::{Resp, RespView};

verus! {

broadcast use crate::le::group_le_len;

/// Bytes of a frame's length.
pub const FRAME_HDR: usize = 4;

/// The longest request body that is accepted.
pub const MAX_BODY: usize = 8_388_608;

/// Response bytes that are gathered before they are written.
pub const WRITE_LIMIT: usize = 262_144;

/// A response frame: the body behind its length.
pub open spec fn response_frame(r: RespView) -> Seq<u8> {
    wire::framed(wire::resp_body(r))
}

/// The frames of a run of responses, one behind the other.
pub open spec fn response_stream(rs: Seq<RespView>) -> Seq<u8>
    decreases rs.len(),
{
    if rs.len() == 0 {
        seq![]
    } else {
        response_stream(rs.drop_last()) + response_frame(rs.last())
    }
}

/// Appends one response frame.
pub fn encode(buf: &mut Vec<u8>, r: &Resp)
    ensures
        final(buf)@ == old(buf)@ + response_frame(r@),
{
    match r {
        Resp::Value(v) => {
            let bytes: &[u8] = v;
            le::push_le32(buf, le::to_low32(bytes.len()).wrapping_add(1));
            buf.push(r.to_proto_code());
            le::push_bytes(buf, bytes);
        },
        _ => {
            le::push_le32(buf, 1);
            buf.push(r.to_proto_code());
        },
    }
    assert(buf@ =~= old(buf)@ + response_frame(r@));
}

/// Responses of one connection, gathered into one write.
pub struct ResponseBuffer {
    buf: Vec<u8>,
}

impl View for ResponseBuffer {
    type V = Seq<u8>;

    closed spec fn view(&self) -> Seq<u8> {
        self.buf@
    }
}

impl ResponseBuffer {
    /// An empty buffer.
    pub fn new() -> (r: Self)
        ensures
            r@ == Seq::<u8>::empty(),
    {
        ResponseBuffer { buf: Vec::with_capacity(65_536) }
    }

    /// Adds a response. True while there is room for another one in this write.
    pub fn push(&mut self, r: &Resp) -> (more: bool)
        ensures
            final(self)@ == old(self)@ + response_frame(r@),
            more == (final(self)@.len() < WRITE_LIMIT),
            more == (final(self)@.len() < 262_144),
    {
        encode(&mut self.buf, r);
        self.buf.len() < WRITE_LIMIT
    }

    /// The bytes to write.
    pub fn bytes(&self) -> (r: &[u8])
        ensures
            r@ == self@,
    {
        self.buf.as_slice()
    }

    /// The bytes have been written.
    pub fn clear(&mut self)
        ensures
            final(self)@ == Seq::<u8>::empty(),
    {
        self.buf.clear();
    }
}

/// What a connection is in the middle of reading.
#[derive(Debug, Clone, Copy, PartialEq, Eq, Structural)]
pub enum Reading {
    /// The length of the next request.
    Length,
    /// A request of so many bytes.
    Body(usize),
    /// Nothing any more.
    Closed,
}

/// A length that a request body may have.
pub open spec fn acceptable(len: nat) -> bool {
    0 < len <= MAX_BODY
}

/// The bytes that have to arrive before the next step.
pub open spec fn wanted(st: Reading) -> nat {
    match st {
        Reading::Length => FRAME_HDR as nat,
        Reading::Body(n) => n as nat,
        Reading::Closed => 0,
    }
}

/// One step on the bytes that were wanted: what is read next, and the request
/// body that is complete, if one is. A length that is not acceptable closes the
/// connection.
pub open spec fn read_step(st: Reading, data: Seq<u8>) -> (Reading, Option<Seq<u8>>) {
    match st {
        Reading::Length => if acceptable(le::le32_value(data)) {
            (Reading::Body(le::le32_value(data) as usize), None)
        } else {
            (Reading::Closed, None)
        },
        Reading::Body(_) => (Reading::Length, Some(data)),
        Reading::Closed => (Reading::Closed, None),
    }
}

/// The request bodies that come out of a stream of bytes.
pub open spec fn read_stream(st: Reading, stream: Seq<u8>) -> Seq<Seq<u8>>
    decreases stream.len(),
{
    if wanted(st) == 0 || stream.len() < wanted(st) {
        seq![]
    } else {
        let n = wanted(st) as int;
        let (next, body) = read_step(st, stream.take(n));
        match body {
            Some(b) => seq![b] + read_stream(next, stream.skip(n)),
            None => read_stream(next, stream.skip(n)),
        }
    }
}

/// A new request from a connection.
pub open spec fn new_request(data: Seq<u8>, conn: u64) -> RequestView {
    RequestView { data, reply: conn, resp: None }
}

/// The reading side of a connection.
pub struct ConnReader {
    conn: u64,
    reading: Reading,
}

impl ConnReader {
    /// The number of the connection.
    pub closed spec fn conn(self) -> u64 {
        self.conn
    }

    /// What the connection is in the middle of reading.
    pub closed spec fn reading(self) -> Reading {
        self.reading
    }

    /// A connection from which nothing has been read.
    pub fn new(conn: u64) -> (r: Self)
        ensures
            r.conn() == conn,
            r.reading() is Length,
    {
        ConnReader { conn, reading: Reading::Length }
    }

    /// The number of bytes to read next; `None` when the connection is to be
    /// closed.
    pub fn wants(&self) -> (r: Option<usize>)
        ensures
            r is None <==> self.reading() is Closed,
            r matches Some(n) ==> n == wanted(self.reading()),
            self.reading() is Length ==> r == Some(4usize),
            self.reading() matches Reading::Body(n) ==> r == Some(n),
    {
        match self.reading {
            Reading::Length => Some(FRAME_HDR),
            Reading::Body(n) => Some(n),
            Reading::Closed => None,
        }
    }

    /// Takes in the bytes that were asked for; returns a request when one is
    /// complete.
    pub fn on_bytes(&mut self, data: Vec<u8>) -> (r: Option<Request>)
        requires
            data@.len() == wanted(old(self).reading()),
        ensures
            final(self).conn() == old(self).conn(),
            final(self).reading() == read_step(old(self).reading(), data@).0,
            r is Some <==> read_step(old(self).reading(), data@).1 is Some,
            r matches Some(req) ==> req@ == new_request(data@, old(self).conn()),
            r matches Some(req) ==> {
                &&& req.data@ == data@
                &&& req.reply == old(self).conn()
                &&& req.resp is None
            },
            old(self).reading() is Body ==> r is Some && final(self).reading() is Length,
            old(self).reading() is Length ==> {
                let n = data@[0] + 256 * data@[1] + 65536 * data@[2] + 16777216 * data@[3];
                &&& r is None
                &&& 0 < n <= 8_388_608 ==> final(self).reading() == Reading::Body(n as usize)
                &&& !(0 < n <= 8_388_608) ==> final(self).reading() is Closed
            },
            old(self).reading() is Closed ==> r is None && final(self).reading() is Closed,
    {
        match self.reading {
            Reading::Length => {
                let len = wire::rd_u32(data.as_slice());
                if len == 0 || len > MAX_BODY {
                    self.reading = Reading::Closed;
                } else {
                    self.reading = Reading::Body(len);
                }
                None
            },
            Reading::Body(_) => {
                self.reading = Reading::Length;
                let req = Request { data, reply: self.conn, resp: None };
                assert(req@ =~= new_request(data@, old(self).conn()));
                Some(req)
            },
            Reading::Closed => None,
        }
    }

    /// The connection failed or ended.
    pub fn on_closed(&mut self)
        ensures
            final(self).conn() == old(self).conn(),
            final(self).reading() is Closed,
    {
        self.reading = Reading::Closed;
    }
}

/// The frames of a run of bodies, one behind the other.
pub open spec fn frames(bodies: Seq<Seq<u8>>) -> Seq<u8>
    decreases bodies.len(),
{
    if bodies.len() == 0 {
        seq![]
    } else {
        wire::framed(bodies[0]) + frames(bodies.skip(1))
    }
}

/// Requests arrive as they were sent: of a stream into which bodies of
/// acceptable lengths were framed, those bodies come out, in order, and then
/// whatever the rest of the stream holds.
#[verifier::rlimit(60)]
pub proof fn law_requests_arrive_as_sent(bodies: Seq<Seq<u8>>, tail: Seq<u8>)
    requires
        forall|i: int| 0 <= i < bodies.len() ==> acceptable((#[trigger] bodies[i]).len()),
    ensures
        read_stream(Reading::Length, frames(bodies) + tail) == bodies + read_stream(
            Reading::Length,
            tail,
        ),
    decreases bodies.len(),
{
    if bodies.len() == 0 {
        assert(frames(bodies) + tail =~= tail);
        assert(bodies + read_stream(Reading::Length, tail) =~= read_stream(Reading::Length, tail));
    } else {
        let b = bodies[0];
        let rest = bodies.skip(1);
        let len = le::low32(b.len());
        let stream = frames(bodies) + tail;
        let after = frames(rest) + tail;
        assert(stream =~= le::le32(len) + (b + after));
        assert forall|i: int| 0 <= i < rest.len() implies acceptable((#[trigger] rest[i]).len()) by {
            assert(rest[i] == bodies[i + 1]);
        }
        law_requests_arrive_as_sent(rest, tail);
        le::law_le32_roundtrip(len, seq![]);
        assert(stream.take(4) =~= le::le32(len));
        assert(stream.skip(4) =~= b + after);
        assert((b + after).take(b.len() as int) =~= b);
        assert((b + after).skip(b.len() as int) =~= after);
        assert(len == b.len());
        assert(read_step(Reading::Length, stream.take(4)).0 == Reading::Body(b.len() as usize));
        assert(read_stream(Reading::Body(b.len() as usize), b + after) == seq![b] + read_stream(
            Reading::Length,
            after,
        ));
        assert(seq![b] + (rest + read_stream(Reading::Length, tail)) =~= bodies + read_stream(
            Reading::Length,
            tail,
        ));
    }
}

/// A frame that announces no bytes or too many ends the connection: nothing
/// behind it is read.
pub proof fn law_bad_length_ends_the_connection(len: u32, rest: Seq<u8>)
    requires
        !acceptable(len as nat),
    ensures
        read_stream(Reading::Length, le::le32(len) + rest) == Seq::<Seq<u8>>::empty(),
{
    let stream = le::le32(len) + rest;
    le::law_le32_roundtrip(len, seq![]);
    assert(stream.take(4) =~= le::le32(len));
    assert(read_step(Reading::Length, stream.take(4)).0 is Closed);
    assert(read_stream(Reading::Closed, stream.skip(4)) =~= seq![]);
}

/// A body that is read is never empty and never too long, whatever the stream.
pub proof fn law_read_bodies_are_acceptable(st: Reading, stream: Seq<u8>, i: int)
    requires
        st matches Reading::Body(n) ==> acceptable(n as nat),
        0 <= i < read_stream(st, stream).len(),
    ensures
        acceptable(read_stream(st, stream)[i].len()),
    decreases stream.len(), i,
{
    let n = wanted(st) as int;
    let (next, body) = read_step(st, stream.take(n));
    le::lemma_le32_value_bound(stream.take(n));
    if body is Some {
        if i > 0 {
            law_read_bodies_are_acceptable(next, stream.skip(n), i - 1);
            assert(read_stream(st, stream)[i] == read_stream(next, stream.skip(n))[i - 1]);
        }
    } else {
        law_read_bodies_are_acceptable(next, stream.skip(n), i);
    }
}

/// A body behind its length is four bytes for the length, modulo 2^32, and then
/// the whole body; a run of bodies is their frames one behind the other.
pub proof fn law_frames_are_laid_out_in_order(bodies: Seq<Seq<u8>>, b: Seq<u8>)
    ensures
        frames(bodies) == bodies.map_values(|x: Seq<u8>| wire::framed(x)).flatten(),
        ({
            let f = wire::framed(b);
            &&& f.len() == 4 + b.len()
            &&& f[0] + 256 * f[1] + 65536 * f[2] + 16777216 * f[3] == b.len() % 0x1_0000_0000
            &&& f.skip(4) == b
        }),
    decreases bodies.len(),
{
    let f = |x: Seq<u8>| wire::framed(x);
    let n = le::low32(b.len());
    le::law_le32_is_little_endian(n, le::le32(n));
    assert(wire::framed(b).skip(4) =~= b);
    if bodies.len() == 0 {
        assert(bodies.map_values(f) =~= seq![]);
        assert(bodies.map_values(f).flatten() =~= seq![]);
    } else {
        law_frames_are_laid_out_in_order(bodies.skip(1), b);
        assert(bodies.map_values(f).drop_first() =~= bodies.skip(1).map_values(f));
        assert(bodies.map_values(f).first() == f(bodies[0]));
    }
}

/// How a stream is read, whatever is in it: a length of four bytes; nothing more
/// if it is zero or above eight mebibytes, or if not that many bytes follow; else
/// a body of exactly the bytes that follow, all of them, and then the same again.
#[verifier::rlimit(60)]
pub proof fn law_streams_are_read_frame_by_frame(stream: Seq<u8>)
    ensures
        ({
            let n = stream[0] + 256 * stream[1] + 65536 * stream[2] + 16777216 * stream[3];
            read_stream(Reading::Length, stream) == if stream.len() < 4 || n == 0 || n > 8_388_608
                || stream.len() < 4 + n {
                seq![]
            } else {
                seq![stream.subrange(4, 4 + n)] + read_stream(Reading::Length, stream.skip(4 + n))
            }
        }),
{
    if stream.len() >= 4 {
        let hdr = stream.take(4);
        let n = le::le32_value(hdr) as int;
        le::law_le32_is_little_endian(0, hdr);
        le::lemma_le32_value_bound(hdr);
        let next = read_step(Reading::Length, hdr).0;
        let rest = stream.skip(4);
        if acceptable(n as nat) {
            assert(next == Reading::Body(n as usize));
            if stream.len() >= 4 + n {
                assert(rest.take(n) =~= stream.subrange(4, 4 + n));
                assert(rest.skip(n) =~= stream.skip(4 + n));
                assert(read_stream(next, rest) == seq![rest.take(n)] + read_stream(
                    Reading::Length,
                    rest.skip(n),
                ));
            } else {
                assert(read_stream(next, rest) =~= seq![]);
            }
        } else {
            assert(read_stream(next, rest) =~= seq![]);
        }
    }
}

/// A request carries all of the body that was read, and goes back to the
/// connection it came from: over a whole stream, the requests' bodies are the
/// bodies read.
pub proof fn law_requests_carry_whole_bodies(st: Reading, stream: Seq<u8>, conn: u64, i: int)
    requires
        0 <= i < read_stream(st, stream).len(),
    ensures
        ({
            let req = new_request(read_stream(st, stream)[i], conn);
            &&& req.data == read_stream(st, stream)[i]
            &&& req.reply == conn
            &&& req.resp is None
        }),
        read_stream(st, stream).map_values(|d: Seq<u8>| new_request(d, conn).data) == read_stream(
            st,
            stream,
        ),
{
    let bodies = read_stream(st, stream);
    assert(bodies.map_values(|d: Seq<u8>| new_request(d, conn).data) =~= bodies);
}

/// One step of a connection, whatever it read: a body is handed on as it is and
/// the next length is read; a length is turned into the wish for that many bytes,
/// or ends the connection.
pub proof fn law_a_step_keeps_every_byte(n: usize, data: Seq<u8>)
    ensures
        read_step(Reading::Body(n), data) == (Reading::Length, Some(data)),
        read_step(Reading::Closed, data) == (Reading::Closed, None::<Seq<u8>>),
        wanted(Reading::Length) == 4,
        wanted(Reading::Body(n)) == n,
        data.len() >= 4 ==> {
            let v = data[0] + 256 * data[1] + 65536 * data[2] + 16777216 * data[3];
            read_step(Reading::Length, data) == if 0 < v <= 8_388_608 {
                (Reading::Body(v as usize), None::<Seq<u8>>)
            } else {
                (Reading::Closed, None::<Seq<u8>>)
            }
        },
{
}

/// The responses of a run go onto the wire one behind the other, every one of
/// them, as its frame.
pub proof fn law_responses_are_written_in_order(rs: Seq<RespView>)
    ensures
        response_stream(rs) == rs.map_values(
            |r: RespView| wire::framed(wire::resp_body(r)),
        ).flatten(),
        forall|r: RespView| #[trigger] response_frame(r) == wire::framed(wire::resp_body(r)),
    decreases rs.len(),
{
    let f = |r: RespView| wire::framed(wire::resp_body(r));
    if rs.len() == 0 {
        assert(rs.map_values(f) =~= seq![]);
        assert(rs.map_values(f).flatten() =~= seq![]);
    } else {
        let front = rs.drop_last();
        law_responses_are_written_in_order(front);
        assert(rs.map_values(f) =~= front.map_values(f).push(f(rs.last())));
        front.map_values(f).lemma_flatten_push(f(rs.last()));
    }
}

} // verus!
