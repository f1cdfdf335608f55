//! The wire protocol.
//!
//! A request travels as `[len:u32]` and a body `[op:1][klen:u32][key][val]`;
//! a response as `[len:u32]` and a body `[code:1][val]`. All integers are
//! little-endian.

use std::sync::Arc;

use vstd::prelude::*;
use vstd::slice::slice_subrange;

use crate::le;

verus! {

broadcast use crate::le::group_le_len;

/// Opcode of a read.
pub const OP_GET: u8 = 0;

/// Opcode of a write.
pub const OP_PUT: u8 = 1;

/// Bytes in front of the key in a request body.
pub const BODY_HDR: usize = 5;

/// What a client asks for.
#[derive(Debug, Clone, Copy, PartialEq, Eq, Structural)]
pub enum Operation {
    Get,
    Put,
}

/// The opcode that stands for an operation on the wire.
pub open spec fn op_code(op: Operation) -> u8 {
    match op {
        Operation::Get => OP_GET,
        Operation::Put => OP_PUT,
    }
}

/// The bytes behind an optional slice.
pub open spec fn opt_bytes(value: Option<&[u8]>) -> Option<Seq<u8>> {
    match value {
        Some(v) => Some(v@),
        None => None,
    }
}

/// A value that is absent takes no bytes.
pub open spec fn value_bytes(value: Option<Seq<u8>>) -> Seq<u8> {
    match value {
        Some(v) => v,
        None => seq![],
    }
}

/// A write without a value has no encoding; everything else has one.
pub open spec fn encodable(op: Operation, value: Option<Seq<u8>>) -> bool {
    !(op is Put && value is None)
}

/// Request body: opcode, key length, key, value.
pub open spec fn request_body(op: Operation, key: Seq<u8>, value: Option<Seq<u8>>) -> Seq<u8> {
    seq![op_code(op)] + le::le32(le::low32(key.len())) + key + value_bytes(value)
}

/// A body behind its length.
pub open spec fn framed(body: Seq<u8>) -> Seq<u8> {
    le::le32(le::low32(body.len())) + body
}

/// Request frame: the body behind its length.
pub open spec fn request_frame(op: Operation, key: Seq<u8>, value: Option<Seq<u8>>) -> Seq<u8> {
    framed(request_body(op, key, value))
}

/// The low 32 bits of the body length of a request with such a key and value:
/// more does not go on the wire.
fn body_len32(klen: usize, vlen: usize) -> (r: u32)
    ensures
        r == le::low32(5 + klen as nat + vlen as nat),
{
    le::to_low32(klen).wrapping_add(le::to_low32(vlen)).wrapping_add(5)
}

/// Appends one request frame and returns the number of bytes it took; a write
/// without a value appends nothing and returns zero.
pub fn encode_raw(buf: &mut Vec<u8>, op: Operation, key: &[u8], value: Option<&[u8]>) -> (r: usize)
    ensures
        encodable(op, opt_bytes(value)) ==> {
            &&& final(buf)@ == old(buf)@ + request_frame(op, key@, opt_bytes(value))
            &&& r == request_frame(op, key@, opt_bytes(value)).len()
            &&& r >= 9
        },
        !encodable(op, opt_bytes(value)) ==> final(buf)@ == old(buf)@ && r == 0,
{
    let len_before = buf.len();

    if matches!(op, Operation::Put) && value.is_none() {
        return 0;
    }

    let vlen: usize = match value {
        Some(v) => v.len(),
        None => 0,
    };
    let body_len: u32 = body_len32(key.len(), vlen);
    let ghost body = request_body(op, key@, opt_bytes(value));
    assert(body.len() == 5 + key@.len() + vlen);

    le::push_le32(buf, body_len);

    let code: u8 = match op {
        Operation::Get => OP_GET,
        Operation::Put => OP_PUT,
    };
    buf.push(code);
    le::push_le32(buf, le::to_low32(key.len()));
    le::push_bytes(buf, key);

    if let Some(value) = value {
        le::push_bytes(buf, value);
    }
    proof {
        let value = opt_bytes(value);
        assert(buf@ =~= old(buf)@ + le::le32(body_len) + (seq![code] + le::le32(le::low32(key@.len())) + key@
            + value_bytes(value)));
        assert(buf@ =~= old(buf)@ + request_frame(op, key@, value));
    }

    buf.len() - len_before
}

/// One request frame in a buffer of its own; `None` for a write without a value.
pub fn encode(op: Operation, key: &[u8], value: Option<&[u8]>) -> (r: Option<Vec<u8>>)
    ensures
        r is Some <==> encodable(op, opt_bytes(value)),
        r matches Some(buf) ==> buf@ == request_frame(op, key@, opt_bytes(value)),
{
    let vlen: usize = match value {
        Some(v) => v.len(),
        None => 0,
    };
    let mut buf: Vec<u8> = Vec::with_capacity(key.len().saturating_add(vlen).saturating_add(9));

    if encode_raw(&mut buf, op, key, value) != 0 {
        assert(buf@ =~= request_frame(op, key@, opt_bytes(value)));
        Some(buf)
    } else {
        None
    }
}

/// The key length that a request body declares.
pub open spec fn body_klen(body: Seq<u8>) -> nat {
    le::le32_value(body.skip(1))
}

/// A request body is long enough for its header and for the key it declares.
pub open spec fn kv_fits(body: Seq<u8>) -> bool {
    body.len() >= BODY_HDR && BODY_HDR + body_klen(body) <= body.len()
}

/// The key of a request body.
pub open spec fn body_key(body: Seq<u8>) -> Seq<u8> {
    body.subrange(BODY_HDR as int, BODY_HDR + body_klen(body))
}

/// The value of a request body: whatever follows the key.
pub open spec fn body_val(body: Seq<u8>) -> Seq<u8> {
    body.skip(BODY_HDR + body_klen(body))
}

/// The opcode of a request body.
pub fn op(body: &[u8]) -> (r: u8)
    requires
        body@.len() >= 1,
    ensures
        r == body@[0],
{
    body[0]
}

/// The key length of a request body.
pub fn klen(body: &[u8]) -> (r: usize)
    requires
        body@.len() >= BODY_HDR,
    ensures
        r == body_klen(body@),
{
    let field = slice_subrange(body, 1, 5);
    let r = rd_u32(field);
    assert(forall|i: int| 0 <= i < 4 ==> field@[i] == #[trigger] body@.skip(1)[i]);
    r
}

/// The key of a request body.
pub fn key(body: &[u8]) -> (r: &[u8])
    requires
        kv_fits(body@),
    ensures
        r@ == body_key(body@),
{
    let n = body.len();
    let k = klen(body);
    assert(BODY_HDR + k <= n);
    slice_subrange(body, BODY_HDR, BODY_HDR + k)
}

/// The key and the value of a request body.
pub fn split_kv(body: &[u8]) -> (r: (&[u8], &[u8]))
    requires
        kv_fits(body@),
    ensures
        r.0@ == body_key(body@),
        r.1@ == body_val(body@),
{
    let n = body.len();
    let k = klen(body);
    assert(BODY_HDR + k <= n);
    let kv = (
        slice_subrange(body, BODY_HDR, BODY_HDR + k),
        slice_subrange(body, BODY_HDR + k, n),
    );
    assert(kv.1@ =~= body_val(body@));
    kv
}

/// True when the body is long enough for its header and for the key it
/// declares, so that `key` and `split_kv` may be called on it.
pub fn fits_kv(body: &[u8]) -> (r: bool)
    ensures
        r == kv_fits(body@),
{
    body.len() >= BODY_HDR && klen(body) <= body.len() - BODY_HDR
}

/// What the server answers.
#[derive(Debug, PartialEq, Eq)]
pub enum Resp {
    /// The value that a read found.
    Value(Arc<[u8]>),
    /// A write took effect.
    Okay,
    /// A read found nothing.
    Miss,
    /// The request's opcode is not known.
    UnknownOp,
    /// A response that the protocol does not know.
    Unknown,
}

/// A response with its bytes as a sequence.
pub enum RespView {
    Value(Seq<u8>),
    Okay,
    Miss,
    UnknownOp,
    Unknown,
}

impl View for Resp {
    type V = RespView;

    open spec fn view(&self) -> RespView {
        match self {
            Resp::Value(v) => RespView::Value((**v)@),
            Resp::Okay => RespView::Okay,
            Resp::Miss => RespView::Miss,
            Resp::UnknownOp => RespView::UnknownOp,
            Resp::Unknown => RespView::Unknown,
        }
    }
}

/// The response code on the wire.
pub open spec fn resp_code(r: RespView) -> u8 {
    match r {
        RespView::Value(_) => 0,
        RespView::Okay => 1,
        RespView::Miss => 2,
        RespView::UnknownOp => 3,
        RespView::Unknown => 4,
    }
}

/// Response body: the code, and the value where there is one.
pub open spec fn resp_body(r: RespView) -> Seq<u8> {
    match r {
        RespView::Value(v) => seq![resp_code(r)] + v,
        _ => seq![resp_code(r)],
    }
}

/// The response that a body stands for. An empty body and an unassigned code
/// stand for `Unknown`.
pub open spec fn resp_of_body(body: Seq<u8>) -> RespView {
    if body.len() == 0 {
        RespView::Unknown
    } else if body[0] == 0 {
        RespView::Value(body.skip(1))
    } else if body[0] == 1 {
        RespView::Okay
    } else if body[0] == 2 {
        RespView::Miss
    } else if body[0] == 3 {
        RespView::UnknownOp
    } else {
        RespView::Unknown
    }
}

/// `Arc::<[u8]>::from`: a shared slice with the same bytes as `v`.
#[verifier::external_body]
pub(crate) fn shared_bytes(v: &[u8]) -> (r: Arc<[u8]>)
    ensures
        (*r)@ == v@,
{
    Arc::from(v)
}

/// `Arc::clone`: another handle on the same bytes.
#[verifier::external_body]
pub(crate) fn share(v: &Arc<[u8]>) -> (r: Arc<[u8]>)
    ensures
        r == *v,
{
    Arc::clone(v)
}

impl Clone for Resp {
    fn clone(&self) -> (r: Self)
        ensures
            r == *self,
    {
        match self {
            Resp::Value(v) => Resp::Value(share(v)),
            Resp::Okay => Resp::Okay,
            Resp::Miss => Resp::Miss,
            Resp::UnknownOp => Resp::UnknownOp,
            Resp::Unknown => Resp::Unknown,
        }
    }
}

impl Resp {
    /// The response code on the wire.
    pub fn to_proto_code(&self) -> (r: u8)
        ensures
            r == resp_code(self@),
    {
        match self {
            Resp::Value(_) => 0,
            Resp::Okay => 1,
            Resp::Miss => 2,
            Resp::UnknownOp => 3,
            Resp::Unknown => 4,
        }
    }

    /// Reads a response body.
    pub fn from_proto_code(body: &[u8]) -> (r: Self)
        ensures
            r@ == resp_of_body(body@),
    {
        if body.len() == 0 {
            return Resp::Unknown;
        }
        match body[0] {
            0 => {
                let v = slice_subrange(body, 1, body.len());
                assert(v@ =~= body@.skip(1));
                Resp::Value(shared_bytes(v))
            },
            1 => Resp::Okay,
            2 => Resp::Miss,
            3 => Resp::UnknownOp,
            _ => Resp::Unknown,
        }
    }
}

/// Reads the first four bytes.
pub fn rd_u32(b: &[u8]) -> (r: usize)
    requires
        b@.len() >= 4,
    ensures
        r == le::le32_value(b@),
        r < 0x1_0000_0000,
{
    proof {
        le::lemma_le32_value_bound(b@);
    }
    let x: u32 = b[0] as u32 + b[1] as u32 * 256 + b[2] as u32 * 65536 + b[3] as u32 * 16777216;
    x as usize
}

/// Reads the first eight bytes.
pub fn rd_u64(b: &[u8]) -> (r: u64)
    requires
        b@.len() >= 8,
    ensures
        r == le::le64_value(b@),
{
    let hi = slice_subrange(b, 4, 8);
    proof {
        le::lemma_le64_value_bound(b@);
        le::lemma_le32_value_bound(b@);
        assert(forall|i: int| 0 <= i < 4 ==> hi@[i] == #[trigger] b@.skip(4)[i]);
    }
    rd_u32(b) as u64 + rd_u32(hi) as u64 * 0x1_0000_0000
}

/// A request's opcode, key and value read back from its body as they went in,
/// as long as the key's length fits its four bytes.
#[verifier::rlimit(60)]
pub proof fn law_request_roundtrip(op: Operation, key: Seq<u8>, value: Option<Seq<u8>>)
    requires
        key.len() < 0x1_0000_0000,
    ensures
        request_body(op, key, value)[0] == op_code(op),
        kv_fits(request_body(op, key, value)),
        body_key(request_body(op, key, value)) == key,
        body_val(request_body(op, key, value)) == value_bytes(value),
{
    let body = request_body(op, key, value);
    let n = le::low32(key.len());
    le::law_le32_roundtrip(n, key + value_bytes(value));
    assert(body.skip(1) =~= le::le32(n) + (key + value_bytes(value)));
    assert(body_klen(body) == key.len());
    assert(body_key(body) =~= key);
    assert(body_val(body) =~= value_bytes(value));
}

/// Every response reads back from its body as it went in.
pub proof fn law_response_roundtrip(r: RespView)
    ensures
        resp_of_body(resp_body(r)) == r,
{
    match r {
        RespView::Value(v) => {
            assert(resp_body(r).skip(1) =~= v);
        },
        _ => {},
    }
}

/// What a request looks like on the wire, byte for byte: four bytes for the
/// length of all that follows, one for the opcode, four for the key's length, the
/// whole key, the whole value. Lengths go on the wire modulo 2^32.
#[verifier::rlimit(60)]
pub proof fn law_request_layout(op: Operation, key: Seq<u8>, value: Option<Seq<u8>>)
    ensures
        ({
            let f = request_frame(op, key, value);
            let v = match value {
                Some(v) => v,
                None => seq![],
            };
            &&& f.len() == 9 + key.len() + v.len()
            &&& f[0] + 256 * f[1] + 65536 * f[2] + 16777216 * f[3] == (5 + key.len() + v.len())
                % 0x1_0000_0000
            &&& f[4] == if op is Get {
                0u8
            } else {
                1u8
            }
            &&& f[5] + 256 * f[6] + 65536 * f[7] + 16777216 * f[8] == key.len() % 0x1_0000_0000
            &&& forall|i: int| 0 <= i < key.len() ==> #[trigger] f[9 + i] == key[i]
            &&& f.skip(9) == key + v
            &&& request_body(op, key, value) == f.skip(4)
            &&& encodable(op, value) <==> (op is Get || value is Some)
        }),
{
    let body = request_body(op, key, value);
    let f = request_frame(op, key, value);
    let n = le::low32(body.len());
    let k = le::low32(key.len());
    le::law_le32_is_little_endian(n, le::le32(n));
    le::law_le32_is_little_endian(k, le::le32(k));
    assert(f =~= le::le32(n) + (seq![op_code(op)] + (le::le32(k) + (key + value_bytes(value)))));
    assert(f.skip(9) =~= key + value_bytes(value));
    assert(f.skip(4) =~= body);
    assert forall|i: int| 0 <= i < key.len() implies #[trigger] f[9 + i] == key[i] by {
        assert(f.skip(9)[i] == key[i]);
    }
}

/// How a request body is taken apart: the opcode and the key's length take five
/// bytes, and what follows is the key, of exactly that length, and then the
/// value, with nothing left over. A body is long enough exactly if its key is
/// there.
pub proof fn law_request_parts(body: Seq<u8>)
    requires
        body.len() >= 5,
    ensures
        kv_fits(body) <==> 5 + body[1] + 256 * body[2] + 65536 * body[3] + 16777216 * body[4]
            <= body.len(),
        kv_fits(body) ==> {
            &&& body_key(body).len() == body[1] + 256 * body[2] + 65536 * body[3] + 16777216
                * body[4]
            &&& body.take(5) + body_key(body) + body_val(body) == body
        },
{
    let s = body.skip(1);
    assert(s[0] == body[1] && s[1] == body[2] && s[2] == body[3] && s[3] == body[4]);
    if kv_fits(body) {
        assert(body.take(5) + body_key(body) + body_val(body) =~= body);
    }
}

/// What a response looks like on the wire, byte for byte: four bytes for the
/// length, modulo 2^32, one for the code, and the whole value where there is one.
pub proof fn law_response_layout(r: RespView)
    ensures
        ({
            let f = framed(resp_body(r));
            let v = match r {
                RespView::Value(v) => v,
                _ => seq![],
            };
            &&& f.len() == 5 + v.len()
            &&& f[0] + 256 * f[1] + 65536 * f[2] + 16777216 * f[3] == (1 + v.len())
                % 0x1_0000_0000
            &&& f[4] == match r {
                RespView::Value(_) => 0u8,
                RespView::Okay => 1u8,
                RespView::Miss => 2u8,
                RespView::UnknownOp => 3u8,
                RespView::Unknown => 4u8,
            }
            &&& f.skip(5) == v
        }),
{
    let body = resp_body(r);
    let f = framed(body);
    let n = le::low32(body.len());
    le::law_le32_is_little_endian(n, le::le32(n));
    let v = match r {
        RespView::Value(v) => v,
        _ => seq![],
    };
    assert(f.skip(5) =~= v);
}

/// How a response body is read: its first byte alone says what it is, and a value
/// is all that follows that byte.
pub proof fn law_response_reading(body: Seq<u8>)
    ensures
        body.len() == 0 ==> resp_of_body(body) is Unknown,
        body.len() > 0 ==> {
            &&& resp_of_body(body) is Value <==> body[0] == 0
            &&& resp_of_body(body) is Okay <==> body[0] == 1
            &&& resp_of_body(body) is Miss <==> body[0] == 2
            &&& resp_of_body(body) is UnknownOp <==> body[0] == 3
            &&& resp_of_body(body) is Unknown <==> body[0] > 3
            &&& resp_of_body(body) matches RespView::Value(v) ==> seq![0u8] + v == body
        },
{
    if body.len() > 0 && body[0] == 0 {
        assert(seq![0u8] + body.skip(1) =~= body);
    }
}

/// A response's view is the response, with all the bytes of its value.
pub proof fn law_response_view(r: Resp)
    ensures
        r matches Resp::Value(v) ==> r@ == RespView::Value((*v)@),
        r is Okay ==> r@ is Okay,
        r is Miss ==> r@ is Miss,
        r is UnknownOp ==> r@ is UnknownOp,
        r is Unknown ==> r@ is Unknown,
{
}

/// An optional value's bytes are the value's bytes.
pub proof fn law_optional_bytes(value: Option<&[u8]>)
    ensures
        value is None ==> opt_bytes(value) is None,
        value matches Some(v) ==> opt_bytes(value) == Some(v@),
        value is None ==> value_bytes(opt_bytes(value)).len() == 0,
        value matches Some(v) ==> value_bytes(opt_bytes(value)) == v@,
{
}

} // verus!
