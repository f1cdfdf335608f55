//! Requests, batches of them, and what a batch does to the table.

use vstd::prelude::*;

use crate::storage::db::Db;
use crate::storage::wal_format;
use crate::wire;
use crate::wire::{Operation, Resp, RespView, OP_GET, OP_PUT};

verus! {

/// One request, ready to be handled.
pub struct Request {
    /// Request body: `[op][klen:u32][key][val]`.
    pub data: Vec<u8>,
    /// The connection that the response goes back to.
    pub reply: u64,
    /// The response, from when it is known until it is sent.
    pub resp: Option<Resp>,
}

/// A request with its bytes as sequences.
#[verifier::ext_equal]
pub struct RequestView {
    pub data: Seq<u8>,
    pub reply: u64,
    pub resp: Option<RespView>,
}

impl View for Request {
    type V = RequestView;

    open spec fn view(&self) -> RequestView {
        RequestView {
            data: self.data@,
            reply: self.reply,
            resp: match self.resp {
                Some(r) => Some(r@),
                None => None,
            },
        }
    }
}

/// The views of a run of requests.
pub open spec fn requests(items: Seq<Request>) -> Seq<RequestView> {
    items.map_values(|r: Request| r@)
}

/// A write.
pub open spec fn is_put(data: Seq<u8>) -> bool {
    data.len() > 0 && data[0] == OP_PUT
}

/// A request that can be handled: it has an opcode, and if that is a read or a
/// write, the key it declares is there.
pub open spec fn answerable(data: Seq<u8>) -> bool {
    &&& data.len() >= 1
    &&& data[0] == OP_GET || data[0] == OP_PUT ==> wire::kv_fits(data)
}

impl Request {
    /// The opcode.
    pub fn op(&self) -> (r: u8)
        requires
            self.data@.len() >= 1,
        ensures
            r == self.data@[0],
    {
        self.data[0]
    }

    /// The length of the key.
    pub fn klen(&self) -> (r: usize)
        requires
            self.data@.len() >= wire::BODY_HDR,
        ensures
            r == wire::body_klen(self.data@),
    {
        wire::klen(self.data.as_slice())
    }

    /// The key.
    pub fn key(&self) -> (r: &[u8])
        requires
            wire::kv_fits(self.data@),
        ensures
            r@ == wire::body_key(self.data@),
    {
        wire::key(self.data.as_slice())
    }

    /// The value.
    pub fn val(&self) -> (r: &[u8])
        requires
            wire::kv_fits(self.data@),
        ensures
            r@ == wire::body_val(self.data@),
    {
        wire::split_kv(self.data.as_slice()).1
    }

    /// Anything but a write leaves the table as it is.
    pub fn is_read_only(&self) -> (r: bool)
        requires
            self.data@.len() >= 1,
        ensures
            r == !is_put(self.data@),
    {
        self.op() != OP_PUT
    }

    /// True when the request can be handled.
    pub fn is_answerable(&self) -> (r: bool)
        ensures
            r == answerable(self.data@),
    {
        if self.data.len() == 0 {
            return false;
        }
        let code = self.data[0];
        if code == OP_GET || code == OP_PUT {
            wire::fits_kv(self.data.as_slice())
        } else {
            true
        }
    }
}

/// Requests that are handled together, with the log bytes they give rise to.
///
/// The numbering is half-open: `lsn_low` is the sequence number reached before
/// the batch, `lsn_hi` the one reached after it, which is that of its last
/// write. Every write first increments the number and then takes it.
pub struct Batch {
    pub items: Vec<Request>,
    /// Log records of the batch's writes.
    pub out: Vec<u8>,
    pub lsn_low: u64,
    pub lsn_hi: u64,
}

/// A batch with its contents as sequences.
#[verifier::ext_equal]
pub struct BatchView {
    pub items: Seq<RequestView>,
    pub out: Seq<u8>,
    pub lsn_low: u64,
    pub lsn_hi: u64,
}

impl View for Batch {
    type V = BatchView;

    open spec fn view(&self) -> BatchView {
        BatchView {
            items: requests(self.items@),
            out: self.out@,
            lsn_low: self.lsn_low,
            lsn_hi: self.lsn_hi,
        }
    }
}

/// A batch with nothing in it.
pub open spec fn blank_batch() -> BatchView {
    BatchView { items: seq![], out: seq![], lsn_low: 0, lsn_hi: 0 }
}

impl Batch {
    /// A blank batch with room for so many requests and log bytes.
    pub fn with_capacity(items: usize, out: usize) -> (r: Self)
        ensures
            r@ == blank_batch(),
            r.items@.len() == 0,
            r.out@.len() == 0,
            r.lsn_low == 0,
            r.lsn_hi == 0,
    {
        let b = Batch {
            items: Vec::with_capacity(items),
            out: Vec::with_capacity(out),
            lsn_low: 0,
            lsn_hi: 0,
        };
        assert(b@ =~= blank_batch());
        b
    }

    /// Blanks the batch for its next use.
    pub fn recycle(&mut self)
        ensures
            final(self)@ == blank_batch(),
            final(self).items@.len() == 0,
            final(self).out@.len() == 0,
            final(self).lsn_low == 0,
            final(self).lsn_hi == 0,
    {
        self.items.clear();
        self.out.clear();
        self.lsn_low = 0;
        self.lsn_hi = 0;
        assert(self@ =~= blank_batch());
    }

    /// True when the batch holds writes that have to reach the log.
    pub fn has_wal_work(&self) -> (r: bool)
        ensures
            r == (self@.lsn_hi > self@.lsn_low),
            r == (self.lsn_hi > self.lsn_low),
    {
        self.lsn_hi > self.lsn_low
    }
}

impl std::ops::Deref for Batch {
    type Target = Vec<Request>;

    fn deref(&self) -> (r: &Vec<Request>)
        ensures
            *r == self.items,
    {
        &self.items
    }
}

impl std::ops::DerefMut for Batch {
    fn deref_mut(&mut self) -> (r: &mut Vec<Request>)
        ensures
            *r == old(self).items,
            *final(self) == (Batch { items: *final(r), ..*old(self) }),
    {
        &mut self.items
    }
}

/// What a request is answered, given the table it meets.
pub open spec fn answer(db: Map<Seq<u8>, Seq<u8>>, data: Seq<u8>) -> RespView {
    if data[0] == OP_GET {
        if db.contains_key(wire::body_key(data)) {
            RespView::Value(db[wire::body_key(data)])
        } else {
            RespView::Miss
        }
    } else if data[0] == OP_PUT {
        RespView::Okay
    } else {
        RespView::UnknownOp
    }
}

/// The table that a request leaves behind.
pub open spec fn effect(db: Map<Seq<u8>, Seq<u8>>, data: Seq<u8>) -> Map<Seq<u8>, Seq<u8>> {
    if is_put(data) {
        db.insert(wire::body_key(data), wire::body_val(data))
    } else {
        db
    }
}

/// The table that a run of requests leaves behind.
pub open spec fn table_after(db: Map<Seq<u8>, Seq<u8>>, reqs: Seq<RequestView>) -> Map<
    Seq<u8>,
    Seq<u8>,
>
    decreases reqs.len(),
{
    if reqs.len() == 0 {
        db
    } else {
        effect(table_after(db, reqs.drop_last()), reqs.last().data)
    }
}

/// The number of writes in a run of requests.
pub open spec fn puts(reqs: Seq<RequestView>) -> nat
    decreases reqs.len(),
{
    if reqs.len() == 0 {
        0
    } else {
        puts(reqs.drop_last()) + if is_put(reqs.last().data) {
            1nat
        } else {
            0nat
        }
    }
}

/// The log records of a run of requests that starts after sequence number `lsn`.
pub open spec fn redo(lsn: nat, reqs: Seq<RequestView>) -> Seq<u8>
    decreases reqs.len(),
{
    if reqs.len() == 0 {
        seq![]
    } else if is_put(reqs.last().data) {
        redo(lsn, reqs.drop_last()) + wal_format::record_bytes(
            (lsn + puts(reqs)) as u64,
            reqs.last().data,
        )
    } else {
        redo(lsn, reqs.drop_last())
    }
}

/// Every request can be handled.
pub open spec fn all_answerable(reqs: Seq<RequestView>) -> bool {
    forall|i: int| 0 <= i < reqs.len() ==> answerable((#[trigger] reqs[i]).data)
}

/// The request with its answer, given the table that the batch met and the
/// requests in front of it.
pub open spec fn answered(db: Map<Seq<u8>, Seq<u8>>, reqs: Seq<RequestView>, i: int) -> RequestView {
    RequestView { resp: Some(answer(table_after(db, reqs.take(i)), reqs[i].data)), ..reqs[i] }
}

/// A batch after it was applied: every request has its answer and the numbering
/// is set.
pub open spec fn applied(db: Map<Seq<u8>, Seq<u8>>, lsn: u64, b: BatchView) -> BatchView {
    BatchView {
        items: Seq::new(b.items.len(), |i: int| answered(db, b.items, i)),
        out: b.out,
        lsn_low: lsn,
        lsn_hi: (lsn + puts(b.items)) as u64,
    }
}

/// Counting one request further.
pub proof fn lemma_puts_step(reqs: Seq<RequestView>, i: int)
    requires
        0 <= i < reqs.len(),
    ensures
        puts(reqs.take(i + 1)) == puts(reqs.take(i)) + if is_put(reqs[i].data) {
            1nat
        } else {
            0nat
        },
        puts(reqs.take(i + 1)) <= puts(reqs),
    decreases reqs.len() - i,
{
    assert(reqs.take(i + 1).drop_last() =~= reqs.take(i));
    if i + 1 < reqs.len() {
        lemma_puts_step(reqs, i + 1);
    } else {
        assert(reqs.take(i + 1) =~= reqs);
    }
}

/// Applies a batch to the table in place: answers every request in order and
/// numbers the writes. `lsn` is the sequence number reached so far.
pub fn apply(db: &mut Db, batch: &mut Batch, lsn: &mut u64)
    requires
        all_answerable(old(batch)@.items),
        *old(lsn) + puts(old(batch)@.items) <= u64::MAX,
    ensures
        final(db)@ == table_after(old(db)@, old(batch)@.items),
        final(batch)@ == applied(old(db)@, *old(lsn), old(batch)@),
        *final(lsn) == *old(lsn) + puts(old(batch)@.items),
{
    let ghost table0 = db@;
    let ghost reqs = batch@.items;
    let ghost lsn0 = *lsn;
    batch.lsn_low = *lsn;

    let n = batch.items.len();
    let mut i: usize = 0;
    assert(reqs.take(0) =~= seq![]);
    while i < n
        invariant
            n == batch.items@.len() == reqs.len(),
            i <= n,
            all_answerable(reqs),
            lsn0 + puts(reqs) <= u64::MAX,
            db@ == table_after(table0, reqs.take(i as int)),
            *lsn == lsn0 + puts(reqs.take(i as int)),
            forall|j: int| 0 <= j < i ==> (#[trigger] batch.items@[j])@ == answered(table0, reqs, j),
            forall|j: int| i <= j < n ==> (#[trigger] batch.items@[j])@ == reqs[j],
            batch.out@ == old(batch).out@,
            batch.lsn_low == lsn0,
        decreases n - i,
    {
        assert(batch.items@[i as int]@ == reqs[i as int]);
        proof {
            lemma_puts_step(reqs, i as int);
            assert(reqs.take(i + 1).drop_last() =~= reqs.take(i as int));
        }
        let req = &batch.items[i];
        let code = req.op();
        let resp = if code == OP_GET {
            match db.get(req.key()) {
                Some(v) => Resp::Value(wire::share(v)),
                None => Resp::Miss,
            }
        } else if code == OP_PUT {
            let (key, val) = wire::split_kv(req.data.as_slice());
            *lsn = *lsn + 1;
            db.put(key, val);
            Resp::Okay
        } else {
            Resp::UnknownOp
        };
        batch.items[i].resp = Some(resp);
        i = i + 1;
    }
    batch.lsn_hi = *lsn;
    proof {
        assert(reqs.take(n as int) =~= reqs);
        assert(batch@ =~= applied(table0, lsn0, old(batch)@));
    }
}

/// True when every request of the batch can be handled and their writes can be
/// numbered from `lsn` on, so that `apply` may be called.
pub fn can_apply(batch: &Batch, lsn: u64) -> (r: bool)
    ensures
        r == (all_answerable(batch@.items) && lsn + puts(batch@.items) <= u64::MAX),
{
    let ghost reqs = batch@.items;
    let mut left: u64 = u64::MAX - lsn;
    let n = batch.items.len();
    let mut i: usize = 0;
    assert(reqs.take(0) =~= seq![]);
    while i < n
        invariant
            n == batch.items@.len(),
            reqs == batch@.items,
            i <= n,
            forall|j: int| 0 <= j < i ==> answerable((#[trigger] reqs[j]).data),
            left == u64::MAX - lsn - puts(reqs.take(i as int)),
        decreases n - i,
    {
        assert(batch.items@[i as int]@ == reqs[i as int]);
        proof {
            lemma_puts_step(reqs, i as int);
        }
        if !batch.items[i].is_answerable() {
            return false;
        }
        if batch.items[i].op() == OP_PUT {
            if left == 0 {
                return false;
            }
            left = left - 1;
        }
        i = i + 1;
    }
    assert(reqs.take(n as int) =~= reqs);
    true
}

/// Every request has an opcode.
pub open spec fn all_have_op(reqs: Seq<RequestView>) -> bool {
    forall|i: int| 0 <= i < reqs.len() ==> (#[trigger] reqs[i]).data.len() >= 1
}

/// Appends the log records of a batch's writes to its log bytes, numbered from
/// `lsn_low` by the same rule as the writes themselves: increment, then take.
/// Returns the sequence number reached.
pub fn encode_puts(batch: &mut Batch) -> (lsn: u64)
    requires
        all_have_op(old(batch)@.items),
        old(batch)@.lsn_low + puts(old(batch)@.items) <= u64::MAX,
    ensures
        final(batch)@ == (BatchView {
            out: old(batch)@.out + redo(old(batch)@.lsn_low as nat, old(batch)@.items),
            ..old(batch)@
        }),
        lsn == old(batch)@.lsn_low + puts(old(batch)@.items),
{
    let ghost reqs = batch@.items;
    let ghost out0 = batch.out@;
    let ghost low = batch.lsn_low as nat;
    let mut lsn: u64 = batch.lsn_low;
    let mut i: usize = 0;
    assert(reqs.take(0) =~= seq![]);
    assert(batch.out@ =~= out0 + redo(low, reqs.take(0)));
    while i < batch.items.len()
        invariant
            batch.items == old(batch).items,
            batch.lsn_low == old(batch).lsn_low,
            batch.lsn_hi == old(batch).lsn_hi,
            reqs == requests(batch.items@),
            all_have_op(reqs),
            low == batch.lsn_low,
            low + puts(reqs) <= u64::MAX,
            i <= batch.items@.len(),
            lsn == low + puts(reqs.take(i as int)),
            batch.out@ == out0 + redo(low, reqs.take(i as int)),
        decreases batch.items@.len() - i,
    {
        assert(batch.items@[i as int]@ == reqs[i as int]);
        proof {
            lemma_puts_step(reqs, i as int);
            assert(reqs.take(i + 1).drop_last() =~= reqs.take(i as int));
        }
        if batch.items[i].op() == OP_PUT {
            lsn = lsn + 1;
            wal_format::encode_record(&mut batch.out, lsn, batch.items[i].data.as_slice());
        }
        assert(batch.out@ =~= out0 + redo(low, reqs.take(i + 1)));
        i = i + 1;
    }
    proof {
        assert(reqs.take(batch.items@.len() as int) =~= reqs);
    }
    lsn
}

/// The bytes that the log records of a run of requests take.
pub open spec fn redo_size(reqs: Seq<RequestView>) -> nat
    decreases reqs.len(),
{
    if reqs.len() == 0 {
        0
    } else if is_put(reqs.last().data) {
        redo_size(reqs.drop_last()) + 20 + reqs.last().data.len()
    } else {
        redo_size(reqs.drop_last())
    }
}

/// The log records take that many bytes, wherever their numbering starts.
pub proof fn lemma_redo_size(lsn: nat, reqs: Seq<RequestView>)
    ensures
        redo(lsn, reqs).len() == redo_size(reqs),
    decreases reqs.len(),
{
    broadcast use crate::le::group_le_len;

    if reqs.len() > 0 {
        lemma_redo_size(lsn, reqs.drop_last());
    }
}

/// Sizing one request further.
pub proof fn lemma_redo_size_step(reqs: Seq<RequestView>, i: int)
    requires
        0 <= i < reqs.len(),
    ensures
        redo_size(reqs.take(i + 1)) == redo_size(reqs.take(i)) + if is_put(reqs[i].data) {
            20 + reqs[i].data.len()
        } else {
            0
        },
        redo_size(reqs.take(i + 1)) <= redo_size(reqs),
    decreases reqs.len() - i,
{
    assert(reqs.take(i + 1).drop_last() =~= reqs.take(i));
    if i + 1 < reqs.len() {
        lemma_redo_size_step(reqs, i + 1);
    } else {
        assert(reqs.take(i + 1) =~= reqs);
    }
}

/// The number of writes in a batch and the bytes that their log records take;
/// `None` if a request has no opcode or the bytes cannot be counted.
pub fn measure_puts(items: &Vec<Request>) -> (r: Option<(u64, u64)>)
    ensures
        r is Some <==> all_have_op(requests(items@)) && redo_size(requests(items@)) <= u64::MAX,
        r matches Some(m) ==> m.0 == puts(requests(items@)) && m.1 == redo_size(
            requests(items@),
        ),
{
    let ghost reqs = requests(items@);
    let mut count: u64 = 0;
    let mut size: u64 = 0;
    let n = items.len();
    let mut i: usize = 0;
    assert(reqs.take(0) =~= seq![]);
    while i < n
        invariant
            n == items@.len(),
            reqs == requests(items@),
            i <= n,
            forall|j: int| 0 <= j < i ==> (#[trigger] reqs[j]).data.len() >= 1,
            count == puts(reqs.take(i as int)),
            count <= i,
            size == redo_size(reqs.take(i as int)),
        decreases n - i,
    {
        assert(items@[i as int]@ == reqs[i as int]);
        proof {
            lemma_puts_step(reqs, i as int);
            lemma_redo_size_step(reqs, i as int);
        }
        if items[i].data.len() == 0 {
            return None;
        }
        if items[i].op() == OP_PUT {
            let len = items[i].data.len() as u64;
            if len > u64::MAX - 20 || size > u64::MAX - 20 - len {
                return None;
            }
            count = count + 1;
            size = size + 20 + len;
        }
        i = i + 1;
    }
    assert(reqs.take(n as int) =~= reqs);
    Some((count, size))
}

/// A batch after it was applied, with its log records behind the log bytes it
/// had.
pub open spec fn applied_with_redo(db: Map<Seq<u8>, Seq<u8>>, lsn: u64, b: BatchView) -> BatchView {
    BatchView { out: b.out + redo(lsn as nat, b.items), ..applied(db, lsn, b) }
}

/// The log records depend on the requests' bodies alone, so answering them does
/// not change what is logged.
pub proof fn lemma_same_bodies(a: Seq<RequestView>, b: Seq<RequestView>, lsn: nat)
    requires
        a.len() == b.len(),
        forall|i: int| 0 <= i < a.len() ==> (#[trigger] a[i]).data == b[i].data,
    ensures
        puts(a) == puts(b),
        redo(lsn, a) == redo(lsn, b),
    decreases a.len(),
{
    if a.len() > 0 {
        assert forall|i: int| 0 <= i < a.len() - 1 implies (#[trigger] a.drop_last()[i]).data
            == b.drop_last()[i].data by {
            assert(a[i].data == b[i].data);
        }
        lemma_same_bodies(a.drop_last(), b.drop_last(), lsn);
        assert(a[a.len() - 1].data == b[a.len() - 1].data);
    }
}

impl Db {
    /// Applies a batch as `apply` does, and writes its log records.
    pub fn apply(&mut self, batch: &mut Batch, lsn: &mut u64)
        requires
            all_answerable(old(batch)@.items),
            *old(lsn) + puts(old(batch)@.items) <= u64::MAX,
        ensures
            final(self)@ == table_after(old(self)@, old(batch)@.items),
            final(batch)@ == applied_with_redo(old(self)@, *old(lsn), old(batch)@),
            *final(lsn) == *old(lsn) + puts(old(batch)@.items),
    {
        let ghost table0 = self@;
        apply(self, batch, lsn);
        proof {
            lemma_same_bodies(batch@.items, old(batch)@.items, *old(lsn) as nat);
            assert(all_have_op(batch@.items)) by {
                assert forall|i: int| 0 <= i < batch@.items.len() implies (
                #[trigger] batch@.items[i]).data.len() >= 1 by {
                    assert(answerable(old(batch)@.items[i].data));
                }
            }
        }
        encode_puts(batch);
    }
}

/// What a read gives back of a write: right behind a write of a key, whatever
/// came before, a read of that key is answered with the value written.
pub proof fn law_get_after_put(
    db: Map<Seq<u8>, Seq<u8>>,
    before: Seq<RequestView>,
    put: RequestView,
    get: RequestView,
)
    requires
        is_put(put.data),
        get.data.len() >= 1,
        get.data[0] == OP_GET,
        wire::body_key(get.data) == wire::body_key(put.data),
    ensures
        answer(table_after(db, before.push(put)), get.data) == RespView::Value(
            wire::body_val(put.data),
        ),
{
    assert(before.push(put).drop_last() =~= before);
}

/// The last write wins: a read is answered with the value of the last write of
/// its key in front of it, whatever else happened before and in between.
pub proof fn law_read_sees_the_last_write(
    db: Map<Seq<u8>, Seq<u8>>,
    reqs: Seq<RequestView>,
    i: int,
    get: Seq<u8>,
)
    requires
        0 <= i < reqs.len(),
        is_put(reqs[i].data),
        get.len() >= 1,
        get[0] == OP_GET,
        wire::body_key(get) == wire::body_key(reqs[i].data),
        forall|j: int|
            i < j < reqs.len() && is_put((#[trigger] reqs[j]).data) ==> wire::body_key(reqs[j].data)
                != wire::body_key(get),
    ensures
        answer(table_after(db, reqs), get) == RespView::Value(wire::body_val(reqs[i].data)),
    decreases reqs.len(),
{
    let n = reqs.len() - 1;
    let front = reqs.drop_last();
    if i < n {
        assert forall|j: int|
            i < j < front.len() && is_put((#[trigger] front[j]).data) implies wire::body_key(
            front[j].data,
        ) != wire::body_key(get) by {
            assert(front[j] == reqs[j]);
        }
        assert(front[i] == reqs[i]);
        law_read_sees_the_last_write(db, front, i, get);
        assert(reqs[n] == reqs.last());
    }
}

/// A write of one key leaves every other key as it was.
pub proof fn law_put_touches_one_key(db: Map<Seq<u8>, Seq<u8>>, data: Seq<u8>, other: Seq<u8>)
    requires
        other != wire::body_key(data),
    ensures
        effect(db, data).contains_key(other) <==> db.contains_key(other),
        db.contains_key(other) ==> effect(db, data)[other] == db[other],
{
}

/// A run without writes leaves the table as it was and has nothing to log.
pub proof fn law_reads_change_nothing(
    db: Map<Seq<u8>, Seq<u8>>,
    lsn: nat,
    reqs: Seq<RequestView>,
)
    requires
        puts(reqs) == 0,
    ensures
        table_after(db, reqs) == db,
        redo(lsn, reqs) == Seq::<u8>::empty(),
    decreases reqs.len(),
{
    if reqs.len() > 0 {
        law_reads_change_nothing(db, lsn, reqs.drop_last());
    }
}

/// Handling two runs one after the other is the same as handling them as one:
/// the table, the numbering and the log come out alike, wherever batches are
/// cut.
pub proof fn law_batches_compose(
    db: Map<Seq<u8>, Seq<u8>>,
    lsn: nat,
    a: Seq<RequestView>,
    b: Seq<RequestView>,
)
    ensures
        table_after(db, a + b) == table_after(table_after(db, a), b),
        puts(a + b) == puts(a) + puts(b),
        redo(lsn, a + b) == redo(lsn, a) + redo(lsn + puts(a), b),
    decreases b.len(),
{
    if b.len() == 0 {
        assert(a + b =~= a);
        assert(redo(lsn, a) + redo(lsn + puts(a), b) =~= redo(lsn, a));
    } else {
        law_batches_compose(db, lsn, a, b.drop_last());
        assert((a + b).drop_last() =~= a + b.drop_last());
        assert((a + b).last() == b.last());
        assert(redo(lsn, a + b) =~= redo(lsn, a) + redo(lsn + puts(a), b));
    }
}

/// A request's view is the request: all of its bytes, where its response goes,
/// and the response it holds.
pub proof fn law_request_view(r: Request)
    ensures
        r@.data == r.data@,
        r@.reply == r.reply,
        r@.resp is Some <==> r.resp is Some,
        r.resp matches Some(resp) ==> r@.resp == Some(resp@),
{
}

/// A batch's view is the batch: all of its requests, in order, its log bytes and
/// its numbering.
pub proof fn law_batch_view(b: Batch)
    ensures
        b@.items.len() == b.items@.len(),
        forall|i: int| 0 <= i < b.items@.len() ==> #[trigger] b@.items[i] == b.items@[i]@,
        b@.out == b.out@,
        b@.lsn_low == b.lsn_low,
        b@.lsn_hi == b.lsn_hi,
{
}

/// Every request that can be encoded can be handled, whatever its key and value;
/// and what it asks for reads back from its body.
pub proof fn law_encoded_requests_are_answerable(
    op: Operation,
    key: Seq<u8>,
    value: Option<Seq<u8>>,
)
    requires
        key.len() < 0x1_0000_0000,
        op is Put ==> value is Some,
    ensures
        ({
            let body = wire::request_frame(op, key, value).skip(4);
            &&& answerable(body)
            &&& is_put(body) <==> op is Put
            &&& wire::body_key(body) == key
            &&& wire::body_val(body) == match value {
                Some(v) => v,
                None => seq![],
            }
        }),
{
    wire::law_request_layout(op, key, value);
    wire::law_request_roundtrip(op, key, value);
}

/// Which requests can be handled: those with an opcode, except reads and writes
/// that are too short for the key they declare.
pub proof fn law_answerable_means_complete(data: Seq<u8>)
    ensures
        data.len() == 0 ==> !answerable(data),
        data.len() > 0 && data[0] > 1 ==> answerable(data),
        data.len() > 0 && data[0] <= 1 ==> (answerable(data) <==> data.len() >= 5 && 5 + data[1]
            + 256 * data[2] + 65536 * data[3] + 16777216 * data[4] <= data.len()),
        is_put(data) <==> data.len() > 0 && data[0] == 1,
{
    if data.len() >= 5 {
        wire::law_request_parts(data);
    }
}

/// Every write counts, and nothing else does.
pub proof fn law_writes_are_counted(reqs: Seq<RequestView>)
    ensures
        puts(reqs) == reqs.filter(|r: RequestView| r.data.len() > 0 && r.data[0] == 1).len(),
    decreases reqs.len(),
{
    reveal(Seq::filter);
    if reqs.len() > 0 {
        law_writes_are_counted(reqs.drop_last());
    }
}

/// A key that no request of a run writes has what it had before the run.
#[verifier::rlimit(60)]
pub proof fn law_unwritten_keys_stay(
    db: Map<Seq<u8>, Seq<u8>>,
    reqs: Seq<RequestView>,
    k: Seq<u8>,
)
    requires
        forall|j: int|
            0 <= j < reqs.len() && is_put((#[trigger] reqs[j]).data) ==> wire::body_key(reqs[j].data)
                != k,
    ensures
        table_after(db, reqs).contains_key(k) <==> db.contains_key(k),
        db.contains_key(k) ==> table_after(db, reqs)[k] == db[k],
    decreases reqs.len(),
{
    if reqs.len() > 0 {
        let front = reqs.drop_last();
        assert forall|j: int|
            0 <= j < front.len() && is_put((#[trigger] front[j]).data) implies wire::body_key(
            front[j].data,
        ) != k by {
            assert(reqs[j] == front[j]);
        }
        law_unwritten_keys_stay(db, front, k);
        assert(reqs[reqs.len() - 1] == reqs.last());
    }
}

/// A key that is written has, after any run of requests, the value of its last
/// write in the run, all of it.
#[verifier::rlimit(60)]
pub proof fn law_last_write_stays(db: Map<Seq<u8>, Seq<u8>>, reqs: Seq<RequestView>, i: int)
    requires
        0 <= i < reqs.len(),
        is_put(reqs[i].data),
        forall|j: int|
            i < j < reqs.len() && is_put((#[trigger] reqs[j]).data) ==> wire::body_key(reqs[j].data)
                != wire::body_key(reqs[i].data),
    ensures
        table_after(db, reqs).contains_key(wire::body_key(reqs[i].data)),
        table_after(db, reqs)[wire::body_key(reqs[i].data)] == wire::body_val(reqs[i].data),
    decreases reqs.len(),
{
    let n = reqs.len() - 1;
    let front = reqs.drop_last();
    if i < n {
        assert(front[i] == reqs[i]);
        assert forall|j: int|
            i < j < front.len() && is_put((#[trigger] front[j]).data) implies wire::body_key(
            front[j].data,
        ) != wire::body_key(front[i].data) by {
            assert(reqs[j] == front[j]);
        }
        law_last_write_stays(db, front, i);
        assert(reqs[n] == reqs.last());
    }
}

/// What every request of a batch is answered, whatever its place: a write that it
/// took effect, an unknown opcode that it is unknown, and a read with the value
/// of the last write of its key in front of it in the batch, or, if there is
/// none, with what the table held before the batch. Everything else about the
/// requests stays as it was, and the numbers cover the writes.
#[verifier::rlimit(60)]
pub proof fn law_every_request_is_answered(
    db: Map<Seq<u8>, Seq<u8>>,
    lsn: u64,
    b: BatchView,
    i: int,
)
    requires
        0 <= i < b.items.len(),
        b.items[i].data.len() >= 1,
        lsn + puts(b.items) <= u64::MAX,
    ensures
        ({
            let a = applied(db, lsn, b);
            let data = b.items[i].data;
            let key = wire::body_key(data);
            &&& a.items.len() == b.items.len()
            &&& a.items[i].data == data
            &&& a.items[i].reply == b.items[i].reply
            &&& data[0] == 1 ==> a.items[i].resp == Some(RespView::Okay)
            &&& data[0] > 1 ==> a.items[i].resp == Some(RespView::UnknownOp)
            &&& data[0] == 0 && (forall|j: int|
                0 <= j < i && is_put((#[trigger] b.items[j]).data) ==> wire::body_key(
                    b.items[j].data,
                ) != key) ==> a.items[i].resp == Some(
                if db.contains_key(key) {
                    RespView::Value(db[key])
                } else {
                    RespView::Miss
                },
            )
            &&& data[0] == 0 ==> forall|p: int|
                0 <= p < i && is_put((#[trigger] b.items[p]).data) && wire::body_key(
                    b.items[p].data,
                ) == key && (forall|j: int|
                    p < j < i && is_put((#[trigger] b.items[j]).data) ==> wire::body_key(
                        b.items[j].data,
                    ) != key) ==> a.items[i].resp == Some(
                    RespView::Value(wire::body_val(b.items[p].data)),
                )
            &&& a.out == b.out
            &&& a.lsn_low == lsn
            &&& a.lsn_hi == lsn + b.items.filter(
                |r: RequestView| r.data.len() > 0 && r.data[0] == 1,
            ).len()
        }),
{
    let data = b.items[i].data;
    let key = wire::body_key(data);
    let front = b.items.take(i);
    let a = applied(db, lsn, b);
    law_writes_are_counted(b.items);
    if data[0] == 0 {
        if forall|j: int|
            0 <= j < i && is_put((#[trigger] b.items[j]).data) ==> wire::body_key(b.items[j].data)
                != key {
            assert forall|j: int|
                0 <= j < front.len() && is_put((#[trigger] front[j]).data) implies wire::body_key(
                front[j].data,
            ) != key by {
                assert(b.items[j] == front[j]);
            }
            law_unwritten_keys_stay(db, front, key);
        }
        assert forall|p: int|
            0 <= p < i && is_put((#[trigger] b.items[p]).data) && wire::body_key(b.items[p].data)
                == key && (forall|j: int|
                p < j < i && is_put((#[trigger] b.items[j]).data) ==> wire::body_key(
                    b.items[j].data,
                ) != key) implies a.items[i].resp == Some(
            RespView::Value(wire::body_val(b.items[p].data)),
        ) by {
            assert(front[p] == b.items[p]);
            assert forall|j: int|
                p < j < front.len() && is_put((#[trigger] front[j]).data) implies wire::body_key(
                front[j].data,
            ) != wire::body_key(front[p].data) by {
                assert(b.items[j] == front[j]);
            }
            law_last_write_stays(db, front, p);
        }
    }
}

/// What is logged: one record for every write, in order, with its whole body,
/// numbered one by one from the number after `lsn`; and nothing else.
#[verifier::rlimit(60)]
pub proof fn law_log_holds_every_write(lsn: nat, reqs: Seq<RequestView>)
    ensures
        ({
            let ws = reqs.filter(|r: RequestView| r.data.len() > 0 && r.data[0] == 1);
            redo(lsn, reqs) == Seq::new(
                ws.len(),
                |i: int| wal_format::record_bytes((lsn + 1 + i) as u64, ws[i].data),
            ).flatten()
        }),
    decreases reqs.len(),
{
    reveal(Seq::filter);
    let p = |r: RequestView| r.data.len() > 0 && r.data[0] == 1;
    let ws = reqs.filter(p);
    let rec = |i: int| wal_format::record_bytes((lsn + 1 + i) as u64, ws[i].data);
    let recs = Seq::new(ws.len(), rec);
    if reqs.len() > 0 {
        let front = reqs.drop_last();
        let ws0 = front.filter(p);
        law_log_holds_every_write(lsn, front);
        law_writes_are_counted(reqs);
        let recs0 = Seq::new(
            ws0.len(),
            |i: int| wal_format::record_bytes((lsn + 1 + i) as u64, ws0[i].data),
        );
        if p(reqs.last()) {
            let last = wal_format::record_bytes((lsn + puts(reqs)) as u64, reqs.last().data);
            assert(recs =~= recs0.push(last));
            recs0.lemma_flatten_push(last);
        } else {
            assert(recs =~= recs0);
        }
    } else {
        assert(recs =~= seq![]);
        assert(recs.flatten() =~= seq![]);
    }
}

/// Applying with the log records is applying, and the records of the batch's
/// writes behind the log bytes it had; a run of requests can be handled exactly
/// if every one of them can.
pub proof fn law_records_go_with_the_batch(
    db: Map<Seq<u8>, Seq<u8>>,
    lsn: u64,
    b: BatchView,
)
    ensures
        applied_with_redo(db, lsn, b).items == applied(db, lsn, b).items,
        applied_with_redo(db, lsn, b).lsn_low == applied(db, lsn, b).lsn_low,
        applied_with_redo(db, lsn, b).lsn_hi == applied(db, lsn, b).lsn_hi,
        applied_with_redo(db, lsn, b).out == b.out + redo(lsn as nat, b.items),
        all_answerable(b.items) <==> (forall|i: int|
            0 <= i < b.items.len() ==> answerable((#[trigger] b.items[i]).data)),
        all_have_op(b.items) <==> (forall|i: int|
            0 <= i < b.items.len() ==> (#[trigger] b.items[i]).data.len() >= 1),
{
}

} // verus!
