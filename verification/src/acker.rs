//! Which responses may be sent when.

use vstd::prelude::*;

use crate::args::Mode;
use crate::types;
use crate::types::{Batch, BatchView, Request, RequestView};
use crate::wire::{Resp, RespView};

verus! {

/// Durability guarantees, in order: each implies the ones before it.
#[derive(Debug, Clone, Copy, PartialEq, Eq, PartialOrd, Ord, Structural)]
pub enum AckPoint {
    /// Applied to the table in memory; lost in any crash.
    Applied,
    /// Handed to the kernel; survives a crash of the process.
    Written,
    /// Flushed to stable storage; survives a power loss.
    Durable,
}

impl AckPoint {
    /// The place in the order.
    pub open spec fn rank(self) -> nat {
        match self {
            AckPoint::Applied => 1,
            AckPoint::Written => 2,
            AckPoint::Durable => 3,
        }
    }

    /// The guarantee that a mode asks for.
    pub open spec fn of_mode(mode: Mode) -> AckPoint {
        match mode {
            Mode::NoFsync => AckPoint::Applied,
            Mode::Async => AckPoint::Written,
            Mode::Sync => AckPoint::Durable,
        }
    }

    /// True when this guarantee is met once `reached` is.
    pub fn met_by(self, reached: AckPoint) -> (r: bool)
        ensures
            r == (self.rank() <= reached.rank()),
    {
        match (self, reached) {
            (AckPoint::Applied, _) => true,
            (AckPoint::Written, AckPoint::Applied) => false,
            (AckPoint::Written, _) => true,
            (AckPoint::Durable, AckPoint::Durable) => true,
            (AckPoint::Durable, _) => false,
        }
    }
}

impl From<Mode> for AckPoint {
    fn from(value: Mode) -> (r: Self) {
        match value {
            Mode::NoFsync => AckPoint::Applied,
            Mode::Async => AckPoint::Written,
            Mode::Sync => AckPoint::Durable,
        }
    }
}

impl vstd::std_specs::convert::FromSpecImpl<Mode> for AckPoint {
    open spec fn obeys_from_spec() -> bool {
        true
    }

    open spec fn from_spec(v: Mode) -> Self {
        AckPoint::of_mode(v)
    }
}

/// The guarantee that a request waits for: reads are good from memory, writes
/// wait for the configured one.
pub open spec fn required_level(level: AckPoint, data: Seq<u8>) -> AckPoint {
    if types::is_put(data) {
        level
    } else {
        AckPoint::Applied
    }
}

/// The request's guarantee is met once `reached` is.
pub open spec fn due(level: AckPoint, data: Seq<u8>, reached: AckPoint) -> bool {
    required_level(level, data).rank() <= reached.rank()
}

/// A response on its way to a connection.
pub struct Reply {
    pub to: u64,
    pub resp: Resp,
}

/// A reply with its bytes as a sequence.
pub struct ReplyView {
    pub to: u64,
    pub resp: RespView,
}

impl View for Reply {
    type V = ReplyView;

    open spec fn view(&self) -> ReplyView {
        ReplyView { to: self.to, resp: self.resp@ }
    }
}

/// The views of a run of replies.
pub open spec fn replies(rs: Seq<Reply>) -> Seq<ReplyView> {
    rs.map_values(|r: Reply| r@)
}

/// The request once `reached` is: its response has gone out if it was due.
pub open spec fn request_after(level: AckPoint, req: RequestView, reached: AckPoint) -> RequestView {
    if due(level, req.data, reached) {
        RequestView { resp: None, ..req }
    } else {
        req
    }
}

/// The batch once `reached` is.
pub open spec fn batch_after(level: AckPoint, b: BatchView, reached: AckPoint) -> BatchView {
    BatchView {
        items: b.items.map_values(|req: RequestView| request_after(level, req, reached)),
        ..b
    }
}

/// The responses that go out once `reached` is, in the order of the requests.
pub open spec fn sent(level: AckPoint, reqs: Seq<RequestView>, reached: AckPoint) -> Seq<ReplyView>
    decreases reqs.len(),
{
    if reqs.len() == 0 {
        seq![]
    } else {
        let before = sent(level, reqs.drop_last(), reached);
        let req = reqs.last();
        match req.resp {
            Some(resp) if due(level, req.data, reached) => before.push(
                ReplyView { to: req.reply, resp },
            ),
            _ => before,
        }
    }
}

/// No request of the batch waits for its response to go out.
pub open spec fn settled(b: BatchView) -> bool {
    forall|i: int| 0 <= i < b.items.len() ==> (#[trigger] b.items[i]).resp is None
}

/// Decides when responses go out.
#[derive(Debug, Clone, Copy)]
pub struct Acker {
    level: AckPoint,
}

impl Acker {
    /// The guarantee that writes wait for.
    pub closed spec fn level(self) -> AckPoint {
        self.level
    }

    /// An acker for a durability mode.
    pub fn new(mode: Mode) -> (r: Self)
        ensures
            r.level() == AckPoint::of_mode(mode),
            mode is NoFsync ==> r.level() is Applied,
            mode is Async ==> r.level() is Written,
            mode is Sync ==> r.level() is Durable,
    {
        Acker { level: AckPoint::from(mode) }
    }

    /// The guarantee that a request waits for.
    pub fn required(&self, req: &Request) -> (r: AckPoint)
        requires
            req.data@.len() >= 1,
        ensures
            r == required_level(self.level(), req.data@),
            req.data@[0] == 1 ==> r == self.level(),
            req.data@[0] != 1 ==> r is Applied,
    {
        if req.is_read_only() {
            AckPoint::Applied
        } else {
            self.level
        }
    }

    /// Takes every response whose guarantee is met by `reached` out of the batch
    /// and returns them, for sending, in the order of the requests.
    pub fn advance(&self, batch: &mut Batch, reached: AckPoint) -> (r: Vec<Reply>)
        requires
            types::all_have_op(old(batch)@.items),
        ensures
            final(batch)@ == batch_after(self.level(), old(batch)@, reached),
            replies(r@) == sent(self.level(), old(batch)@.items, reached),
    {
        let ghost reqs = batch@.items;
        let mut out: Vec<Reply> = Vec::new();
        let n = batch.items.len();
        let mut i: usize = 0;
        assert(reqs.take(0) =~= seq![]);
        assert(replies(out@) =~= seq![]);
        while i < n
            invariant
                n == batch.items@.len() == reqs.len(),
                i <= n,
                types::all_have_op(reqs),
                forall|j: int|
                    0 <= j < i ==> (#[trigger] batch.items@[j])@ == request_after(
                        self.level(),
                        reqs[j],
                        reached,
                    ),
                forall|j: int| i <= j < n ==> (#[trigger] batch.items@[j])@ == reqs[j],
                replies(out@) == sent(self.level(), reqs.take(i as int), reached),
                batch.out == old(batch).out,
                batch.lsn_low == old(batch).lsn_low,
                batch.lsn_hi == old(batch).lsn_hi,
            decreases n - i,
        {
            let ghost before = out@;
            assert(batch.items@[i as int]@ == reqs[i as int]);
            assert(reqs.take(i + 1).drop_last() =~= reqs.take(i as int));
            if self.required(&batch.items[i]).met_by(reached) {
                let to = batch.items[i].reply;
                if let Some(resp) = batch.items[i].resp.take() {
                    out.push(Reply { to, resp });
                    assert(replies(out@) =~= replies(before).push(out@.last()@));
                }
            }
            i = i + 1;
        }
        proof {
            assert(reqs.take(n as int) =~= reqs);
            assert(batch@ =~= batch_after(self.level(), old(batch)@, reached));
        }
        out
    }

    /// True when every response of the batch has gone out.
    pub fn is_settled(&self, batch: &Batch) -> (r: bool)
        ensures
            r == settled(batch@),
            r <==> (forall|i: int|
                0 <= i < batch.items@.len() ==> (#[trigger] batch.items@[i]).resp is None),
    {
        let n = batch.items.len();
        let mut i: usize = 0;
        while i < n
            invariant
                n == batch.items@.len(),
                i <= n,
                forall|j: int| 0 <= j < i ==> (#[trigger] batch@.items[j]).resp is None,
            decreases n - i,
        {
            assert(batch@.items[i as int] == batch.items@[i as int]@);
            if batch.items[i].resp.is_some() {
                return false;
            }
            i = i + 1;
        }
        assert forall|j: int| 0 <= j < n implies (#[trigger] batch.items@[j]).resp is None by {
            assert(batch@.items[j] == batch.items@[j]@);
        }
        true
    }
}

/// A higher guarantee implies the lower ones: whatever may go out at one point
/// may go out at any later one.
pub proof fn law_levels_imply_lower(
    level: AckPoint,
    data: Seq<u8>,
    reached: AckPoint,
    later: AckPoint,
)
    requires
        reached.rank() <= later.rank(),
    ensures
        due(level, data, reached) ==> due(level, data, later),
{
}

/// Once a batch is durable it owes nobody anything, whatever the mode.
pub proof fn law_durable_settles(level: AckPoint, b: BatchView)
    ensures
        settled(batch_after(level, b, AckPoint::Durable)),
{
}

/// Reads never wait: they may go out as soon as the batch is applied.
pub proof fn law_reads_never_wait(level: AckPoint, data: Seq<u8>, reached: AckPoint)
    requires
        !types::is_put(data),
    ensures
        due(level, data, reached),
{
}

/// In `Sync` mode no write is acknowledged before it is durable; in `Async` mode
/// none before it is written; in `NoFsync` mode none has to wait.
pub proof fn law_writes_wait_for_their_mode(mode: Mode, data: Seq<u8>, reached: AckPoint)
    requires
        types::is_put(data),
    ensures
        mode is Sync ==> (due(AckPoint::of_mode(mode), data, reached) <==> reached is Durable),
        mode is Async ==> (due(AckPoint::of_mode(mode), data, reached) <==> !(reached is Applied)),
        mode is NoFsync ==> due(AckPoint::of_mode(mode), data, reached),
{
}

/// A response goes out once: reaching the same point again, or an earlier one,
/// sends nothing more.
pub proof fn law_each_response_once(
    level: AckPoint,
    reqs: Seq<RequestView>,
    reached: AckPoint,
    again: AckPoint,
)
    requires
        again.rank() <= reached.rank(),
    ensures
        sent(
            level,
            reqs.map_values(|req: RequestView| request_after(level, req, reached)),
            again,
        ) == Seq::<ReplyView>::empty(),
    decreases reqs.len(),
{
    let after = reqs.map_values(|req: RequestView| request_after(level, req, reached));
    if reqs.len() > 0 {
        law_each_response_once(level, reqs.drop_last(), reached, again);
        assert(after.drop_last() =~= reqs.drop_last().map_values(
            |req: RequestView| request_after(level, req, reached),
        ));
        assert(after.last() == request_after(level, reqs.last(), reached));
    }
}

/// The number of requests that still have a response.
pub open spec fn owed(reqs: Seq<RequestView>) -> nat
    decreases reqs.len(),
{
    if reqs.len() == 0 {
        0
    } else {
        owed(reqs.drop_last()) + if reqs.last().resp is Some {
            1nat
        } else {
            0nat
        }
    }
}

/// No response is lost: each one either went out or is still in the batch.
pub proof fn law_no_response_lost(level: AckPoint, b: BatchView, reached: AckPoint)
    ensures
        owed(b.items) == sent(level, b.items, reached).len() + owed(
            batch_after(level, b, reached).items,
        ),
    decreases b.items.len(),
{
    if b.items.len() > 0 {
        let front = BatchView { items: b.items.drop_last(), ..b };
        law_no_response_lost(level, front, reached);
        assert(batch_after(level, b, reached).items.drop_last() =~= batch_after(
            level,
            front,
            reached,
        ).items);
    }
}

/// Exactly what goes out, and to whom: of the requests that still hold a
/// response and whose guarantee is met, in order, each one's own response to its
/// own connection. Reads are good at any point; writes as soon as the configured
/// point is reached.
pub proof fn law_each_response_goes_where_it_belongs(
    level: AckPoint,
    reqs: Seq<RequestView>,
    reached: AckPoint,
)
    ensures
        sent(level, reqs, reached) == reqs.filter(
            |r: RequestView|
                r.resp is Some && (!(r.data.len() > 0 && r.data[0] == 1) || level is Applied
                    || reached is Durable || (level is Written && reached is Written)),
        ).map_values(|r: RequestView| ReplyView { to: r.reply, resp: r.resp->0 }),
    decreases reqs.len(),
{
    reveal(Seq::filter);
    let p = |r: RequestView|
        r.resp is Some && (!(r.data.len() > 0 && r.data[0] == 1) || level is Applied
            || reached is Durable || (level is Written && reached is Written));
    let f = |r: RequestView| ReplyView { to: r.reply, resp: r.resp->0 };
    if reqs.len() > 0 {
        let front = reqs.drop_last();
        law_each_response_goes_where_it_belongs(level, front, reached);
        if p(reqs.last()) {
            assert(front.filter(p).push(reqs.last()).map_values(f) =~= front.filter(p).map_values(
                f,
            ).push(f(reqs.last())));
        }
    } else {
        assert(reqs.filter(p).map_values(f) =~= seq![]);
    }
}

/// What is left in the batch: every request in its place, with its body and its
/// connection; its response too, unless its guarantee is met. The log bytes and
/// the numbering stay.
pub proof fn law_what_is_not_due_stays(level: AckPoint, b: BatchView, reached: AckPoint, i: int)
    requires
        0 <= i < b.items.len(),
    ensures
        ({
            let a = batch_after(level, b, reached);
            let r = b.items[i];
            let met = !(r.data.len() > 0 && r.data[0] == 1) || level is Applied
                || reached is Durable || (level is Written && reached is Written);
            &&& a.items.len() == b.items.len()
            &&& a.items[i].data == r.data
            &&& a.items[i].reply == r.reply
            &&& a.items[i].resp == if met {
                None
            } else {
                r.resp
            }
            &&& a.out == b.out
            &&& a.lsn_low == b.lsn_low
            &&& a.lsn_hi == b.lsn_hi
        }),
{
}

/// A reply's view is the reply, and a run of them keeps its order.
pub proof fn law_reply_views(rs: Seq<Reply>, i: int)
    requires
        0 <= i < rs.len(),
    ensures
        replies(rs).len() == rs.len(),
        replies(rs)[i].to == rs[i].to,
        replies(rs)[i].resp == rs[i].resp@,
{
}

} // verus!
