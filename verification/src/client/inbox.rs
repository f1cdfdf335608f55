//! Responses matched to the calls that wait for them.

use std::collections::VecDeque;

use vstd::prelude::*;

use crate::client::reader;
use crate::client::reader::FrameReader;
use crate::stage1;
use crate::wire::{Resp, RespView};

verus! {

/// The reading side of a connection: bytes that came, and the calls that wait,
/// first in first out.
pub struct Inbox {
    framer: FrameReader,
    waiting: VecDeque<u64>,
    dead: bool,
}

/// An inbox with its contents as sequences.
#[verifier::ext_equal]
pub struct InboxView {
    pub buf: Seq<u8>,
    pub waiting: Seq<u64>,
    pub dead: bool,
}

impl View for Inbox {
    type V = InboxView;

    closed spec fn view(&self) -> InboxView {
        InboxView { buf: self.framer@, waiting: self.waiting@, dead: self.dead }
    }
}

/// A call with the response that belongs to it.
pub struct Answer {
    pub id: u64,
    pub resp: Resp,
}

impl InboxView {
    /// The inbox of a new connection.
    pub open spec fn fresh() -> InboxView {
        InboxView { buf: seq![], waiting: seq![], dead: false }
    }

    /// After a call was made.
    pub open spec fn expecting(self, id: u64) -> InboxView {
        InboxView { waiting: self.waiting.push(id), ..self }
    }

    /// After bytes came.
    pub open spec fn fed(self, data: Seq<u8>) -> InboxView {
        InboxView { buf: self.buf + data, ..self }
    }

    /// A response is complete and a call waits for it.
    pub open spec fn has_answer(self) -> bool {
        self.waiting.len() > 0 && reader::has_frame(self.buf)
    }

    /// The next answer: the call that has waited longest, and the first response.
    pub open spec fn answer(self) -> (u64, RespView) {
        (self.waiting[0], reader::first_response(self.buf))
    }

    /// After the next answer was taken, if there was one.
    pub open spec fn taken(self) -> InboxView {
        if self.has_answer() {
            InboxView {
                buf: self.buf.skip(reader::frame_len(self.buf)),
                waiting: self.waiting.skip(1),
                ..self
            }
        } else {
            self
        }
    }
}

impl Inbox {
    /// The inbox of a new connection.
    pub fn new() -> (r: Self)
        ensures
            r@ == InboxView::fresh(),
    {
        Inbox { framer: FrameReader::new(), waiting: VecDeque::new(), dead: false }
    }

    /// A call is about to be written: its response is awaited behind those of
    /// the calls before it.
    pub fn expect(&mut self, id: u64)
        ensures
            final(self)@ == old(self)@.expecting(id),
            final(self)@.waiting == old(self)@.waiting.push(id),
            final(self)@.buf == old(self)@.buf,
            final(self)@.dead == old(self)@.dead,
    {
        self.waiting.push_back(id);
    }

    /// Adds bytes that came from the socket.
    pub fn feed(&mut self, data: &[u8])
        ensures
            final(self)@ == old(self)@.fed(data@),
            final(self)@.buf == old(self)@.buf + data@,
            final(self)@.waiting == old(self)@.waiting,
            final(self)@.dead == old(self)@.dead,
    {
        self.framer.feed(data);
    }

    /// The next response that is complete, with the call that has waited longest;
    /// `None` if no response is complete or no call waits.
    pub fn next_answer(&mut self) -> (r: Option<Answer>)
        ensures
            r is Some <==> old(self)@.has_answer(),
            r matches Some(a) ==> (a.id, a.resp@) == old(self)@.answer(),
            final(self)@ == old(self)@.taken(),
            r matches Some(a) ==> {
                &&& old(self)@.waiting == seq![a.id] + final(self)@.waiting
                &&& reader::responses(old(self)@.buf) == seq![a.resp@] + reader::responses(
                    final(self)@.buf,
                )
            },
            r is None ==> final(self)@ == old(self)@,
            final(self)@.dead == old(self)@.dead,
    {
        if self.waiting.len() == 0 {
            return None;
        }
        match self.framer.try_extract() {
            None => None,
            Some(resp) => match self.waiting.pop_front() {
                None => None,
                Some(id) => {
                    assert(self.waiting@ =~= old(self)@.waiting.skip(1));
                    Some(Answer { id, resp })
                },
            },
        }
    }

    /// True once the connection was given up.
    pub fn is_dead(&self) -> (r: bool)
        ensures
            r == self@.dead,
    {
        self.dead
    }

    /// The connection is lost: returns the calls that will get no response, in
    /// the order in which they were made.
    pub fn close(&mut self) -> (lost: Vec<u64>)
        ensures
            lost@ == old(self)@.waiting,
            final(self)@ == (InboxView { waiting: seq![], dead: true, ..old(self)@ }),
    {
        self.dead = true;
        let mut lost: Vec<u64> = Vec::new();
        let ghost all = self.waiting@;
        let ghost buf = self.framer@;
        while self.waiting.len() > 0
            invariant
                all == lost@ + self.waiting@,
                self.dead,
                self.framer@ == buf,
            decreases self.waiting@.len(),
        {
            if let Some(id) = self.waiting.pop_front() {
                lost.push(id);
                assert(lost@ + self.waiting@ =~= all);
            }
        }
        assert(lost@ =~= all);
        assert(self.waiting@ =~= seq![]);
        lost
    }
}

/// The answers that come out of an inbox when it is drained.
pub open spec fn answers(buf: Seq<u8>, waiting: Seq<u64>) -> Seq<(u64, RespView)>
    decreases waiting.len(),
{
    if waiting.len() > 0 && reader::has_frame(buf) {
        seq![(waiting[0], reader::first_response(buf))] + answers(
            buf.skip(reader::frame_len(buf)),
            waiting.skip(1),
        )
    } else {
        seq![]
    }
}

/// Draining pairs the responses with the calls one by one, as far as both go.
proof fn lemma_answers_pair_up(buf: Seq<u8>, waiting: Seq<u64>)
    ensures
        ({
            let rs = reader::responses(buf);
            let n = if rs.len() < waiting.len() {
                rs.len()
            } else {
                waiting.len()
            };
            &&& answers(buf, waiting).len() == n
            &&& forall|i: int|
                0 <= i < n ==> #[trigger] answers(buf, waiting)[i] == (waiting[i], rs[i])
        }),
    decreases waiting.len(),
{
    if waiting.len() > 0 && reader::has_frame(buf) {
        let rest = buf.skip(reader::frame_len(buf));
        lemma_answers_pair_up(rest, waiting.skip(1));
        let rs = reader::responses(buf);
        let rs1 = reader::responses(rest);
        assert(rs =~= seq![reader::first_response(buf)] + rs1);
        assert forall|i: int| 0 <= i < answers(buf, waiting).len() implies #[trigger] answers(
            buf,
            waiting,
        )[i] == (waiting[i], rs[i]) by {
            if i > 0 {
                assert(answers(rest, waiting.skip(1))[i - 1] == (waiting.skip(1)[i - 1], rs1[i - 1]));
            }
        }
    }
}

/// Pipelined calls get their own responses: if the server answers the waiting
/// calls in order, each call is handed the response that was meant for it.
pub proof fn law_each_call_gets_its_response(waiting: Seq<u64>, rs: Seq<RespView>)
    requires
        waiting.len() == rs.len(),
        forall|i: int| 0 <= i < rs.len() ==> reader::frame_fits(#[trigger] rs[i]),
    ensures
        answers(stage1::response_stream(rs), waiting) == Seq::new(
            rs.len(),
            |i: int| (waiting[i], rs[i]),
        ),
{
    let stream = stage1::response_stream(rs);
    reader::law_responses_come_back_in_order(rs, seq![]);
    assert(stream + seq![] =~= stream);
    assert(reader::responses(seq![]) =~= seq![]);
    assert(rs + reader::responses(seq![]) =~= rs);
    lemma_answers_pair_up(stream, waiting);
    assert(answers(stream, waiting) =~= Seq::new(rs.len(), |i: int| (waiting[i], rs[i])));
}

/// Something that happens to an inbox.
pub enum Step {
    /// A call is made.
    Expect(u64),
    /// Bytes come.
    Feed(Seq<u8>),
    /// The next answer is asked for.
    Take,
}

/// The inbox after a run of steps.
pub open spec fn stepped(steps: Seq<Step>) -> InboxView
    decreases steps.len(),
{
    if steps.len() == 0 {
        InboxView::fresh()
    } else {
        let st = stepped(steps.drop_last());
        match steps.last() {
            Step::Expect(id) => st.expecting(id),
            Step::Feed(data) => st.fed(data),
            Step::Take => st.taken(),
        }
    }
}

/// The answers that a run of steps hands out.
pub open spec fn handed_out(steps: Seq<Step>) -> Seq<(u64, RespView)>
    decreases steps.len(),
{
    if steps.len() == 0 {
        seq![]
    } else {
        let before = handed_out(steps.drop_last());
        let st = stepped(steps.drop_last());
        if steps.last() is Take && st.has_answer() {
            before.push(st.answer())
        } else {
            before
        }
    }
}

/// All calls that are made in a run of steps.
pub open spec fn all_expected(steps: Seq<Step>) -> Seq<u64>
    decreases steps.len(),
{
    if steps.len() == 0 {
        seq![]
    } else {
        let before = all_expected(steps.drop_last());
        match steps.last() {
            Step::Expect(id) => before.push(id),
            _ => before,
        }
    }
}

/// All bytes that come in a run of steps.
pub open spec fn all_fed(steps: Seq<Step>) -> Seq<u8>
    decreases steps.len(),
{
    if steps.len() == 0 {
        seq![]
    } else {
        let before = all_fed(steps.drop_last());
        match steps.last() {
            Step::Feed(data) => before + data,
            _ => before,
        }
    }
}

/// What was handed out and what is still there make up what came in.
#[verifier::rlimit(60)]
proof fn lemma_steps_keep_everything(steps: Seq<Step>)
    ensures
        ({
            let st = stepped(steps);
            let out = handed_out(steps);
            let all = reader::responses(all_fed(steps));
            &&& all_expected(steps) == out.map_values(|a: (u64, RespView)| a.0) + st.waiting
            &&& all == out.map_values(|a: (u64, RespView)| a.1) + reader::responses(st.buf)
            &&& reader::leftover(all_fed(steps)) == reader::leftover(st.buf)
        }),
    decreases steps.len(),
{
    let ids = |a: (u64, RespView)| a.0;
    let resps = |a: (u64, RespView)| a.1;
    if steps.len() == 0 {
        let st = stepped(steps);
        let out = handed_out(steps);
        assert(all_expected(steps) =~= out.map_values(ids) + st.waiting);
        assert(reader::responses(all_fed(steps)) =~= out.map_values(resps) + reader::responses(
            st.buf,
        ));
    } else {
        let front = steps.drop_last();
        let st = stepped(front);
        let out = handed_out(front);
        lemma_steps_keep_everything(front);
        match steps.last() {
            Step::Expect(id) => {
                assert(all_expected(front).push(id) =~= out.map_values(ids) + st.waiting.push(id));
            },
            Step::Feed(data) => {
                reader::law_reads_may_be_cut_anywhere(all_fed(front), data);
                reader::law_reads_may_be_cut_anywhere(st.buf, data);
                let more = reader::responses(reader::leftover(st.buf) + data);
                assert((out.map_values(resps) + reader::responses(st.buf)) + more
                    =~= out.map_values(resps) + (reader::responses(st.buf) + more));
            },
            Step::Take => {
                if st.has_answer() {
                    let a = st.answer();
                    let rest = reader::responses(st.taken().buf);
                    assert(out.push(a).map_values(ids) =~= out.map_values(ids).push(a.0));
                    assert(out.push(a).map_values(resps) =~= out.map_values(resps).push(a.1));
                    assert(st.waiting =~= seq![a.0] + st.waiting.skip(1));
                    assert(out.map_values(ids) + st.waiting =~= out.push(a).map_values(ids)
                        + st.waiting.skip(1));
                    assert(out.map_values(resps) + (seq![a.1] + rest) =~= out.push(a).map_values(
                        resps,
                    ) + rest);
                }
            },
        }
    }
}

/// What came in is what the steps brought, all of it.
proof fn lemma_what_came_in(steps: Seq<Step>)
    ensures
        all_expected(steps) == steps.filter_map(
            |s: Step|
                match s {
                    Step::Expect(id) => Some(id),
                    _ => None,
                },
        ),
        all_fed(steps) == steps.filter_map(
            |s: Step|
                match s {
                    Step::Feed(data) => Some(data),
                    _ => None,
                },
        ).flatten(),
    decreases steps.len(),
{
    let e = |s: Step|
        match s {
            Step::Expect(id) => Some(id),
            _ => None::<u64>,
        };
    let f = |s: Step|
        match s {
            Step::Feed(data) => Some(data),
            _ => None::<Seq<u8>>,
        };
    if steps.len() == 0 {
        assert(steps.filter_map(f).flatten() =~= seq![]);
    } else {
        let front = steps.drop_last();
        lemma_what_came_in(front);
        match steps.last() {
            Step::Expect(id) => {
                assert(front.filter_map(e) + seq![id] =~= front.filter_map(e).push(id));
            },
            Step::Feed(data) => {
                assert(front.filter_map(f) + seq![data] =~= front.filter_map(f).push(data));
                front.filter_map(f).lemma_flatten_push(data);
            },
            Step::Take => {},
        }
    }
}

/// Answers match calls and responses one by one, however calls, bytes and
/// questions come interleaved: the i-th answer is the i-th call that was made,
/// with the i-th response in all the bytes that came; and there is a next answer
/// as long as both a call and a response are left.
pub proof fn law_answers_match_however_interleaved(steps: Seq<Step>)
    ensures
        ({
            let out = handed_out(steps);
            let made = all_expected(steps);
            let came = reader::responses(all_fed(steps));
            &&& out.len() <= made.len()
            &&& out.len() <= came.len()
            &&& forall|i: int| 0 <= i < out.len() ==> #[trigger] out[i] == (made[i], came[i])
            &&& stepped(steps).has_answer() <==> out.len() < made.len() && out.len() < came.len()
            &&& made == steps.filter_map(
                |s: Step|
                    match s {
                        Step::Expect(id) => Some(id),
                        _ => None,
                    },
            )
            &&& all_fed(steps) == steps.filter_map(
                |s: Step|
                    match s {
                        Step::Feed(data) => Some(data),
                        _ => None,
                    },
            ).flatten()
        }),
{
    let st = stepped(steps);
    let out = handed_out(steps);
    let made = all_expected(steps);
    let came = reader::responses(all_fed(steps));
    lemma_steps_keep_everything(steps);
    lemma_what_came_in(steps);
    let ids = out.map_values(|a: (u64, RespView)| a.0);
    let resps = out.map_values(|a: (u64, RespView)| a.1);
    assert forall|i: int| 0 <= i < out.len() implies #[trigger] out[i] == (made[i], came[i]) by {
        assert(made[i] == ids[i]);
        assert(came[i] == resps[i]);
    }
    assert(reader::responses(st.buf).len() > 0 <==> reader::has_frame(st.buf));
}

/// A server that answers calls in order is understood, however the exchange is
/// interleaved and the stream cut: as soon as the bytes that came begin with the
/// frames of the responses, every answer handed out among the first of them is a
/// call with the response that was meant for it.
pub proof fn law_answers_are_the_servers(steps: Seq<Step>, rs: Seq<RespView>, tail: Seq<u8>, i: int)
    requires
        forall|j: int| 0 <= j < rs.len() ==> reader::frame_fits(#[trigger] rs[j]),
        all_fed(steps) == stage1::response_stream(rs) + tail,
        0 <= i < handed_out(steps).len(),
        i < rs.len(),
    ensures
        handed_out(steps)[i] == (all_expected(steps)[i], rs[i]),
{
    law_answers_match_however_interleaved(steps);
    reader::law_responses_come_back_in_order(rs, tail);
}

} // verus!
