//! Connections: requests are taken out of what a client sends, and the answers are collected until
//! nothing more can be answered.
use crate::buf::{
    allocatable, chunk, contents, extend_from_slice, extended, has_room, len, reserve_buf, split_to,
    topped_up, with_capacity, BUF_LEN,
};
use crate::head::{parse_head, parsed, InvalidData, Outcome};
use crate::request::{
    decode_parsed, decoding, lemma_settled, settled, takes_out, Decoding, Request, MAX_HEADERS,
};
use crate::rounds::{
    after_body, answers_of, bodies_ended, chained, go_through, goes_through, held_at, left_after,
    lemma_held_at, round_done, rounds_chained, rounds_go_through_the_parts,
    turns_go_through_the_buffer, Turn,
};
use bytes::BytesMut;
use vstd::prelude::*;
use vstd::slice::slice_to_vec;

verus! {

/// What is to be done next for a connection.
pub enum Step<'buf> {
    /// The client is done: the connection is to be shut down.
    Shutdown,
    /// A request is to be answered.
    Route(Request<'buf>),
    /// The collected answers are to be sent, and more is to be received.
    Write,
    /// The client sent no request: the connection ends, and nothing more is sent.
    Fail(InvalidData),
}

/// A connection to a client.
pub struct Connection {
    /// What was received and belongs to no request yet.
    pub req_buf: BytesMut,
    /// The answers that were not sent yet.
    pub rsp_buf: BytesMut,
}

impl Connection {
    /// What was received and belongs to no request yet.
    pub open spec fn received(&self) -> Seq<u8> {
        contents(self.req_buf)
    }

    /// The answers that were not sent yet.
    pub open spec fn pending(&self) -> Seq<u8> {
        contents(self.rsp_buf)
    }

    /// A new connection.
    pub fn new() -> (conn: Connection)
        ensures
            conn.received() == Seq::<u8>::empty(),
            conn.pending() == Seq::<u8>::empty(),
            contents(conn.req_buf).len() == 0 && contents(conn.rsp_buf).len() == 0,
            has_room(conn.req_buf, BUF_LEN as int),
            has_room(conn.rsp_buf, BUF_LEN as int),
    {
        Connection { req_buf: with_capacity(BUF_LEN), rsp_buf: with_capacity(BUF_LEN) }
    }

    /// Goes on with what parsing the received bytes came to. Room for the answer to a request is
    /// made before.
    pub fn route_parsed(&mut self, outcome: Outcome) -> (step: Step<'_>)
        requires
            outcome matches Ok(Some((used, head))) ==> used <= old(self).received().len(),
            allocatable(old(self).pending().len() + BUF_LEN as nat),
        ensures
            final(self).pending() == old(self).pending(),
            contents(final(self).rsp_buf) == contents(old(self).rsp_buf),
            match (outcome, step) {
                (Ok(Some((used, head))), Step::Route(req)) => {
                    &&& req.head == head
                    &&& req.post_params is None
                    &&& contents(*req.req_buf) == old(self).received().skip(used as int)
                    &&& final(self).req_buf == *final(req.req_buf)
                    &&& topped_up(old(self).rsp_buf, final(self).rsp_buf)
                },
                (Ok(None), Step::Write) => final(self).req_buf == old(self).req_buf,
                (Err(e), Step::Fail(error)) => {
                    &&& error == e
                    &&& final(self).req_buf == old(self).req_buf
                },
                _ => false,
            },
    {
        match decode_parsed(&mut self.req_buf, outcome) {
            Ok(Some(req)) => {
                reserve_buf(&mut self.rsp_buf);
                Step::Route(req)
            },
            Ok(None) => Step::Write,
            Err(e) => Step::Fail(e),
        }
    }

    /// Takes the next request out of the received bytes.
    pub fn next_request(&mut self) -> (step: Step<'_>)
        requires
            allocatable(old(self).pending().len() + BUF_LEN as nat),
        ensures
            final(self).pending() == old(self).pending(),
            match (decoding(old(self).received()), step) {
                (Decoding::Request(head, rest), Step::Route(req)) => {
                    &&& req.head@ == head
                    &&& req.post_params is None
                    &&& takes_out(old(self).received(), head, rest)
                    &&& contents(*req.req_buf) == rest
                    &&& final(self).req_buf == *final(req.req_buf)
                    &&& topped_up(old(self).rsp_buf, final(self).rsp_buf)
                },
                (Decoding::Incomplete, Step::Write) => {
                    final(self).received() == old(self).received()
                },
                (Decoding::Invalid(message), Step::Fail(error)) => {
                    &&& error.message@ == message
                    &&& final(self).received() == old(self).received()
                },
                _ => false,
            },
            step !is Write ==> settled(old(self).received()),
            contents(final(self).rsp_buf) == contents(old(self).rsp_buf),
            match (parsed(contents(old(self).req_buf), 16), step) {
                (Ok(Some((used, head))), Step::Route(req)) => {
                    &&& 0 < used <= contents(old(self).req_buf).len()
                    &&& contents(old(self).req_buf) == contents(old(self).req_buf).take(used as int)
                        + contents(*req.req_buf)
                    &&& req.head@ == head
                    &&& final(self).req_buf == *final(req.req_buf)
                },
                (Ok(None), Step::Write) => {
                    contents(final(self).req_buf) == contents(old(self).req_buf)
                },
                (Err(message), Step::Fail(error)) => {
                    &&& error.message@ == message
                    &&& contents(final(self).req_buf) == contents(old(self).req_buf)
                },
                _ => false,
            },
    {
        let outcome = parse_head(chunk(&self.req_buf), MAX_HEADERS);
        proof {
            lemma_settled(self.received(), outcome);
        }
        self.route_parsed(outcome)
    }

    /// Takes in what was received. No bytes mean that the client is done.
    pub fn on_read(&mut self, data: &[u8]) -> (step: Step<'_>)
        requires
            allocatable(old(self).received().len() + data@.len()),
            allocatable(old(self).pending().len() + BUF_LEN as nat),
        ensures
            final(self).pending() == old(self).pending(),
            contents(final(self).rsp_buf) == contents(old(self).rsp_buf),
            step is Shutdown <==> data@.len() == 0,
            data@.len() > 0 ==> {
                let given = contents(old(self).req_buf) + data@;
                match (parsed(given, 16), step) {
                    (Ok(Some((used, head))), Step::Route(req)) => {
                        &&& 0 < used <= given.len()
                        &&& given == given.take(used as int) + contents(*req.req_buf)
                        &&& req.head@ == head
                        &&& final(self).req_buf == *final(req.req_buf)
                    },
                    (Ok(None), Step::Write) => contents(final(self).req_buf) == given,
                    (Err(message), Step::Fail(error)) => {
                        &&& error.message@ == message
                        &&& contents(final(self).req_buf) == given
                    },
                    _ => false,
                }
            },
            data@.len() == 0 ==> step is Shutdown && final(self).req_buf == old(self).req_buf,
            data@.len() > 0 && step !is Write ==> settled(old(self).received() + data@),
            data@.len() > 0 ==> {
                let received = old(self).received() + data@;
                match (decoding(received), step) {
                    (Decoding::Request(head, rest), Step::Route(req)) => {
                        &&& req.head@ == head
                        &&& req.post_params is None
                        &&& takes_out(received, head, rest)
                        &&& contents(*req.req_buf) == rest
                        &&& final(self).req_buf == *final(req.req_buf)
                        &&& topped_up(old(self).rsp_buf, final(self).rsp_buf)
                    },
                    (Decoding::Incomplete, Step::Write) => final(self).received() == received,
                    (Decoding::Invalid(message), Step::Fail(error)) => {
                        &&& error.message@ == message
                        &&& final(self).received() == received
                    },
                    _ => false,
                }
            },
    {
        if data.len() == 0 {
            return Step::Shutdown;
        }
        extend_from_slice(&mut self.req_buf, data);
        self.next_request()
    }

    /// Takes in the answer to a request.
    pub fn on_routed(&mut self, rsp: &[u8]) -> (step: Step<'_>)
        requires
            allocatable(old(self).pending().len() + rsp@.len() + BUF_LEN as nat),
        ensures
            final(self).pending() == old(self).pending() + rsp@,
            match (decoding(old(self).received()), step) {
                (Decoding::Request(head, rest), Step::Route(req)) => {
                    &&& req.head@ == head
                    &&& req.post_params is None
                    &&& takes_out(old(self).received(), head, rest)
                    &&& contents(*req.req_buf) == rest
                    &&& final(self).req_buf == *final(req.req_buf)
                    &&& exists|answered: BytesMut| #[trigger]
                        extended(old(self).rsp_buf, answered, rsp@) && topped_up(
                            answered,
                            final(self).rsp_buf,
                        )
                },
                (Decoding::Incomplete, Step::Write) => {
                    final(self).received() == old(self).received()
                },
                (Decoding::Invalid(message), Step::Fail(error)) => {
                    &&& error.message@ == message
                    &&& final(self).received() == old(self).received()
                },
                _ => false,
            },
            step !is Write ==> settled(old(self).received()),
            contents(final(self).rsp_buf) == contents(old(self).rsp_buf) + rsp@,
            match (parsed(contents(old(self).req_buf), 16), step) {
                (Ok(Some((used, head))), Step::Route(req)) => {
                    &&& 0 < used <= contents(old(self).req_buf).len()
                    &&& contents(old(self).req_buf) == contents(old(self).req_buf).take(used as int)
                        + contents(*req.req_buf)
                    &&& req.head@ == head
                    &&& final(self).req_buf == *final(req.req_buf)
                },
                (Ok(None), Step::Write) => {
                    contents(final(self).req_buf) == contents(old(self).req_buf)
                },
                (Err(message), Step::Fail(error)) => {
                    &&& error.message@ == message
                    &&& contents(final(self).req_buf) == contents(old(self).req_buf)
                },
                _ => false,
            },
    {
        extend_from_slice(&mut self.rsp_buf, rsp);
        self.next_request()
    }

    /// Takes out the answers that are to be sent.
    pub fn take_answers(&mut self) -> (answers: BytesMut)
        ensures
            contents(answers) == old(self).pending(),
            final(self).pending() == Seq::<u8>::empty(),
            contents(answers) == contents(old(self).rsp_buf),
            contents(final(self).rsp_buf).len() == 0,
            final(self).req_buf == old(self).req_buf,
    {
        let n: usize = len(&self.rsp_buf);
        split_to(&mut self.rsp_buf, n)
    }
}

/// What happens to the answers of a connection.
pub enum AnswerEvent {
    /// A request was answered with these bytes.
    Answered(Seq<u8>),
    /// The collected answers were taken out and sent.
    Sent,
}

/// The answers that were not sent after some events, when `pending` were not before.
pub open spec fn pending_after(pending: Seq<u8>, events: Seq<AnswerEvent>) -> Seq<u8>
    decreases events.len(),
{
    if events.len() == 0 {
        pending
    } else {
        match events.last() {
            AnswerEvent::Answered(rsp) => pending_after(pending, events.drop_last()) + rsp,
            AnswerEvent::Sent => Seq::empty(),
        }
    }
}

/// All bytes that were sent in some events, when `pending` were not sent before.
pub open spec fn sent_in(pending: Seq<u8>, events: Seq<AnswerEvent>) -> Seq<u8>
    decreases events.len(),
{
    if events.len() == 0 {
        Seq::empty()
    } else {
        let before = sent_in(pending, events.drop_last());
        match events.last() {
            AnswerEvent::Answered(rsp) => before,
            AnswerEvent::Sent => before + pending_after(pending, events.drop_last()),
        }
    }
}

/// All answers that were given in some events, one after the other.
pub open spec fn answers_in(events: Seq<AnswerEvent>) -> Seq<u8>
    decreases events.len(),
{
    if events.len() == 0 {
        Seq::empty()
    } else {
        match events.last() {
            AnswerEvent::Answered(rsp) => answers_in(events.drop_last()) + rsp,
            AnswerEvent::Sent => answers_in(events.drop_last()),
        }
    }
}

/// Answers are sent in the order in which the requests came, each once: what was sent and what is
/// still to be sent are together all answers that were given.
pub proof fn answers_are_sent_in_order(pending: Seq<u8>, events: Seq<AnswerEvent>)
    ensures
        sent_in(pending, events) + pending_after(pending, events) == pending + answers_in(events),
    decreases events.len(),
{
    if events.len() > 0 {
        let head = events.drop_last();
        answers_are_sent_in_order(pending, head);
        if let AnswerEvent::Answered(rsp) = events.last() {
            assert(sent_in(pending, events) + pending_after(pending, events) =~= (sent_in(
                pending,
                head,
            ) + pending_after(pending, head)) + rsp);
        }
    }
}

/// How a round ends in which all requests that were received are answered.
pub enum RoundEnd {
    /// The client is done.
    Shutdown,
    /// All requests were answered, and the answers are to be sent.
    Write,
    /// What follows the requests is no request.
    Fail(InvalidData),
    /// An answer does not fit into memory with those before it.
    Full,
}

/// Whether a request is one that a connection hands to a service.
pub open spec fn presentable(req: Request) -> bool {
    &&& req.head@.headers.len() <= MAX_HEADERS
    &&& req.head@.version <= 1
    &&& req.post_params is None
}

/// Whether a turn may be one of a service that was handed a request: this has the head of the turn,
/// with the bytes received after it, and the service may answer it so.
pub open spec fn takes_turn<F: for<'a> Fn(Request<'a>) -> Vec<u8>>(
    service: F,
    req: Request,
    turn: Turn,
) -> bool {
    &&& req.head@ == turn.head
    &&& contents(*req.req_buf) == turn.rest
    &&& presentable(req)
    &&& call_ensures(service, (req,), turn.answer)
}

/// Whether some turns may be those of a service that was handed some requests, one after the other.
pub open spec fn take_turns<F: for<'a> Fn(Request<'a>) -> Vec<u8>>(
    service: F,
    reqs: Seq<Request>,
    turns: Seq<Turn>,
) -> bool {
    &&& reqs.len() == turns.len()
    &&& forall|i: int| 0 <= i < turns.len() ==> takes_turn(service, reqs[i], #[trigger] turns[i])
}

/// Whether a round ends so after some turns: without a request left the answers are all pending,
/// and where an answer does not fit into memory those before it are.
pub open spec fn round_ends(
    end: RoundEnd,
    turns: Seq<Turn>,
    left: Seq<u8>,
    pending: Seq<u8>,
    pending_then: Seq<u8>,
) -> bool {
    match end {
        RoundEnd::Shutdown => false,
        RoundEnd::Write => {
            &&& decoding(left) is Incomplete
            &&& pending_then == pending + answers_of(turns)
        },
        RoundEnd::Fail(error) => {
            &&& decoding(left) == Decoding::Invalid(error.message@)
            &&& settled(left)
            &&& pending_then == pending + answers_of(turns)
        },
        RoundEnd::Full => {
            &&& turns.len() > 0
            &&& !allocatable(pending.len() + answers_of(turns).len() + BUF_LEN as nat)
            &&& pending_then == pending + answers_of(turns.drop_last())
        },
    }
}

impl Connection {
    /// Takes in what was received and lets a service answer all requests in it, one after the
    /// other. Each turn goes on with what the service left in the buffer; it may take bytes out,
    /// as a reader of the body does, and adds none. A service that ends the body of each request
    /// goes through all requests of the buffer so.
    pub fn serve<F: for<'a> Fn(Request<'a>) -> Vec<u8>>(
        &mut self,
        data: &[u8],
        service: &F,
    ) -> (end: RoundEnd)
        requires
            allocatable(old(self).received().len() + data@.len()),
            allocatable(old(self).pending().len() + BUF_LEN as nat),
            forall|req: Request| presentable(req) ==> #[trigger] call_requires(*service, (req,)),
            forall|req: Request, answer: Vec<u8>|
                presentable(req) && #[trigger] call_ensures(*service, (req,), answer) ==> contents(
                    *final(req.req_buf),
                ).len() <= contents(*req.req_buf).len(),
        ensures
            end is Shutdown <==> data@.len() == 0,
            end is Shutdown ==> final(self).received() == old(self).received()
                && final(self).pending() == old(self).pending(),
            data@.len() > 0 ==> exists|turns: Seq<Turn>, reqs: Seq<Request>|
                {
                    &&& #[trigger] chained(old(self).received() + data@, turns)
                    &&& final(self).received() == left_after(old(self).received() + data@, turns)
                    &&& round_ends(
                        end,
                        turns,
                        final(self).received(),
                        old(self).pending(),
                        final(self).pending(),
                    )
                    &&& #[trigger] take_turns(*service, reqs, turns)
                    &&& forall|i: int|
                        0 <= i < turns.len() ==> (#[trigger] turns[i]).left == contents(
                            *final(reqs[i].req_buf),
                        )
                    &&& (forall|req: Request, answer: Vec<u8>|
                        presentable(req) && #[trigger] call_ensures(*service, (req,), answer)
                            ==> contents(*final(req.req_buf)) == after_body(
                            req.head@,
                            contents(*req.req_buf),
                        )) && end !is Full ==> goes_through(
                        old(self).received() + data@,
                        turns,
                    )
                },
    {
        let (end, Ghost(turns), Ghost(reqs)) = self.serve_round(data, service);
        proof {
            let received = old(self).received() + data@;
            if data@.len() > 0 && bodies_ended(turns) && end !is Full {
                turns_go_through_the_buffer(received, turns);
            }
            assert(data@.len() > 0 ==> take_turns(*service, reqs, turns));
        }
        end
    }

    /// [`Connection::serve`] with the turns of the service.
    fn serve_round<F: for<'a> Fn(Request<'a>) -> Vec<u8>>(
        &mut self,
        data: &[u8],
        service: &F,
    ) -> (result: (RoundEnd, Ghost<Seq<Turn>>, Ghost<Seq<Request<'static>>>))
        requires
            allocatable(old(self).received().len() + data@.len()),
            allocatable(old(self).pending().len() + BUF_LEN as nat),
            forall|req: Request| presentable(req) ==> #[trigger] call_requires(*service, (req,)),
            forall|req: Request, answer: Vec<u8>|
                presentable(req) && #[trigger] call_ensures(*service, (req,), answer) ==> contents(
                    *final(req.req_buf),
                ).len() <= contents(*req.req_buf).len(),
        ensures
            ({
                let (end, Ghost(turns), Ghost(reqs)) = result;
                let received = old(self).received() + data@;
                &&& end is Shutdown <==> data@.len() == 0
                &&& end is Shutdown ==> final(self).received() == old(self).received()
                    && final(self).pending() == old(self).pending()
                &&& data@.len() > 0 ==> {
                    &&& chained(received, turns)
                    &&& final(self).received() == left_after(received, turns)
                    &&& round_ends(
                        end,
                        turns,
                        final(self).received(),
                        old(self).pending(),
                        final(self).pending(),
                    )
                    &&& take_turns(*service, reqs, turns)
                    &&& forall|i: int|
                        0 <= i < turns.len() ==> (#[trigger] turns[i]).left == contents(
                            *final(reqs[i].req_buf),
                        )
                }
            }),
    {
        let ghost received = self.received() + data@;
        let ghost mut turns: Seq<Turn> = Seq::empty();
        let ghost mut reqs: Seq<Request<'static>> = Seq::empty();
        let mut last: Option<Vec<u8>> = None;
        loop
            invariant
                forall|req: Request|
                    presentable(req) ==> #[trigger] call_requires(*service, (req,)),
                forall|req: Request, answer: Vec<u8>|
                    presentable(req) && #[trigger] call_ensures(*service, (req,), answer)
                        ==> contents(*final(req.req_buf)).len() <= contents(*req.req_buf).len(),
                received == old(self).received() + data@,
                chained(received, turns),
                take_turns(*service, reqs, turns),
                forall|i: int|
                    0 <= i < turns.len() ==> (#[trigger] turns[i]).left == contents(
                        *final(reqs[i].req_buf),
                    ),
                match last {
                    None => {
                        &&& *self == *old(self)
                        &&& turns.len() == 0
                        &&& allocatable(received.len())
                        &&& allocatable(self.pending().len() + BUF_LEN as nat)
                    },
                    Some(answer) => {
                        &&& data@.len() > 0
                        &&& turns.len() > 0 && turns.last().answer == answer
                        &&& self.pending() == old(self).pending() + answers_of(turns.drop_last())
                        &&& self.received() == left_after(received, turns)
                        &&& self.received().len() < received.len()
                    },
                },
            decreases
                    match last {
                        None => received.len() + 1,
                        Some(_) => self.received().len(),
                    },
        {
            let step = match &last {
                None => self.on_read(data),
                Some(answer) => {
                    let held: usize = len(&self.rsp_buf);
                    let most: usize = isize::MAX as usize - BUF_LEN;
                    if held > most || answer.len() > most - held {
                        assert(answers_of(turns) == answers_of(turns.drop_last())
                            + turns.last().answer@);
                        return (RoundEnd::Full, Ghost(turns), Ghost(reqs));
                    }
                    self.on_routed(answer.as_slice())
                },
            };
            match step {
                Step::Shutdown => {
                    return (RoundEnd::Shutdown, Ghost(turns), Ghost(reqs));
                },
                Step::Write => {
                    assert(old(self).pending() + answers_of(turns) =~= self.pending());
                    return (RoundEnd::Write, Ghost(turns), Ghost(reqs));
                },
                Step::Fail(error) => {
                    assert(old(self).pending() + answers_of(turns) =~= self.pending());
                    return (RoundEnd::Fail(error), Ghost(turns), Ghost(reqs));
                },
                Step::Route(req) => {
                    let ghost given = req;
                    let answer = service(req);
                    proof {
                        assert(old(self).pending() + answers_of(turns) =~= self.pending());
                        let turn = Turn {
                            head: given.head@,
                            rest: contents(*given.req_buf),
                            answer,
                            left: self.received(),
                        };
                        assert(turns.push(turn).drop_last() =~= turns);
                        turns = turns.push(turn);
                        reqs = reqs.push(given);
                    }
                    last = Some(answer);
                },
            }
        }
    }
}

/// The bytes of each of some parts.
pub open spec fn parts_view(parts: Seq<Vec<u8>>) -> Seq<Seq<u8>> {
    parts.map_values(|part: Vec<u8>| part@)
}

/// How the loop over a connection ends.
pub enum LoopEnd {
    /// The client is done.
    Done,
    /// The client sent what is no request.
    Fail(InvalidData),
    /// What was received, or the answers to it, do not fit into memory.
    Full,
}

/// Whether the turns of some rounds may be those of a service that was handed some requests, one
/// after the other.
pub open spec fn take_rounds<F: for<'a> Fn(Request<'a>) -> Vec<u8>>(
    service: F,
    reqs: Seq<Seq<Request>>,
    rounds: Seq<Seq<Turn>>,
) -> bool {
    &&& reqs.len() == rounds.len()
    &&& forall|i: int| 0 <= i < rounds.len() ==> take_turns(service, reqs[i], #[trigger] rounds[i])
}

/// Whether what was written after a part is the answers to all requests that it completed.
pub open spec fn is_written(
    parts: Seq<Seq<u8>>,
    rounds: Seq<Seq<Turn>>,
    i: int,
    written: Seq<u8>,
) -> bool {
    &&& parts[i].len() > 0
    &&& decoding(left_after(held_at(parts, rounds, i), rounds[i])) is Incomplete
    &&& written == answers_of(rounds[i])
}

/// Whether the loop over a connection ends so: the answers of each round are written but for those
/// of the last one, where the client sent what is no request or memory does not do.
pub open spec fn loop_ends(
    end: LoopEnd,
    parts: Seq<Seq<u8>>,
    rounds: Seq<Seq<Turn>>,
    written: Seq<Seq<u8>>,
) -> bool {
    let n = written.len() as int;
    &&& n <= rounds.len()
    &&& n <= parts.len()
    &&& forall|i: int| 0 <= i < n ==> is_written(parts, rounds, i, #[trigger] written[i])
    &&& match end {
        LoopEnd::Done => rounds.len() == n && (n == parts.len() || parts[n].len() == 0),
        LoopEnd::Fail(error) => {
            let left = left_after(held_at(parts, rounds, n), rounds[n]);
            &&& n < parts.len() && parts[n].len() > 0
            &&& rounds.len() == n + 1
            &&& decoding(left) == Decoding::Invalid(error.message@)
            &&& settled(left)
        },
        LoopEnd::Full => {
            &&& n < parts.len() && parts[n].len() > 0
            &&& if rounds.len() == n {
                !allocatable(held_at(parts, rounds, n).len())
            } else {
                &&& rounds.len() == n + 1
                &&& rounds[n].len() > 0
                &&& !allocatable(answers_of(rounds[n]).len() + BUF_LEN as nat)
            }
        },
    }
}

/// [`serve_all`] with the rounds of turns of the service.
fn serve_parts<F: for<'a> Fn(Request<'a>) -> Vec<u8>>(parts: &Vec<Vec<u8>>, service: &F) -> (result:
    (Vec<Vec<u8>>, LoopEnd, Ghost<Seq<Seq<Turn>>>, Ghost<Seq<Seq<Request<'static>>>>))
    requires
        forall|req: Request| presentable(req) ==> #[trigger] call_requires(*service, (req,)),
        forall|req: Request, answer: Vec<u8>|
            presentable(req) && #[trigger] call_ensures(*service, (req,), answer) ==> contents(
                *final(req.req_buf),
            ).len() <= contents(*req.req_buf).len(),
    ensures
        ({
            let (written, end, Ghost(rounds), Ghost(reqs)) = result;
            &&& rounds_chained(parts_view(parts@), rounds)
            &&& loop_ends(end, parts_view(parts@), rounds, parts_view(written@))
            &&& take_rounds(*service, reqs, rounds)
            &&& forall|i: int, j: int|
                0 <= i < rounds.len() && 0 <= j < rounds[i].len() ==> (
                #[trigger] rounds[i][j]).left == contents(*final(reqs[i][j].req_buf))
        }),
{
    let ghost all = parts_view(parts@);
    let ghost mut rounds: Seq<Seq<Turn>> = Seq::empty();
    let ghost mut reqs: Seq<Seq<Request<'static>>> = Seq::empty();
    let mut conn = Connection::new();
    let mut written: Vec<Vec<u8>> = Vec::new();
    let mut i: usize = 0;
    while i < parts.len()
        invariant
            forall|req: Request| presentable(req) ==> #[trigger] call_requires(*service, (req,)),
            forall|req: Request, answer: Vec<u8>|
                presentable(req) && #[trigger] call_ensures(*service, (req,), answer) ==> contents(
                    *final(req.req_buf),
                ).len() <= contents(*req.req_buf).len(),
            all == parts_view(parts@),
            i <= parts@.len(),
            i == written@.len(),
            i == rounds.len(),
            conn.received() == if i == 0 {
                Seq::empty()
            } else {
                left_after(held_at(all, rounds, i - 1), rounds[i - 1])
            },
            conn.pending() == Seq::<u8>::empty(),
            rounds_chained(all, rounds),
            forall|k: int|
                0 <= k < i ==> is_written(all, rounds, k, #[trigger] parts_view(written@)[k]),
            take_rounds(*service, reqs, rounds),
            forall|k: int, j: int|
                0 <= k < rounds.len() && 0 <= j < rounds[k].len() ==> (
                #[trigger] rounds[k][j]).left == contents(*final(reqs[k][j].req_buf)),
        decreases parts.len() - i,
    {
        let ghost held_then = conn.received() + parts@[i as int]@;
        assert(held_then =~= held_at(all, rounds, i as int));
        if parts[i].len() == 0 {
            return (written, LoopEnd::Done, Ghost(rounds), Ghost(reqs));
        }
        let held: usize = len(&conn.req_buf);
        let most: usize = isize::MAX as usize;
        if held > most || parts[i].len() > most - held {
            return (written, LoopEnd::Full, Ghost(rounds), Ghost(reqs));
        }
        let (end, Ghost(turns), Ghost(handed)) = conn.serve_round(parts[i].as_slice(), service);
        proof {
            let before = rounds;
            rounds = before.push(turns);
            reqs = reqs.push(handed);
            assert forall|k: int| 0 <= k <= i implies #[trigger] held_at(all, rounds, k) == held_at(
                all,
                before,
                k,
            ) by {
                lemma_held_at(all, before, turns, k);
            }
            assert forall|k: int| 0 <= k < i implies is_written(
                all,
                rounds,
                k,
                #[trigger] parts_view(written@)[k],
            ) by {
                assert(held_at(all, rounds, k) == held_at(all, before, k));
                assert(rounds[k] == before[k]);
            }
            assert(held_at(all, rounds, i as int) == held_then);
            assert(rounds[i as int] == turns);
            assert(rounds_chained(all, rounds));
            assert(take_rounds(*service, reqs, rounds));
        }
        match end {
            RoundEnd::Shutdown => {
                return (written, LoopEnd::Done, Ghost(rounds), Ghost(reqs));
            },
            RoundEnd::Full => {
                return (written, LoopEnd::Full, Ghost(rounds), Ghost(reqs));
            },
            RoundEnd::Fail(error) => {
                return (written, LoopEnd::Fail(error), Ghost(rounds), Ghost(reqs));
            },
            RoundEnd::Write => {
                let answers = conn.take_answers();
                let ghost sent = written@;
                written.push(slice_to_vec(chunk(&answers)));
                assert forall|k: int| 0 <= k <= i implies is_written(
                    all,
                    rounds,
                    k,
                    #[trigger] parts_view(written@)[k],
                ) by {
                    if k < i {
                        assert(parts_view(written@)[k] == parts_view(sent)[k]);
                    }
                }
            },
        }
        i += 1;
    }
    (written, LoopEnd::Done, Ghost(rounds), Ghost(reqs))
}

/// Runs a connection from its start: receives one part after the other, lets a service answer all
/// requests that a part completes, and writes the answers before the next part is received. An
/// empty part means that the client is done. The result is what is written after each part.
pub fn serve_all<F: for<'a> Fn(Request<'a>) -> Vec<u8>>(
    parts: &Vec<Vec<u8>>,
    service: &F,
) -> (result: (Vec<Vec<u8>>, LoopEnd))
    requires
        forall|req: Request| presentable(req) ==> #[trigger] call_requires(*service, (req,)),
        forall|req: Request, answer: Vec<u8>|
            presentable(req) && #[trigger] call_ensures(*service, (req,), answer) ==> contents(
                *final(req.req_buf),
            ).len() <= contents(*req.req_buf).len(),
    ensures
        exists|rounds: Seq<Seq<Turn>>, reqs: Seq<Seq<Request>>|
            {
                &&& #[trigger] rounds_chained(parts_view(parts@), rounds)
                &&& loop_ends(result.1, parts_view(parts@), rounds, parts_view(result.0@))
                &&& #[trigger] take_rounds(*service, reqs, rounds)
                &&& forall|i: int, j: int|
                    0 <= i < rounds.len() && 0 <= j < rounds[i].len() ==> (
                    #[trigger] rounds[i][j]).left == contents(*final(reqs[i][j].req_buf))
                &&& (forall|req: Request, answer: Vec<u8>|
                    presentable(req) && #[trigger] call_ensures(*service, (req,), answer)
                        ==> contents(*final(req.req_buf)) == after_body(
                        req.head@,
                        contents(*req.req_buf),
                    )) && result.1 !is Full ==> go_through(parts_view(parts@), rounds)
            },
{
    let (written, end, Ghost(rounds), Ghost(reqs)) = serve_parts(parts, service);
    proof {
        let all = parts_view(parts@);
        if end !is Full && (forall|i: int|
            0 <= i < rounds.len() ==> bodies_ended(#[trigger] rounds[i])) {
            assert forall|i: int| 0 <= i < rounds.len() implies #[trigger] round_done(
                all,
                rounds,
                i,
            ) by {
                if i < written@.len() {
                    assert(is_written(all, rounds, i, parts_view(written@)[i]));
                }
            }
            rounds_go_through_the_parts(all, rounds);
        }
        assert(take_rounds(*service, reqs, rounds));
    }
    (written, end)
}

} // verus!
