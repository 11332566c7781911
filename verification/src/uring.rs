//! Connections over io_uring: each receive is taken as one request.
use crate::buf::{
    allocatable, chunk, contents, extend_from_slice, extended, has_room, reserve_buf, topped_up,
    with_capacity, BUF_LEN,
};
use crate::head::{asks_close, parse_head, parsed, should_close, Head, HeadModel, Outcome};
use bytes::BytesMut;
use vstd::prelude::*;
use vstd::slice::slice_to_vec;

verus! {

/// The size of the buffers that are received into.
pub const BUF_SIZE: usize = 1024 * 8;

/// The number of buffers of a thread.
pub const POOL_SIZE: usize = 1024;

/// The largest number of headers that a request may have.
pub const MAX_HEADERS: usize = 32;

/// The first of the [`POOL_SIZE`] buffers that can be had, with its place. `check_out` tries to get
/// the buffer at a place.
pub fn first_buffer<B, F: Fn(usize) -> Option<B>>(check_out: F) -> (found: Option<(usize, B)>)
    requires
        forall|i: usize| i < POOL_SIZE ==> #[trigger] call_requires(check_out, (i,)),
    ensures
        match found {
            Some((place, buffer)) => {
                &&& place < POOL_SIZE
                &&& place < 1024
                &&& call_ensures(check_out, (place,), Some(buffer))
                &&& forall|i: usize| i < place ==> #[trigger] call_ensures(check_out, (i,), None)
            },
            None => {
                &&& forall|i: usize|
                    i < POOL_SIZE ==> #[trigger] call_ensures(check_out, (i,), None)
                &&& forall|i: usize| i < 1024 ==> #[trigger] call_ensures(check_out, (i,), None)
            },
        },
{
    let mut index: usize = 0;
    while index < POOL_SIZE
        invariant
            forall|i: usize| i < POOL_SIZE ==> #[trigger] call_requires(check_out, (i,)),
            forall|i: usize| i < index ==> #[trigger] call_ensures(check_out, (i,), None),
        decreases POOL_SIZE - index,
    {
        if let Some(buffer) = check_out(index) {
            return Some((index, buffer));
        }
        index += 1;
    }
    None
}

/// Whether a request asks for the connection to be closed after the answer.
pub open spec fn closes(head: HeadModel) -> bool {
    exists|i: int| 0 <= i < head.headers.len() && asks_close(#[trigger] head.headers[i])
}

/// What is to be done next for a connection.
pub enum Step {
    /// The connection is to be closed.
    Close,
    /// A request is to be answered; the flag tells whether the connection ends with the answer.
    Route(Head, bool),
}

/// A connection to a client.
pub struct Connection {
    /// All answers so far.
    pub rsp_buf: BytesMut,
}

impl Connection {
    /// All answers so far.
    pub open spec fn answers(&self) -> Seq<u8> {
        contents(self.rsp_buf)
    }

    /// A new connection.
    pub fn new() -> (conn: Connection)
        ensures
            conn.answers() == Seq::<u8>::empty(),
            contents(conn.rsp_buf).len() == 0,
            has_room(conn.rsp_buf, BUF_LEN as int),
    {
        Connection { rsp_buf: with_capacity(BUF_LEN) }
    }

    /// Goes on with what parsing the received bytes came to. Room for the answer to a request is
    /// made before.
    pub fn route_parsed(&mut self, outcome: Outcome) -> (step: Step)
        requires
            allocatable(old(self).answers().len() + BUF_LEN as nat),
        ensures
            final(self).answers() == old(self).answers(),
            contents(final(self).rsp_buf) == contents(old(self).rsp_buf),
            match (outcome, step) {
                (Ok(Some((used, head))), Step::Route(routed, close)) => {
                    &&& routed == head
                    &&& close == closes(head@)
                    &&& topped_up(old(self).rsp_buf, final(self).rsp_buf)
                },
                (Ok(Some(_)), Step::Close) => false,
                (_, step) => step is Close,
            },
    {
        match outcome {
            Ok(Some((_, head))) => {
                let close = should_close(&head.headers);
                assert(close == closes(head@)) by {
                    if close {
                        let i = choose|i: int|
                            0 <= i < head.headers@.len() && asks_close(
                                (#[trigger] head.headers@[i])@,
                            );
                        assert(head@.headers[i] == head.headers@[i]@);
                    }
                }
                reserve_buf(&mut self.rsp_buf);
                Step::Route(head, close)
            },
            _ => Step::Close,
        }
    }

    /// Takes in what was received: a request, and nothing but it counts. Without bytes, without a
    /// complete head and where the bytes are no request the connection is to be closed.
    pub fn on_read(&mut self, data: &[u8]) -> (step: Step)
        requires
            allocatable(old(self).answers().len() + BUF_LEN as nat),
        ensures
            final(self).answers() == old(self).answers(),
            contents(final(self).rsp_buf) == contents(old(self).rsp_buf),
            step is Route <==> data@.len() > 0 && (parsed(data@, 32) matches Ok(Some(_))),
            step matches Step::Route(routed, close) ==> (parsed(data@, 32) matches Ok(
                Some((used, head)),
            ) && routed@ == head && (close <==> exists|i: int|
                0 <= i < head.headers.len() && asks_close(#[trigger] head.headers[i]))),
            data@.len() == 0 ==> step is Close,
            data@.len() > 0 ==> match (parsed(data@, MAX_HEADERS as nat), step) {
                (Ok(Some((used, head))), Step::Route(routed, close)) => {
                    &&& routed@ == head
                    &&& close == closes(head)
                    &&& topped_up(old(self).rsp_buf, final(self).rsp_buf)
                },
                (Ok(Some(_)), Step::Close) => false,
                (_, step) => step is Close,
            },
    {
        if data.len() == 0 {
            return Step::Close;
        }
        let outcome = parse_head(data, MAX_HEADERS);
        self.route_parsed(outcome)
    }

    /// Takes in the answer to a request, and gives the bytes to send: all answers so far.
    pub fn on_routed(&mut self, rsp: &[u8]) -> (bytes: Vec<u8>)
        requires
            allocatable(old(self).answers().len() + rsp@.len()),
        ensures
            final(self).answers() == old(self).answers() + rsp@,
            extended(old(self).rsp_buf, final(self).rsp_buf, rsp@),
            bytes@ == final(self).answers(),
            contents(final(self).rsp_buf) == contents(old(self).rsp_buf) + rsp@,
            bytes@ == contents(old(self).rsp_buf) + rsp@,
    {
        extend_from_slice(&mut self.rsp_buf, rsp);
        slice_to_vec(chunk(&self.rsp_buf))
    }
}

/// Whether more is to be received after an answer: it was sent, and the request did not ask for the
/// connection to be closed.
pub fn goes_on(sent: bool, close: bool) -> (more: bool)
    ensures
        more == (sent && !close),
{
    sent && !close
}

} // verus!
