//! Rounds: what comes out of the bytes of a connection when each request is answered, and its body
//! read, before the next one is taken out.
use crate::body::{
    all_allowed, inputs, outputs, reading_keeps_bytes_in_order, reading_leaves_what_follows, run,
    whole_body_is_read, BodyModel, BodyOp,
};
use crate::head::HeadModel;
use crate::request::{body_length, decoding, settled, takes_out, Decoding};
use vstd::prelude::*;

verus! {

/// The body of a request when it is about to be read, with `rest` received after the head.
pub open spec fn unread_body(head: HeadModel, rest: Seq<u8>) -> BodyModel {
    BodyModel { received: rest, limit: body_length(head.headers) as nat, read: 0 }
}

/// What was received of the body of a request.
pub open spec fn body_part(head: HeadModel, rest: Seq<u8>) -> Seq<u8> {
    rest.take(unread_body(head, rest).available())
}

/// What follows the body of a request in the buffer.
pub open spec fn after_body(head: HeadModel, rest: Seq<u8>) -> Seq<u8> {
    unread_body(head, rest).beyond()
}

/// How much of the body of a request was not received yet.
pub open spec fn missing_part(head: HeadModel, rest: Seq<u8>) -> int {
    unread_body(head, rest).limit - body_part(head, rest).len()
}

/// The requests that stand one after the other at the front of a buffer: their heads, and what was
/// received of their bodies.
pub open spec fn requests_in(received: Seq<u8>) -> Seq<(HeadModel, Seq<u8>)>
    decreases received.len(),
{
    match decoding(received) {
        Decoding::Request(head, rest) if rest.len() < received.len() => {
            seq![(head, body_part(head, rest))] + requests_in(after_body(head, rest))
        },
        _ => Seq::empty(),
    }
}

/// What is handed to a service of those requests: their heads, and the bytes that were received
/// after each head.
pub open spec fn handed_in(received: Seq<u8>) -> Seq<(HeadModel, Seq<u8>)>
    decreases received.len(),
{
    match decoding(received) {
        Decoding::Request(head, rest) if rest.len() < received.len() => {
            seq![(head, rest)] + handed_in(after_body(head, rest))
        },
        _ => Seq::empty(),
    }
}

/// The heads of those requests.
pub open spec fn heads_in(received: Seq<u8>) -> Seq<HeadModel>
    decreases received.len(),
{
    match decoding(received) {
        Decoding::Request(head, rest) if rest.len() < received.len() => {
            seq![head] + heads_in(after_body(head, rest))
        },
        _ => Seq::empty(),
    }
}

/// What follows those requests in the buffer.
pub open spec fn rest_in(received: Seq<u8>) -> Seq<u8>
    decreases received.len(),
{
    match decoding(received) {
        Decoding::Request(head, rest) if rest.len() < received.len() => rest_in(
            after_body(head, rest),
        ),
        _ => received,
    }
}

/// How much of the body of the last of those requests was not received yet.
pub open spec fn missing_in(received: Seq<u8>) -> int
    decreases received.len(),
{
    match decoding(received) {
        Decoding::Request(head, rest) if rest.len() < received.len() => {
            if missing_part(head, rest) > 0 {
                missing_part(head, rest)
            } else {
                missing_in(after_body(head, rest))
            }
        },
        _ => 0,
    }
}

/// Whether each of those requests is known for good, as it is once it was taken out.
pub open spec fn all_settled(received: Seq<u8>) -> bool
    decreases received.len(),
{
    match decoding(received) {
        Decoding::Request(head, rest) if rest.len() < received.len() => {
            settled(received) && all_settled(after_body(head, rest))
        },
        _ => true,
    }
}

/// The answers to some requests, heads with bodies, one after the other.
pub open spec fn answers_to(
    requests: Seq<(HeadModel, Seq<u8>)>,
    answer: spec_fn(HeadModel, Seq<u8>) -> Seq<u8>,
) -> Seq<u8>
    decreases requests.len(),
{
    if requests.len() == 0 {
        Seq::empty()
    } else {
        answer(requests[0].0, requests[0].1) + answers_to(requests.skip(1), answer)
    }
}

/// The pending answers when a connection asks to write or fails, and what is then received and
/// belongs to no request: each step takes the next request out of the buffer, with what was
/// received of its body, and adds the answer to both.
pub open spec fn after_round(
    received: Seq<u8>,
    pending: Seq<u8>,
    answer: spec_fn(HeadModel, Seq<u8>) -> Seq<u8>,
) -> (Seq<u8>, Seq<u8>)
    decreases received.len(),
{
    match decoding(received) {
        Decoding::Request(head, rest) if rest.len() < received.len() => after_round(
            after_body(head, rest),
            pending + answer(head, body_part(head, rest)),
            answer,
        ),
        _ => (pending, received),
    }
}

/// Requests that were received together are all answered before anything is sent, each by its head
/// and its body, in their order, and no request is then left in the buffer.
pub proof fn pipelined_requests_are_answered_in_order(
    received: Seq<u8>,
    pending: Seq<u8>,
    answer: spec_fn(HeadModel, Seq<u8>) -> Seq<u8>,
)
    ensures
        after_round(received, pending, answer).0 == pending + answers_to(
            requests_in(received),
            answer,
        ),
        after_round(received, pending, answer).1 == rest_in(received),
        requests_in(rest_in(received)).len() == 0,
    decreases received.len(),
{
    match decoding(received) {
        Decoding::Request(head, rest) if rest.len() < received.len() => {
            let next = after_body(head, rest);
            let first = answer(head, body_part(head, rest));
            pipelined_requests_are_answered_in_order(next, pending + first, answer);
            assert(requests_in(received).skip(1) =~= requests_in(next));
        },
        _ => {
        },
    }
}

/// The requests of a buffer have the heads of [`heads_in`], and their bodies are at the front of
/// what is handed out with each head.
pub proof fn requests_are_handed_out_whole(received: Seq<u8>)
    ensures
        handed_in(received).len() == heads_in(received).len(),
        requests_in(received).len() == heads_in(received).len(),
        forall|i: int|
            #![trigger requests_in(received)[i]]
            #![trigger handed_in(received)[i]]
            0 <= i < heads_in(received).len() ==> {
                let (head, rest) = handed_in(received)[i];
                head == heads_in(received)[i] && requests_in(received)[i] == (
                    head,
                    body_part(head, rest),
                )
            },
    decreases received.len(),
{
    match decoding(received) {
        Decoding::Request(head, rest) if rest.len() < received.len() => {
            let next = after_body(head, rest);
            requests_are_handed_out_whole(next);
            assert forall|i: int|
                #![trigger requests_in(received)[i]]
                #![trigger handed_in(received)[i]]
                0 <= i < heads_in(received).len() implies {
                let (head, rest) = handed_in(received)[i];
                head == heads_in(received)[i] && requests_in(received)[i] == (
                    head,
                    body_part(head, rest),
                )
            } by {
                if i > 0 {
                    assert(handed_in(received)[i] == handed_in(next)[i - 1]);
                }
            }
        },
        _ => {
        },
    }
}

/// Reading a body leaves what follows it in the buffer, however much of it is read. A body that is
/// read to its end is handed out as the bytes after the head, as many as it is long, those among
/// them that were received only while it was read.
pub proof fn next_request_follows_the_body(head: HeadModel, rest: Seq<u8>, ops: Seq<BodyOp>)
    requires
        all_allowed(unread_body(head, rest), ops),
    ensures
        run(unread_body(head, rest), ops).beyond() == after_body(head, rest),
        run(unread_body(head, rest), ops).remaining() == 0 ==> {
            &&& inputs(ops).len() == missing_part(head, rest)
            &&& outputs(unread_body(head, rest), ops) == body_part(head, rest + inputs(ops))
            &&& run(unread_body(head, rest), ops).received == after_body(head, rest)
        },
{
    let start = unread_body(head, rest);
    reading_leaves_what_follows(start, ops);
    if run(start, ops).remaining() == 0 {
        whole_body_is_read(start, ops);
        reading_keeps_bytes_in_order(start, ops);
        let all = rest + inputs(ops);
        assert(all.len() == start.limit + after_body(head, rest).len());
        assert(unread_body(head, all).available() == start.limit);
    }
}

/// A request takes the same bytes out of what a client sends, and leaves the same, wherever this is
/// cut: `read` are the bytes of its body that were received only while it was read, and `next`
/// those that come later.
proof fn lemma_body_in_stream(head: HeadModel, rest: Seq<u8>, read: Seq<u8>, next: Seq<u8>)
    requires
        missing_part(head, rest) == 0 || read.len() == missing_part(head, rest),
    ensures
        missing_part(head, rest) == 0 ==> {
            &&& body_part(head, rest + (read + next)) == body_part(head, rest)
            &&& after_body(head, rest + (read + next)) == after_body(head, rest) + (read + next)
            &&& missing_part(head, rest + (read + next)) == 0
        },
        missing_part(head, rest) > 0 ==> {
            &&& body_part(head, rest + (read + next)) == rest + read
            &&& body_part(head, rest + read) == rest + read
            &&& after_body(head, rest) == Seq::<u8>::empty()
            &&& after_body(head, rest + read) == Seq::<u8>::empty()
            &&& after_body(head, rest + (read + next)) == next
            &&& missing_part(head, rest + (read + next)) == 0
        },
{
    let all = rest + (read + next);
    let n = unread_body(head, rest).limit as int;
    if missing_part(head, rest) == 0 {
        assert(all.take(n) =~= rest.take(n));
        assert(all.skip(n) =~= rest.skip(n) + (read + next));
    } else {
        assert(all.take(n) =~= rest + read);
        assert((rest + read).take(n) =~= rest + read);
        assert(rest.skip(rest.len() as int) =~= Seq::<u8>::empty());
        assert((rest + read).skip(n) =~= Seq::<u8>::empty());
        assert(all.skip(n) =~= next);
    }
}

/// However what a client sends is cut into receives, the same requests come out of it: those of the
/// first part, whose last body is completed by `read` while it is read, and then those of what is
/// left of it together with what was received next. The same bytes are left in the end.
pub proof fn cuts_between_receives_do_not_matter(first: Seq<u8>, read: Seq<u8>, next: Seq<u8>)
    requires
        all_settled(first),
        read.len() == missing_in(first),
    ensures
        heads_in(first + (read + next)) == heads_in(first) + heads_in(rest_in(first) + next),
        requests_in(first + (read + next)) == requests_in(first + read) + requests_in(
            rest_in(first) + next,
        ),
        rest_in(first + (read + next)) == rest_in(rest_in(first) + next),
        missing_in(first + (read + next)) == missing_in(rest_in(first) + next),
    decreases first.len(),
{
    let all = first + (read + next);
    match decoding(first) {
        Decoding::Request(head, rest) if rest.len() < first.len() => {
            let left = after_body(head, rest);
            lemma_body_in_stream(head, rest, read, next);
            lemma_body_in_stream(head, rest, read, Seq::empty());
            assert(read + Seq::<u8>::empty() =~= read);
            assert(decoding(all) == Decoding::Request(head, rest + (read + next)));
            assert(decoding(first + read) == Decoding::Request(head, rest + read));
            if missing_part(head, rest) > 0 {
                let none = Seq::<u8>::empty();
                assert(none + next =~= next);
                assert(heads_in(none) =~= Seq::empty());
                assert(requests_in(none) =~= Seq::empty());
                assert(rest_in(none) == none);
            } else {
                cuts_between_receives_do_not_matter(left, read, next);
            }
            assert(heads_in(all) =~= heads_in(first) + heads_in(rest_in(first) + next));
            assert(requests_in(all) =~= requests_in(first + read) + requests_in(
                rest_in(first) + next,
            ));
        },
        _ => {
            assert(read =~= Seq::<u8>::empty());
            assert(read + next =~= next);
            assert(first + read =~= first);
        },
    }
}

/// What is known for good stays so with what is received next: if the requests of a first part are,
/// and those of what is left of it together with the next part, then all those of both parts are.
pub proof fn settled_requests_stay_settled(first: Seq<u8>, read: Seq<u8>, next: Seq<u8>)
    requires
        all_settled(first),
        read.len() == missing_in(first),
        all_settled(rest_in(first) + next),
    ensures
        all_settled(first + (read + next)),
    decreases first.len(),
{
    let later = read + next;
    let all = first + later;
    match decoding(first) {
        Decoding::Request(head, rest) if rest.len() < first.len() => {
            lemma_body_in_stream(head, rest, read, next);
            assert(decoding(all) == Decoding::Request(head, rest + later));
            assert forall|more: Seq<u8>| #[trigger]
                decoding(all + more) == decoding(all).followed_by(more) by {
                assert(all + more =~= first + (later + more));
                assert((rest + later) + more =~= rest + (later + more));
            }
            if missing_part(head, rest) > 0 {
                let none = Seq::<u8>::empty();
                assert(rest_in(none) == none);
                assert(none + next =~= next);
            } else {
                settled_requests_stay_settled(after_body(head, rest), read, next);
            }
        },
        _ => {
            assert(later =~= next);
        },
    }
}

/// All bytes of a client in their order: what was received part by part, and after each part what
/// was received while the bodies of its requests were read.
pub open spec fn joined(parts: Seq<Seq<u8>>, reads: Seq<Seq<u8>>) -> Seq<u8>
    decreases parts.len(),
{
    if parts.len() == 0 {
        Seq::empty()
    } else {
        joined(parts.drop_last(), reads.drop_last()) + (parts.last() + reads.last())
    }
}

/// What is in the buffer when the last of some parts was received, before its requests are taken
/// out. Those of the parts before were taken out when these were received.
pub open spec fn buffered(parts: Seq<Seq<u8>>) -> Seq<u8>
    decreases parts.len(),
{
    if parts.len() == 0 {
        Seq::empty()
    } else {
        rest_in(buffered(parts.drop_last())) + parts.last()
    }
}

/// The heads of the requests that are taken out while some parts are received one after the other.
pub open spec fn heads_over(parts: Seq<Seq<u8>>) -> Seq<HeadModel>
    decreases parts.len(),
{
    if parts.len() == 0 {
        Seq::empty()
    } else {
        heads_over(parts.drop_last()) + heads_in(buffered(parts))
    }
}

/// The requests that are taken out while some parts are received one after the other, with their
/// whole bodies.
pub open spec fn requests_over(parts: Seq<Seq<u8>>, reads: Seq<Seq<u8>>) -> Seq<
    (HeadModel, Seq<u8>),
>
    decreases parts.len(),
{
    if parts.len() == 0 {
        Seq::empty()
    } else {
        requests_over(parts.drop_last(), reads.drop_last()) + requests_in(
            buffered(parts) + reads.last(),
        )
    }
}

/// Whether each request that is taken out while some parts are received is known for good.
pub open spec fn settled_over(parts: Seq<Seq<u8>>) -> bool
    decreases parts.len(),
{
    parts.len() > 0 ==> settled_over(parts.drop_last()) && all_settled(buffered(parts))
}

/// Whether after each part as much was received as the bodies of its requests lacked.
pub open spec fn bodies_read(parts: Seq<Seq<u8>>, reads: Seq<Seq<u8>>) -> bool
    decreases parts.len(),
{
    &&& reads.len() == parts.len()
    &&& parts.len() > 0 ==> bodies_read(parts.drop_last(), reads.drop_last()) && reads.last().len()
        == missing_in(buffered(parts))
}

/// In however many parts the bytes of a client are received, the requests that come out, their
/// bodies, and what is left in the end, are those of all the bytes received at once.
pub proof fn requests_do_not_depend_on_receives(parts: Seq<Seq<u8>>, reads: Seq<Seq<u8>>)
    requires
        settled_over(parts),
        bodies_read(parts, reads),
    ensures
        heads_over(parts) == heads_in(joined(parts, reads)),
        requests_over(parts, reads) == requests_in(joined(parts, reads)),
        rest_in(buffered(parts)) == rest_in(joined(parts, reads)),
        all_settled(joined(parts, reads)),
        missing_in(joined(parts, reads)) == 0,
    decreases parts.len(),
{
    if parts.len() > 0 {
        let none = Seq::<u8>::empty();
        let before = joined(parts.drop_last(), reads.drop_last());
        let part = parts.last();
        let read = reads.last();
        let held = buffered(parts);
        requests_do_not_depend_on_receives(parts.drop_last(), reads.drop_last());
        assert(none + (part + read) =~= part + read);
        assert(held + (read + none) =~= held + read);
        assert(rest_in(held) + none =~= rest_in(held));
        assert(rest_in(before) + (part + read) =~= held + read);
        lemma_rest_in(held);
        cuts_between_receives_do_not_matter(held, read, none);
        settled_requests_stay_settled(held, read, none);
        cuts_between_receives_do_not_matter(before, none, part + read);
        settled_requests_stay_settled(before, none, part + read);
        assert(before + none =~= before);
    }
}

pub(crate) proof fn lemma_rest_in(received: Seq<u8>)
    ensures
        rest_in(received).len() <= received.len(),
        heads_in(rest_in(received)).len() == 0,
        requests_in(rest_in(received)).len() == 0,
        rest_in(rest_in(received)) == rest_in(received),
        missing_in(rest_in(received)) == 0,
        all_settled(rest_in(received)),
    decreases received.len(),
{
    match decoding(received) {
        Decoding::Request(head, rest) if rest.len() < received.len() => {
            lemma_rest_in(after_body(head, rest));
        },
        _ => {
        },
    }
}

/// A turn of a service: the head of the request that it was handed, what was received after the
/// head, the answer that it gave, and what it left in the buffer.
pub struct Turn {
    pub head: HeadModel,
    pub rest: Seq<u8>,
    pub answer: Vec<u8>,
    pub left: Seq<u8>,
}

/// What is in the buffer after some turns.
pub open spec fn left_after(received: Seq<u8>, turns: Seq<Turn>) -> Seq<u8> {
    if turns.len() == 0 {
        received
    } else {
        turns.last().left
    }
}

/// Whether some turns follow each other: each takes the next request out of what the one before it
/// left in the buffer, and that request is known for good.
pub open spec fn chained(received: Seq<u8>, turns: Seq<Turn>) -> bool
    decreases turns.len(),
{
    turns.len() > 0 ==> {
        let before = left_after(received, turns.drop_last());
        &&& chained(received, turns.drop_last())
        &&& decoding(before) == Decoding::Request(turns.last().head, turns.last().rest)
        &&& takes_out(before, turns.last().head, turns.last().rest)
        &&& settled(before)
    }
}

/// The answers of some turns, one after the other.
pub open spec fn answers_of(turns: Seq<Turn>) -> Seq<u8>
    decreases turns.len(),
{
    if turns.len() == 0 {
        Seq::empty()
    } else {
        answers_of(turns.drop_last()) + turns.last().answer@
    }
}

/// Whether in each turn the body of the request was taken out of the buffer, as far as it was
/// received, and nothing else.
pub open spec fn bodies_ended(turns: Seq<Turn>) -> bool {
    forall|i: int|
        0 <= i < turns.len() ==> (#[trigger] turns[i]).left == after_body(
            turns[i].head,
            turns[i].rest,
        )
}

/// What the requests of some turns were handed out as.
pub open spec fn handed_to(turns: Seq<Turn>) -> Seq<(HeadModel, Seq<u8>)> {
    turns.map_values(|turn: Turn| (turn.head, turn.rest))
}

proof fn lemma_turns(received: Seq<u8>, turns: Seq<Turn>)
    requires
        chained(received, turns),
        bodies_ended(turns),
    ensures
        handed_in(received) == handed_to(turns) + handed_in(left_after(received, turns)),
        rest_in(received) == rest_in(left_after(received, turns)),
        all_settled(left_after(received, turns)) ==> all_settled(received),
    decreases turns.len(),
{
    if turns.len() > 0 {
        let before = turns.drop_last();
        let turn = turns.last();
        let given = left_after(received, before);
        assert(bodies_ended(before)) by {
            assert(forall|i: int| 0 <= i < before.len() ==> #[trigger] before[i] == turns[i]);
        }
        lemma_turns(received, before);
        assert(turn == turns[turns.len() - 1]);
        assert(turn.left == after_body(turn.head, turn.rest));
        assert(handed_in(given) == seq![(turn.head, turn.rest)] + handed_in(turn.left));
        assert(handed_to(turns) =~= handed_to(before) + seq![(turn.head, turn.rest)]);
        assert(handed_to(before) + (seq![(turn.head, turn.rest)] + handed_in(turn.left))
            =~= handed_to(turns) + handed_in(turn.left));
    } else {
        assert(handed_to(turns) + handed_in(received) =~= handed_in(received));
    }
}

/// Whether some turns hand out all requests of a buffer, one after the other, each known for good,
/// and leave what follows them.
pub open spec fn goes_through(received: Seq<u8>, turns: Seq<Turn>) -> bool {
    &&& handed_to(turns) == handed_in(received)
    &&& left_after(received, turns) == rest_in(received)
    &&& all_settled(received)
}

/// A service that ends the body of each request is handed the requests of the buffer, one after the
/// other, and what follows them is left when no request is left.
pub proof fn turns_go_through_the_buffer(received: Seq<u8>, turns: Seq<Turn>)
    requires
        chained(received, turns),
        bodies_ended(turns),
        !(decoding(left_after(received, turns)) is Request),
    ensures
        goes_through(received, turns),
{
    lemma_turns(received, turns);
    assert(handed_to(turns) + Seq::<(HeadModel, Seq<u8>)>::empty() =~= handed_to(turns));
}

/// What is in the buffer when a part was received, after the rounds of the parts before it.
pub open spec fn held_at(parts: Seq<Seq<u8>>, rounds: Seq<Seq<Turn>>, i: int) -> Seq<u8>
    decreases i,
{
    if i <= 0 {
        parts[i]
    } else {
        left_after(held_at(parts, rounds, i - 1), rounds[i - 1]) + parts[i]
    }
}

pub(crate) proof fn lemma_held_at(
    parts: Seq<Seq<u8>>,
    rounds: Seq<Seq<Turn>>,
    turns: Seq<Turn>,
    i: int,
)
    requires
        i <= rounds.len(),
    ensures
        held_at(parts, rounds.push(turns), i) == held_at(parts, rounds, i),
    decreases i,
{
    if i > 0 {
        lemma_held_at(parts, rounds, turns, i - 1);
    }
}

/// Whether rounds follow each other: the turns of each go on with what the round before left and
/// the part that was received then.
pub open spec fn rounds_chained(parts: Seq<Seq<u8>>, rounds: Seq<Seq<Turn>>) -> bool {
    &&& rounds.len() <= parts.len()
    &&& forall|i: int|
        0 <= i < rounds.len() ==> chained(held_at(parts, rounds, i), #[trigger] rounds[i])
}

/// Whether the turns of a round went on until no request was left.
pub open spec fn round_done(parts: Seq<Seq<u8>>, rounds: Seq<Seq<Turn>>, i: int) -> bool {
    !(decoding(left_after(held_at(parts, rounds, i), rounds[i])) is Request)
}

/// Whether some rounds go through parts as they are received: each hands out the requests that are
/// in the buffer then, and all are known for good.
pub open spec fn go_through(parts: Seq<Seq<u8>>, rounds: Seq<Seq<Turn>>) -> bool {
    &&& forall|i: int|
        0 <= i < rounds.len() ==> goes_through(buffered(parts.take(i + 1)), #[trigger] rounds[i])
    &&& settled_over(parts.take(rounds.len() as int))
}

/// Rounds of a service that ends the body of each request go through the parts as they are
/// received.
pub proof fn rounds_go_through_the_parts(parts: Seq<Seq<u8>>, rounds: Seq<Seq<Turn>>)
    requires
        rounds_chained(parts, rounds),
        forall|i: int| 0 <= i < rounds.len() ==> bodies_ended(#[trigger] rounds[i]),
        forall|i: int| 0 <= i < rounds.len() ==> #[trigger] round_done(parts, rounds, i),
    ensures
        go_through(parts, rounds),
{
    lemma_rounds(parts, rounds, rounds.len() as int);
    assert forall|i: int| 0 <= i < rounds.len() implies goes_through(
        buffered(parts.take(i + 1)),
        #[trigger] rounds[i],
    ) by {
        lemma_rounds(parts, rounds, i + 1);
    }
}

proof fn lemma_rounds(parts: Seq<Seq<u8>>, rounds: Seq<Seq<Turn>>, n: int)
    requires
        rounds_chained(parts, rounds),
        forall|i: int| 0 <= i < rounds.len() ==> bodies_ended(#[trigger] rounds[i]),
        forall|i: int| 0 <= i < rounds.len() ==> #[trigger] round_done(parts, rounds, i),
        0 <= n <= rounds.len(),
    ensures
        settled_over(parts.take(n)),
        n > 0 ==> {
            &&& held_at(parts, rounds, n - 1) == buffered(parts.take(n))
            &&& goes_through(buffered(parts.take(n)), rounds[n - 1])
        },
    decreases n,
{
    if n > 0 {
        lemma_rounds(parts, rounds, n - 1);
        assert(parts.take(n).drop_last() =~= parts.take(n - 1));
        let held = held_at(parts, rounds, n - 1);
        if n == 1 {
            let none = Seq::<Seq<u8>>::empty();
            assert(parts.take(0) =~= none);
            assert(rest_in(buffered(none)) + parts[0] =~= parts[0]);
        }
        assert(held == buffered(parts.take(n)));
        assert(round_done(parts, rounds, n - 1));
        turns_go_through_the_buffer(held, rounds[n - 1]);
    }
}

} // verus!
