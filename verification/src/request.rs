//! Requests: the head of a request together with the buffer that its body is read from.
use crate::body::BodyReader;
use crate::buf::{advance, chunk, contents};
use crate::form::{form_params, parse_form_urlencoded};
use crate::head::{
    headers_view, outcome_view, parse_head, parsed, Head, HeadModel, Header, InvalidData, Outcome,
};
use crate::params::{collect_params, collected, Params};
use crate::query::{empty_pieces_set_nothing, parse_query, query_pairs};
use crate::scan::{
    after, decimal, digits_of, eq_ignore_case, find_byte, lemma_decimal_grows, lemma_decimal_push,
    lemma_decimal_zeros, lemma_digits_of, lemma_prefix_len, lemma_prefix_len_is, occurs, prefix_len,
    same_letters, QUESTION, SPACE, ZERO,
};
use crate::text::string_from_utf8;
use bytes::BytesMut;
use vstd::prelude::*;
use vstd::slice::slice_subrange;
use vstd::utf8::{decode_utf8_encode_utf8, encode_utf8, valid_utf8};

verus! {

/// The largest number of headers that a request may have.
pub const MAX_HEADERS: usize = 16;

/// The predicate of being a space.
pub open spec fn is_space() -> spec_fn(u8) -> bool {
    |b: u8| b == SPACE
}

/// The predicate of being a decimal digit.
pub open spec fn is_digit() -> spec_fn(u8) -> bool {
    |b: u8| ZERO <= b <= ZERO + 9
}

/// The values of decimal digits.
pub open spec fn digit_values(s: Seq<u8>) -> Seq<int> {
    s.map_values(|b: u8| b - ZERO)
}

/// The digits at the front of a header value, after spaces.
pub open spec fn leading_digits(value: Seq<u8>) -> Seq<u8> {
    let rest = value.skip(prefix_len(value, is_space()) as int);
    rest.take(prefix_len(rest, is_digit()) as int)
}

/// The length that the value of a `Content-Length` header tells: that of the digits at its front,
/// after spaces, whatever follows them; without digits it is zero.
pub open spec fn length_value(value: Seq<u8>) -> int {
    decimal(digit_values(leading_digits(value)))
}

/// Whether a header is a `Content-Length` header with a value.
pub open spec fn tells_length(header: (Seq<char>, Seq<u8>)) -> bool {
    &&& same_letters(encode_utf8(header.0), encode_utf8("content-length"@))
    &&& header.1.len() > 0
}

/// The length of the body of a request with the given headers: the first one that tells it counts,
/// and without one there is no body.
pub open spec fn body_length(headers: Seq<(Seq<char>, Seq<u8>)>) -> int
    decreases headers.len(),
{
    if headers.len() == 0 {
        0
    } else if tells_length(headers[0]) {
        length_value(headers[0].1)
    } else {
        body_length(headers.skip(1))
    }
}

/// The query of a path: what follows the first question mark.
pub open spec fn query(path: Seq<u8>) -> Seq<u8> {
    if occurs(path, QUESTION) {
        after(path, QUESTION)
    } else {
        Seq::empty()
    }
}

proof fn lemma_digit_values(s: Seq<u8>, n: int)
    requires
        0 <= n <= s.len(),
        forall|i: int| 0 <= i < s.len() ==> is_digit()(#[trigger] s[i]),
    ensures
        0 <= decimal(digit_values(s.take(n))) <= decimal(digit_values(s)),
{
    assert(digit_values(s).take(n) =~= digit_values(s.take(n)));
    lemma_decimal_grows(digit_values(s), n);
}

/// The length that the value of a `Content-Length` header tells, unless it is too large for a
/// `usize`.
pub fn checked_content_length(bytes: &[u8]) -> (length: Option<usize>)
    ensures
        length is Some <==> length_value(bytes@) <= usize::MAX,
        length matches Some(n) ==> n == length_value(bytes@),
{
    let mut start: usize = 0;
    while start < bytes.len() && bytes[start] == SPACE
        invariant
            start <= bytes@.len(),
            forall|j: int| 0 <= j < start ==> #[trigger] bytes@[j] == SPACE,
        decreases bytes.len() - start,
    {
        start += 1;
    }
    let ghost rest = bytes@.skip(start as int);
    let ghost digits = leading_digits(bytes@);
    proof {
        lemma_prefix_len_is(bytes@, is_space(), start as nat);
        lemma_prefix_len(rest, is_digit());
        assert(forall|i: int| 0 <= i < digits.len() ==> is_digit()(#[trigger] digits[i]));
    }
    let mut result: usize = 0;
    let mut i: usize = start;
    while i < bytes.len()
        invariant_except_break
            i - start <= digits.len(),
        invariant
            start <= i <= bytes@.len(),
            rest == bytes@.skip(start as int),
            digits == leading_digits(bytes@),
            digits == rest.take(prefix_len(rest, is_digit()) as int),
            digits.len() == prefix_len(rest, is_digit()),
            digits.len() <= rest.len(),
            digits.len() < rest.len() ==> !is_digit()(rest[digits.len() as int]),
            forall|j: int| 0 <= j < digits.len() ==> is_digit()(#[trigger] digits[j]),
            i - start <= digits.len(),
            result == decimal(digit_values(digits.take(i - start))),
        ensures
            i - start == digits.len(),
        decreases bytes.len() - i,
    {
        let byte: u8 = bytes[i];
        if byte >= ZERO && byte <= ZERO + 9 {
            proof {
                if i - start < digits.len() {
                    let seen = digits.take(i - start);
                    let more = digits.take(i + 1 - start);
                    assert(digit_values(more) =~= digit_values(seen).push(byte - ZERO));
                    lemma_decimal_push(digit_values(seen), byte - ZERO);
                    lemma_digit_values(digits, i + 1 - start);
                }
            }
            let digit: usize = (byte - ZERO) as usize;
            match result.checked_mul(10) {
                Some(shifted) => match shifted.checked_add(digit) {
                    Some(sum) => {
                        result = sum;
                    },
                    None => {
                        return None;
                    },
                },
                None => {
                    return None;
                },
            }
            i += 1;
        } else {
            assert(i - start < digits.len() ==> digits[i - start] == rest[i - start]);
            break;
        }
    }
    assert(digits.take(i - start) =~= digits);
    Some(result)
}

/// The length that the value of a `Content-Length` header tells.
pub fn parse_content_length_fast(bytes: &[u8]) -> (length: usize)
    requires
        length_value(bytes@) <= usize::MAX,
    ensures
        length == length_value(bytes@),
{
    checked_content_length(bytes).unwrap()
}

/// A request whose head was received. The buffer holds what was received after the head.
pub struct Request<'buf> {
    pub head: Head,
    pub req_buf: &'buf mut BytesMut,
    /// The parameters of the body, once it was read as a form.
    pub post_params: Option<Params>,
}

impl<'buf> Request<'buf> {
    pub fn method(&self) -> (method: &str)
        ensures
            method@ == self.head@.method,
            method@ == self.head.method@,
    {
        self.head.method.as_str()
    }

    pub fn path(&self) -> (path: &str)
        ensures
            path@ == self.head@.path,
            path@ == self.head.path@,
    {
        self.head.path.as_str()
    }

    /// The minor version of HTTP.
    pub fn version(&self) -> (version: u8)
        ensures
            version == self.head@.version,
            version == self.head.version,
    {
        self.head.version
    }

    pub fn headers(&self) -> (headers: &[Header])
        ensures
            headers_view(headers@) == self.head@.headers,
            headers@ == self.head.headers@,
    {
        self.head.headers.as_slice()
    }

    /// Whether the length of the body is known to fit into a `usize`.
    pub open spec fn length_fits(&self) -> bool {
        body_length(self.head@.headers) <= usize::MAX
    }

    /// The length of the body, unless it is too large for a `usize`.
    pub fn checked_length(&self) -> (length: Option<usize>)
        ensures
            length is Some <==> self.length_fits(),
            length is Some <==> body_length(self.head@.headers) <= usize::MAX,
            length matches Some(n) ==> n == body_length(self.head@.headers),
    {
        let ghost all = self.head@.headers;
        let mut i: usize = 0;
        assert(all.skip(0) =~= all);
        while i < self.head.headers.len()
            invariant
                i <= self.head.headers@.len(),
                all == headers_view(self.head.headers@),
                all == self.head@.headers,
                body_length(all) == body_length(all.skip(i as int)),
            decreases self.head.headers.len() - i,
        {
            let header = &self.head.headers[i];
            if eq_ignore_case(header.name.as_str().as_bytes(), "content-length".as_bytes()) {
                if header.value.len() > 0 {
                    return checked_content_length(header.value.as_slice());
                }
            }
            assert(all.skip(i as int).skip(1) =~= all.skip(i + 1));
            i += 1;
        }
        Some(0)
    }

    /// The length of the body.
    pub fn content_length(&self) -> (length: usize)
        requires
            self.length_fits(),
        ensures
            length == body_length(self.head@.headers),
    {
        self.checked_length().unwrap()
    }

    /// Turns the request into a reader of its body.
    pub fn body(self) -> (reader: BodyReader<'buf>)
        requires
            self.length_fits(),
        ensures
            reader.body_limit == body_length(self.head@.headers),
            reader.total_read == 0,
            *reader.req_buf == *old(self.req_buf),
            *final(reader.req_buf) == *final(self.req_buf),
    {
        let limit = self.content_length();
        BodyReader { req_buf: self.req_buf, body_limit: limit, total_read: 0 }
    }

    /// The parameters of the query of the path.
    pub fn url_params(&self) -> (params: Params)
        ensures
            params@ == collected(query_pairs(query(encode_utf8(self.head@.path)))),
            params@ == collected(query_pairs(query(encode_utf8(self.head.path@)))),
            !occurs(encode_utf8(self.head@.path), QUESTION) ==> params@ == Map::<
                Seq<char>,
                Seq<char>,
            >::empty(),
    {
        let path = self.head.path.as_str().as_bytes();
        let place: usize = find_byte(path, QUESTION);
        let start: usize = if place < path.len() {
            place + 1
        } else {
            place
        };
        let part = slice_subrange(path, start, path.len());
        assert(part@ =~= query(path@));
        proof {
            empty_pieces_set_nothing(part@);
        }
        let pairs = parse_query(part);
        collect_params(pairs)
    }

    /// A reader of the body for its form parameters, or nothing if they are known already.
    pub fn post_body(&mut self) -> (reader: Option<BodyReader<'_>>)
        requires
            old(self).post_params is None ==> old(self).length_fits(),
        ensures
            reader is Some <==> old(self).post_params is None,
            final(self).head == old(self).head,
            final(self).post_params == old(self).post_params,
            *final(final(self).req_buf) == *final(old(self).req_buf),
            match reader {
                Some(reader) => {
                    &&& reader.body_limit == body_length(old(self).head@.headers)
                    &&& reader.total_read == 0
                    &&& *reader.req_buf == *old(self).req_buf
                    &&& *final(self).req_buf == *final(reader.req_buf)
                },
                None => *final(self).req_buf == *old(self).req_buf,
            },
    {
        if self.post_params.is_some() {
            return None;
        }
        let limit = self.content_length();
        Some(BodyReader { req_buf: &mut *self.req_buf, body_limit: limit, total_read: 0 })
    }

    /// The form parameters of the body. `body` is the body as it was read, or nothing if it could
    /// not be read; it counts only while the parameters are not known.
    pub fn post_params(&mut self, body: Option<Vec<u8>>) -> (params: Option<&Params>)
        ensures
            final(self).head == old(self).head,
            *final(self).req_buf == *old(self).req_buf,
            *final(final(self).req_buf) == *final(old(self).req_buf),
            old(self).post_params is Some ==> final(self).post_params == old(self).post_params,
            old(self).post_params is None ==> {
                &&& final(self).post_params is Some <==> (body matches Some(bytes) && valid_utf8(
                    bytes@,
                ))
                &&& final(self).post_params matches Some(known) ==> known@ == form_params(body->0@)
            },
            params is Some <==> final(self).post_params is Some,
            params matches Some(known) ==> *known == final(self).post_params->0,
    {
        if self.post_params.is_none() {
            if let Some(bytes) = body {
                let ghost given = bytes@;
                if let Some(text) = string_from_utf8(bytes) {
                    proof {
                        decode_utf8_encode_utf8(given);
                    }
                    self.post_params = Some(parse_form_urlencoded(text.as_str()));
                }
            }
        }
        self.post_params.as_ref()
    }

    /// A short description: the method and the path.
    pub fn debug_text(&self) -> (text: String)
        ensures
            text@ == "<HTTP Request "@ + self.head@.method + " "@ + self.head@.path + ">"@,
            text@ == "<HTTP Request "@ + self.head.method@ + " "@ + self.head.path@ + ">"@,
    {
        let mut text = String::new();
        text.append("<HTTP Request ");
        text.append(self.head.method.as_str());
        text.append(" ");
        text.append(self.head.path.as_str());
        text.append(">");
        text
    }
}

/// Makes a request of what parsing the buffer came to, and takes the head out of the buffer.
pub fn decode_parsed<'buf>(req_buf: &'buf mut BytesMut, outcome: Outcome) -> (request: Result<
    Option<Request<'buf>>,
    InvalidData,
>)
    requires
        outcome matches Ok(Some((used, head))) ==> used <= contents(*old(req_buf)).len(),
    ensures
        match (outcome, request) {
            (Ok(Some((used, head))), Ok(Some(req))) => {
                &&& req.head == head
                &&& req.post_params is None
                &&& contents(*req.req_buf) == contents(*old(req_buf)).skip(used as int)
                &&& *final(req_buf) == *final(req.req_buf)
            },
            (Ok(None), Ok(None)) => *final(req_buf) == *old(req_buf),
            (Err(e), Err(error)) => error == e && *final(req_buf) == *old(req_buf),
            _ => false,
        },
{
    match outcome {
        Ok(Some((used, head))) => {
            advance(req_buf, used);
            Ok(Some(Request { head, req_buf, post_params: None }))
        },
        Ok(None) => Ok(None),
        Err(e) => Err(e),
    }
}

/// What a buffer starts with.
pub enum Decoding {
    /// A request with this head, and these bytes after the head.
    Request(HeadModel, Seq<u8>),
    /// The head of a request that is not complete.
    Incomplete,
    /// No request, for this reason.
    Invalid(Seq<char>),
}

impl Decoding {
    /// The same with more bytes behind those of the buffer.
    pub open spec fn followed_by(self, more: Seq<u8>) -> Decoding {
        match self {
            Decoding::Request(head, rest) => Decoding::Request(head, rest + more),
            other => other,
        }
    }
}

/// What a buffer with the given bytes starts with.
pub open spec fn decoding(received: Seq<u8>) -> Decoding {
    match parsed(received, MAX_HEADERS as nat) {
        Ok(Some((used, head))) => Decoding::Request(head, received.skip(used as int)),
        Ok(None) => Decoding::Incomplete,
        Err(message) => Decoding::Invalid(message),
    }
}

/// Whether what a buffer starts with is known for good: nothing that is received later changes it.
pub open spec fn settled(received: Seq<u8>) -> bool {
    forall|more: Seq<u8>| #[trigger]
        decoding(received + more) == decoding(received).followed_by(more)
}

pub(crate) proof fn lemma_settled(received: Seq<u8>, outcome: Outcome)
    requires
        outcome_view(outcome) == parsed(received, MAX_HEADERS as nat),
        outcome matches Ok(Some((used, head))) ==> used <= received.len(),
        !(outcome matches Ok(None)) ==> forall|more: Seq<u8>| #[trigger]
            parsed(received + more, MAX_HEADERS as nat) == outcome_view(outcome),
    ensures
        !(outcome matches Ok(None)) ==> settled(received),
{
    if let Ok(Some((used, head))) = outcome {
        assert forall|more: Seq<u8>| #[trigger]
            decoding(received + more) == decoding(received).followed_by(more) by {
            assert((received + more).skip(used as int) =~= received.skip(used as int) + more);
        }
    }
}

/// Whether a request is taken out of a buffer: its head takes up some of the bytes, what follows
/// them is left, and with fewer of the bytes the head is not complete.
pub open spec fn takes_out(received: Seq<u8>, head: HeadModel, rest: Seq<u8>) -> bool {
    parsed(received, MAX_HEADERS as nat) matches Ok(Some((used, found))) && {
        &&& found == head
        &&& 0 < used <= received.len()
        &&& rest == received.skip(used as int)
        &&& head.headers.len() <= MAX_HEADERS
        &&& head.version <= 1
        &&& forall|k: int| 0 <= k < used ==> decoding(#[trigger] received.take(k)) is Incomplete
    }
}

/// Takes the first request out of the buffer: nothing while its head is not complete, and an error
/// if it is no request. In both cases the buffer stays as it is. A request that is found, or an
/// error, does not depend on what is received later.
pub fn decode<'buf>(req_buf: &'buf mut BytesMut) -> (request: Result<
    Option<Request<'buf>>,
    InvalidData,
>)
    ensures
        match (decoding(contents(*old(req_buf))), request) {
            (Decoding::Request(head, rest), Ok(Some(req))) => {
                &&& req.head@ == head
                &&& takes_out(contents(*old(req_buf)), head, rest)
                &&& req.post_params is None
                &&& contents(*req.req_buf) == rest
                &&& *final(req_buf) == *final(req.req_buf)
            },
            (Decoding::Incomplete, Ok(None)) => *final(req_buf) == *old(req_buf),
            (Decoding::Invalid(message), Err(error)) => error.message@ == message && *final(req_buf)
                == *old(req_buf),
            _ => false,
        },
        contents(*old(req_buf)).len() == 0 ==> request matches Ok(None),
        match (parsed(contents(*old(req_buf)), 16), request) {
            (Ok(Some((used, head))), Ok(Some(req))) => {
                let received = contents(*old(req_buf));
                &&& 0 < used <= received.len()
                &&& received == received.take(used as int) + contents(*req.req_buf)
                &&& req.head.method@ == head.method && req.head.path@ == head.path
                &&& req.head.version == head.version
                &&& req.head@.headers == head.headers
                &&& head.headers.len() <= 16 && head.version <= 1
                &&& forall|more: Seq<u8>| #[trigger]
                    parsed(received + more, 16) == parsed(received, 16)
                &&& forall|k: int|
                    0 <= k < used ==> (parsed(#[trigger] received.take(k), 16) matches Ok(None))
            },
            (Ok(None), Ok(None)) => *final(req_buf) == *old(req_buf),
            (Err(message), Err(error)) => {
                &&& error.message@ == message
                &&& *final(req_buf) == *old(req_buf)
                &&& forall|more: Seq<u8>| #[trigger]
                    parsed(contents(*old(req_buf)) + more, 16) == parsed(
                        contents(*old(req_buf)),
                        16,
                    )
            },
            _ => false,
        },
        !(request matches Ok(None)) ==> settled(contents(*old(req_buf))),
{
    let outcome = parse_head(chunk(req_buf), MAX_HEADERS);
    proof {
        lemma_settled(contents(*old(req_buf)), outcome);
    }
    decode_parsed(req_buf, outcome)
}

/// A head is found as soon as all its bytes are there: before, the buffer is left as it is, and
/// with the rest behind it the same request is found as in all bytes at once.
pub proof fn head_is_found_once_complete(
    received: Seq<u8>,
    head: HeadModel,
    rest: Seq<u8>,
    k: int,
)
    requires
        takes_out(received, head, rest),
        0 <= k < received.len() - rest.len(),
    ensures
        decoding(received.take(k)) is Incomplete,
        decoding(received.take(k) + received.skip(k)) == Decoding::Request(head, rest),
{
    assert(received.take(k) + received.skip(k) =~= received);
}

/// A number written in decimal digits, as the value of a `Content-Length` header, tells that number
/// as the length of the body, and so it does after spaces and zeros and before anything but a
/// digit.
pub proof fn written_length_is_read_back(
    n: nat,
    spaces: Seq<u8>,
    zeros: Seq<u8>,
    digits: Seq<u8>,
    rest: Seq<u8>,
)
    requires
        forall|i: int| 0 <= i < spaces.len() ==> #[trigger] spaces[i] == SPACE,
        forall|i: int| 0 <= i < zeros.len() ==> #[trigger] zeros[i] == ZERO,
        digit_values(digits) == digits_of(n),
        rest.len() > 0 ==> !is_digit()(rest[0]),
    ensures
        length_value(spaces + zeros + digits + rest) == n,
{
    let value = spaces + zeros + digits + rest;
    let number = zeros + digits;
    lemma_digits_of(n);
    assert forall|i: int| 0 <= i < number.len() implies is_digit()(#[trigger] number[i]) by {
        if i >= zeros.len() {
            assert(digit_values(digits)[i - zeros.len()] == digits[i - zeros.len()] - ZERO);
        }
    }
    assert(number.len() > 0 && value[spaces.len() as int] == number[0]);
    lemma_prefix_len_is(value, is_space(), spaces.len());
    let tail = value.skip(spaces.len() as int);
    assert(forall|i: int| 0 <= i < number.len() ==> #[trigger] tail[i] == number[i]);
    lemma_prefix_len_is(tail, is_digit(), number.len());
    assert(tail.take(number.len() as int) =~= number);
    assert(digit_values(number) =~= digit_values(zeros) + digit_values(digits));
    lemma_decimal_zeros(digit_values(zeros), digit_values(digits));
}

} // verus!
