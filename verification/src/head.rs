//! Heads of HTTP requests: the request line and the headers.
use crate::scan::{contains_ignore_case, eq_ignore_case, mentions, same_letters};
use crate::text::str_from_utf8;
use vstd::prelude::*;
use vstd::utf8::{encode_utf8, valid_utf8};

verus! {

/// A header with its value as it was sent.
#[derive(Clone, Debug, PartialEq, Eq)]
pub struct Header {
    pub name: String,
    pub value: Vec<u8>,
}

impl View for Header {
    type V = (Seq<char>, Seq<u8>);

    open spec fn view(&self) -> (Seq<char>, Seq<u8>) {
        (self.name@, self.value@)
    }
}

/// The request line and the headers of a request.
#[derive(Clone, Debug, PartialEq, Eq)]
pub struct Head {
    pub method: String,
    pub path: String,
    /// The minor version: 1 for HTTP/1.1.
    pub version: u8,
    pub headers: Vec<Header>,
}

/// What a [`Head`] holds.
pub struct HeadModel {
    pub method: Seq<char>,
    pub path: Seq<char>,
    pub version: u8,
    pub headers: Seq<(Seq<char>, Seq<u8>)>,
}

pub open spec fn headers_view(headers: Seq<Header>) -> Seq<(Seq<char>, Seq<u8>)> {
    headers.map_values(|header: Header| header@)
}

impl View for Head {
    type V = HeadModel;

    open spec fn view(&self) -> HeadModel {
        HeadModel {
            method: self.method@,
            path: self.path@,
            version: self.version,
            headers: headers_view(self.headers@),
        }
    }
}

/// The reason why bytes are no request.
#[derive(Clone, Debug, PartialEq, Eq)]
pub struct InvalidData {
    pub message: String,
}

/// What an attempt to parse a head comes to: the number of bytes that the head takes up and the
/// head, nothing while the head is not complete, or the reason why it is none.
pub type Outcome = Result<Option<(usize, Head)>, InvalidData>;

/// What an [`Outcome`] holds.
pub type OutcomeModel = Result<Option<(nat, HeadModel)>, Seq<char>>;

pub open spec fn outcome_view(outcome: Outcome) -> OutcomeModel {
    match outcome {
        Ok(Some((used, head))) => Ok(Some((used as nat, head@))),
        Ok(None) => Ok(None),
        Err(e) => Err(e.message@),
    }
}

/// What `httparse::Request::parse` makes of a buffer when there is room for `max_headers` headers.
pub uninterp spec fn parsed(buf: Seq<u8>, max_headers: nat) -> Result<
    Option<(nat, HeadModel)>,
    Seq<char>,
>;

/// `httparse::Request::parse`: the head at the front of `buf`, with an error given by its text.
///
/// A complete head takes up some of the bytes and no more than there are, has no more headers than
/// there is room for, and is of version 1.0 or 1.1. No head is complete in an empty buffer. The
/// bytes are read once, from the front, up to the end of the head or to the first wrong byte, so
/// with more bytes behind them the same head is found, or the same error, and with fewer bytes
/// than the head takes up no head is complete and none is wrong.
#[verifier::external_body]
pub(crate) fn parse_head(buf: &[u8], max_headers: usize) -> (outcome: Outcome)
    requires
        max_headers <= u16::MAX,
    ensures
        outcome_view(outcome) == parsed(buf@, max_headers as nat),
        outcome matches Ok(Some((used, head))) ==> 0 < used <= buf@.len() && head.headers@.len()
            <= max_headers && head.version <= 1,
        buf@.len() == 0 ==> outcome matches Ok(None),
        !(outcome matches Ok(None)) ==> forall|more: Seq<u8>| #[trigger]
            parsed(buf@ + more, max_headers as nat) == outcome_view(outcome),
        outcome matches Ok(Some((used, head))) ==> forall|k: int|
            0 <= k < used ==> (parsed(#[trigger] buf@.take(k), max_headers as nat) matches Ok(
                None,
            )),
{
    let mut slots = vec![httparse::EMPTY_HEADER; max_headers];
    let mut req = httparse::Request::new(&mut slots);
    match req.parse(buf) {
        Ok(httparse::Status::Complete(used)) => {
            let method = req.method.unwrap().to_string();
            let path = req.path.unwrap().to_string();
            let own = |h: &httparse::Header| {
                Header { name: h.name.to_string(), value: h.value.to_vec() }
            };
            let headers = req.headers.iter().map(own).collect();
            Ok(Some((used, Head { method, path, version: req.version.unwrap(), headers })))
        },
        Ok(httparse::Status::Partial) => Ok(None),
        Err(e) => Err(InvalidData { message: e.to_string() }),
    }
}

/// Whether a header asks for the connection to be closed: it is a `Connection` header whose value
/// is text and mentions `close`, whatever the case.
pub open spec fn asks_close(header: (Seq<char>, Seq<u8>)) -> bool {
    &&& same_letters(encode_utf8(header.0), encode_utf8("connection"@))
    &&& valid_utf8(header.1)
    &&& mentions(header.1, encode_utf8("close"@))
}

/// Whether one of some headers asks for the connection to be closed.
pub fn should_close(headers: &Vec<Header>) -> (close: bool)
    ensures
        close == exists|i: int| 0 <= i < headers@.len() && asks_close((#[trigger] headers@[i])@),
{
    let mut close = false;
    let mut i: usize = 0;
    while i < headers.len()
        invariant
            i <= headers@.len(),
            close == exists|j: int| 0 <= j < i && asks_close((#[trigger] headers@[j])@),
        decreases headers.len() - i,
    {
        if eq_ignore_case(headers[i].name.as_str().as_bytes(), "connection".as_bytes()) {
            if let Some(_) = str_from_utf8(headers[i].value.as_slice()) {
                if contains_ignore_case(headers[i].value.as_slice(), "close".as_bytes()) {
                    close = true;
                }
            }
        }
        i += 1;
    }
    close
}

} // verus!
