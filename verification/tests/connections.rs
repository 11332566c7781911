use bytes::BytesMut;
use fio::connection::{serve_all, Connection, LoopEnd, RoundEnd, Step};
use fio::head::should_close;
use fio::uring::{self, first_buffer, goes_on, POOL_SIZE};
use fio::{Head, Header, InvalidData, Request};
use fio::buf::BUF_LEN;
use std::cell::RefCell;

fn header(name: &str, value: &[u8]) -> Header {
    Header { name: name.to_string(), value: value.to_vec() }
}

fn head(headers: Vec<Header>) -> Head {
    Head { method: "GET".to_string(), path: "/".to_string(), version: 1, headers }
}

const TWO: &[u8] = b"GET /1 HTTP/1.1\r\n\r\nGET /2 HTTP/1.1\r\n\r\nGET /3";

#[test]
fn pipelined_requests_are_answered_before_sending() {
    let mut conn = Connection::new();
    assert!(matches!(conn.on_read(TWO), Step::Route(req) if req.path() == "/1"));
    assert!(matches!(conn.on_routed(b"one "), Step::Route(req) if req.path() == "/2"));
    assert!(matches!(conn.on_routed(b"two "), Step::Write));
    assert_eq!(&conn.take_answers()[..], b"one two ");
    assert!(conn.take_answers().is_empty());
    assert_eq!(&conn.req_buf[..], b"GET /3");
    assert!(matches!(conn.on_read(b" HTTP/1.1\r\n"), Step::Write));
    assert!(conn.take_answers().is_empty());
    assert!(matches!(conn.on_read(b"\r\n"), Step::Route(req) if req.path() == "/3"));
    assert!(matches!(conn.on_routed(b"three"), Step::Write));
    assert_eq!(&conn.take_answers()[..], b"three");
    assert!(matches!(conn.on_read(b""), Step::Shutdown));
}

/// Receives the parts one after the other and gives the paths of the requests, how a refusal was
/// put and what is left.
fn outcome_of(parts: &[&[u8]]) -> (Vec<String>, Option<String>, Vec<u8>) {
    let mut conn = Connection::new();
    let mut paths = Vec::new();
    for part in parts.iter().filter(|part| !part.is_empty()) {
        let mut step = conn.on_read(part);
        loop {
            match step {
                Step::Route(req) => paths.push(req.path().to_string()),
                Step::Fail(e) => return (paths, Some(e.message), Vec::new()),
                Step::Write => break,
                Step::Shutdown => panic!("shut down"),
            }
            step = conn.on_routed(b"x");
        }
    }
    (paths, None, conn.req_buf.to_vec())
}

#[test]
fn cuts_between_receives_do_not_change_the_requests() {
    let long = b"\r\nPOST /a-path-that-is-longer-than-a-block?with=%41 HTTP/1.0\r\nHost: x\r\n\
        A-Header:\t and a value that is longer than a block, too \r\n\r\nGET /2 HTTP/1.1\n\n";
    let wrong = b"GET /1 HTTP/1.1\r\n\r\nGET /2 HTTP/1.2\r\n\r\nGET /3 HTTP/1.1\r\n\r\n";
    assert_eq!(outcome_of(&[TWO]).0, ["/1", "/2"]);
    assert_eq!(outcome_of(&[TWO]).2, b"GET /3");
    assert_eq!(outcome_of(&[long]).0.len(), 2);
    assert_eq!(outcome_of(&[wrong]).1.as_deref(), Some("invalid HTTP version"));
    for sent in [TWO, &long[..], &wrong[..]] {
        for cut in 0..sent.len() {
            let (first, next) = sent.split_at(cut);
            assert_eq!(outcome_of(&[first, next]), outcome_of(&[sent]));
        }
        let bytes: Vec<&[u8]> = sent.chunks(1).collect();
        assert_eq!(outcome_of(&bytes), outcome_of(&[sent]));
    }
}

#[test]
fn what_is_no_request_ends_the_connection_unanswered() {
    let mut conn = Connection::new();
    assert!(matches!(conn.on_read(b"GET /1 HTTP/1.1\r\n\r\n\x01"), Step::Route(_)));
    match conn.on_routed(b"one") {
        Step::Fail(e) => assert_eq!(e.message, "invalid token"),
        _ => panic!("goes on"),
    }
    assert_eq!(&conn.rsp_buf[..], b"one");
}

#[test]
fn body_that_is_read_makes_way_for_the_next_request() {
    let mut conn = Connection::new();
    let sent = b"POST /1 HTTP/1.1\r\nContent-Length: 4\r\n\r\nGET GET /2 HTTP/1.1\r\n\r\n";
    match conn.on_read(sent) {
        Step::Route(req) => req.body().finish(),
        _ => panic!("no request"),
    }
    assert!(matches!(conn.on_routed(b"one"), Step::Route(req) if req.path() == "/2"));
}

#[test]
fn body_that_is_not_read_is_taken_for_a_request() {
    let mut conn = Connection::new();
    let sent = b"POST /1 HTTP/1.1\r\nContent-Length: 19\r\n\r\nGET /x HTTP/1.1\r\n\r\n";
    assert!(matches!(conn.on_read(sent), Step::Route(_)));
    assert!(matches!(conn.on_routed(b"one"), Step::Route(req) if req.path() == "/x"));
}

#[test]
fn outcomes_of_parsing_lead_to_steps() {
    let mut conn = Connection::new();
    conn.req_buf = BytesMut::from(&b"abcdef"[..]);
    match conn.route_parsed(Ok(Some((2, head(vec![]))))) {
        Step::Route(req) => assert_eq!(&req.req_buf[..], b"cdef"),
        _ => panic!("no request"),
    }
    assert!(matches!(conn.route_parsed(Ok(None)), Step::Write));
    let bad = InvalidData { message: "bad".to_string() };
    assert!(matches!(conn.route_parsed(Err(bad)), Step::Fail(e) if e.message == "bad"));
    assert_eq!(&conn.req_buf[..], b"cdef");
}

#[test]
fn connection_header_asks_to_close() {
    assert!(should_close(&vec![header("Connection", b"close")]));
    assert!(should_close(&vec![header("Host", b"x"), header("CONNECTION", b"keep-alive, CLOSE")]));
    assert!(should_close(&vec![header("connection", b"disclosed")]));
    assert!(!should_close(&vec![header("connection", b"keep-alive")]));
    assert!(!should_close(&vec![header("connection", b"clos")]));
    assert!(!should_close(&vec![header("connection", b"close\xff")]));
    assert!(!should_close(&vec![header("connections", b"close")]));
    assert!(!should_close(&vec![]));
}

#[test]
fn uring_takes_one_request_at_a_time() {
    let mut conn = uring::Connection::new();
    match conn.on_read(TWO) {
        uring::Step::Route(head, close) => {
            assert_eq!(head.path, "/1");
            assert!(!close);
        },
        uring::Step::Close => panic!("closed"),
    }
    assert_eq!(conn.on_routed(b"one"), b"one");
    match conn.on_read(b"GET /2 HTTP/1.1\r\nConnection: close\r\n\r\n") {
        uring::Step::Route(head, close) => {
            assert_eq!(head.path, "/2");
            assert!(close);
        },
        uring::Step::Close => panic!("closed"),
    }
    assert_eq!(conn.on_routed(b"two"), b"onetwo");
}

#[test]
fn uring_closes_without_a_complete_request() {
    let mut conn = uring::Connection::new();
    for data in [&b""[..], &b"GET / HTTP/1.1\r\n"[..], &b"\x01"[..]] {
        assert!(matches!(conn.on_read(data), uring::Step::Close));
    }
    let bad = InvalidData { message: "bad".to_string() };
    assert!(matches!(conn.route_parsed(Err(bad)), uring::Step::Close));
    assert!(matches!(conn.route_parsed(Ok(None)), uring::Step::Close));
    let closing = head(vec![header("Connection", b"close")]);
    assert!(matches!(
        conn.route_parsed(Ok(Some((1, closing)))),
        uring::Step::Route(_, true)
    ));
}

#[test]
fn uring_allows_more_headers() {
    let lines = |n: usize| -> String { (0..n).map(|i| format!("H{}: v\r\n", i)).collect() };
    let mut conn = uring::Connection::new();
    let most = format!("GET / HTTP/1.1\r\n{}\r\n", lines(32));
    assert!(matches!(conn.on_read(most.as_bytes()), uring::Step::Route(_, false)));
    let more = format!("GET / HTTP/1.1\r\n{}\r\n", lines(33));
    assert!(matches!(conn.on_read(more.as_bytes()), uring::Step::Close));
}

#[test]
fn more_is_received_unless_the_answer_was_the_last() {
    assert!(goes_on(true, false));
    assert!(!goes_on(true, true));
    assert!(!goes_on(false, false));
    assert!(!goes_on(false, true));
}

#[test]
fn first_free_buffer_is_taken() {
    let tried = RefCell::new(Vec::new());
    let found = first_buffer(|i: usize| {
        tried.borrow_mut().push(i);
        if i == 3 || i == 5 { Some(i * 10) } else { None }
    });
    assert_eq!(found, Some((3, 30)));
    assert_eq!(tried.into_inner(), vec![0, 1, 2, 3]);
    let tried = RefCell::new(0);
    let none: Option<(usize, u8)> = first_buffer(|_| {
        *tried.borrow_mut() += 1;
        None
    });
    assert_eq!(none, None);
    assert_eq!(tried.into_inner(), POOL_SIZE);
}

/// Answers with the path and the body, which it reads to its end.
fn echo(req: Request<'_>) -> Vec<u8> {
    let mut answer = format!("{}:", req.path()).into_bytes();
    if req.checked_length().is_none() {
        return b"too long".to_vec();
    }
    let reader = req.body();
    answer.extend_from_slice(reader.fill_buf());
    reader.finish();
    answer.push(b' ');
    answer
}

const POSTS: &[u8] = b"POST /1 HTTP/1.1\r\nContent-Length: 5\r\n\r\nhello\
    GET /2 HTTP/1.1\r\n\r\n\
    POST /3 HTTP/1.1\r\nContent-Length: 003\r\n\r\nGETGET /4";

#[test]
fn round_answers_all_requests_with_their_bodies() {
    let mut conn = Connection::new();
    assert!(conn.req_buf.capacity() >= BUF_LEN && conn.rsp_buf.capacity() >= BUF_LEN);
    assert!(matches!(conn.serve(POSTS, &echo), RoundEnd::Write));
    assert_eq!(&conn.req_buf[..], b"GET /4");
    assert_eq!(&conn.take_answers()[..], b"/1:hello /2: /3:GET ");
    assert!(matches!(conn.serve(b" HTTP/1.1\r\n\r\n\x01", &echo), RoundEnd::Fail(e)
        if e.message == "invalid token"));
    assert_eq!(&conn.rsp_buf[..], b"/4: ");
    assert_eq!(&conn.req_buf[..], b"\x01");
    assert!(matches!(conn.serve(b"", &echo), RoundEnd::Shutdown));
    assert_eq!(&conn.rsp_buf[..], b"/4: ");
}

#[test]
fn connection_writes_after_each_part() {
    let parts =
        |list: &[&str]| -> Vec<Vec<u8>> { list.iter().map(|p| p.as_bytes().to_vec()).collect() };
    let get = "GET /x HTTP/1.1\r\n\r\n";
    let sent = parts(&[&format!("{}{}GET ", get, get), "/y HTTP/1.1\r\n", "\r\n", "", get]);
    let (written, end) = serve_all(&sent, &echo);
    assert!(matches!(end, LoopEnd::Done));
    assert_eq!(written, parts(&["/x: /x: ", "", "/y: "]));
    let (written, end) = serve_all(&parts(&[get, &format!("{}?", get), get]), &echo);
    assert!(matches!(end, LoopEnd::Fail(e) if e.message == "invalid token"));
    assert_eq!(written, parts(&["/x: "]));
    let (written, end) = serve_all(&parts(&[]), &echo);
    assert!(matches!(end, LoopEnd::Done) && written.is_empty());
}

#[test]
fn parts_do_not_change_what_is_answered() {
    for n in 1..TWO.len() + 1 {
        let parts: Vec<Vec<u8>> = TWO.chunks(n).map(|part| part.to_vec()).collect();
        let (written, end) = serve_all(&parts, &echo);
        assert!(matches!(end, LoopEnd::Done));
        assert_eq!(written.concat(), b"/1: /2: ");
    }
}

/// Answers with the path and leaves the body.
fn by_path(req: Request<'_>) -> Vec<u8> {
    format!("{} ", req.path()).into_bytes()
}

#[test]
fn round_goes_on_with_what_the_service_leaves() {
    let mut conn = Connection::new();
    let sent = b"POST /1 HTTP/1.1\r\nContent-Length: 19\r\n\r\nGET /x HTTP/1.1\r\n\r\nGET";
    assert!(matches!(conn.serve(sent, &by_path), RoundEnd::Write));
    assert_eq!(&conn.take_answers()[..], b"/1 /x ");
    assert_eq!(&conn.req_buf[..], b"GET");
    let mut conn = Connection::new();
    assert!(matches!(conn.serve(sent, &echo), RoundEnd::Write));
    assert_eq!(&conn.take_answers()[..], b"/1:GET /x HTTP/1.1\r\n\r\n ");
    assert_eq!(&conn.req_buf[..], b"GET");
    let long = b"PUT / HTTP/1.1\r\nContent-Length: 99999999999999999999999\r\n\r\n";
    let mut conn = Connection::new();
    assert!(matches!(conn.serve(long, &echo), RoundEnd::Write));
    assert_eq!(&conn.take_answers()[..], b"too long");
}
