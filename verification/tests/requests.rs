use bytes::BytesMut;
use fio::body::{FillStep, ReadStep};
use fio::buf::{missing_room, reserve_buf, BUF_LEN};
use fio::request::{
    checked_content_length, decode, decode_parsed, parse_content_length_fast, Request,
};
use fio::{BodyReader, Head, Header, InvalidData};

fn buffer(text: &str) -> BytesMut {
    BytesMut::from(text.as_bytes())
}

fn header(name: &str, value: &str) -> Header {
    Header { name: name.to_string(), value: value.as_bytes().to_vec() }
}

fn head(path: &str, headers: Vec<Header>) -> Head {
    Head { method: "GET".to_string(), path: path.to_string(), version: 1, headers }
}

fn request<'a>(buf: &'a mut BytesMut, path: &str, headers: Vec<Header>) -> Request<'a> {
    Request { head: head(path, headers), req_buf: buf, post_params: None }
}

#[test]
fn complete_head_is_taken_out() {
    let mut buf = buffer("POST /a?b=c HTTP/1.0\r\nHost: x\r\nContent-Length: 3\r\n\r\nabcGET");
    {
        let req = decode(&mut buf).unwrap().unwrap();
        assert_eq!(req.method(), "POST");
        assert_eq!(req.path(), "/a?b=c");
        assert_eq!(req.version(), 0);
        assert_eq!(req.headers(), &[header("Host", "x"), header("Content-Length", "3")][..]);
        assert_eq!(req.content_length(), 3);
        assert!(req.post_params.is_none());
        assert_eq!(req.debug_text(), "<HTTP Request POST /a?b=c>");
    }
    assert_eq!(&buf[..], b"abcGET");
}

#[test]
fn incomplete_head_stays() {
    for text in ["", "GET", "GET / HTTP/1.1\r\nHost: x\r\n"] {
        let mut buf = buffer(text);
        assert!(decode(&mut buf).unwrap().is_none());
        assert_eq!(&buf[..], text.as_bytes());
    }
}

#[test]
fn head_is_found_with_its_last_byte() {
    let sent = b"\r\nPUT /a HTTP/1.1\r\nHost: x\r\nContent-Length: 2\r\n\r\nab";
    let used = sent.len() - 2;
    for k in 0..used {
        let mut buf = BytesMut::from(&sent[..k]);
        assert!(decode(&mut buf).unwrap().is_none());
        assert_eq!(&buf[..], &sent[..k]);
        buf.extend_from_slice(&sent[k..]);
        assert_eq!(decode(&mut buf).unwrap().unwrap().path(), "/a");
        assert_eq!(&buf[..], b"ab");
    }
    let mut buf = BytesMut::from(&sent[..used]);
    assert_eq!(decode(&mut buf).unwrap().unwrap().content_length(), 2);
    assert!(buf.is_empty());
}

fn refusal(text: &str) -> String {
    let mut buf = buffer(text);
    let message = match decode(&mut buf) {
        Err(e) => e.message,
        Ok(_) => panic!("accepted"),
    };
    assert_eq!(&buf[..], text.as_bytes());
    message
}

#[test]
fn no_request_is_refused() {
    assert_eq!(refusal("G\u{1}T / HTTP/1.1\r\n\r\n"), "invalid token");
    assert_eq!(refusal("GET / HTTP/2.0\r\n\r\n"), "invalid HTTP version");
    assert_eq!(refusal("GET / HTTP/1.1\rX"), "invalid new line");
    assert_eq!(refusal("GET / HTTP/1.1\r\nA B: c\r\n\r\n"), "invalid header name");
    assert_eq!(refusal("GET / HTTP/1.1\r\nA: \u{1}\r\n\r\n"), "invalid header value");
}

#[test]
fn number_of_headers_is_limited() {
    let lines = |n: usize| -> String { (0..n).map(|i| format!("H{}: v\r\n", i)).collect() };
    let mut buf = buffer(&format!("GET / HTTP/1.1\r\n{}\r\n", lines(16)));
    assert_eq!(decode(&mut buf).unwrap().unwrap().headers().len(), 16);
    assert_eq!(refusal(&format!("GET / HTTP/1.1\r\n{}\r\n", lines(17))), "too many headers");
}

#[test]
fn parsed_outcomes_become_requests() {
    let mut buf = buffer("0123456789");
    {
        let req = decode_parsed(&mut buf, Ok(Some((4, head("/x", vec![]))))).unwrap().unwrap();
        assert_eq!(req.path(), "/x");
        assert_eq!(&req.req_buf[..], b"456789");
    }
    assert_eq!(&buf[..], b"456789");
    assert!(decode_parsed(&mut buf, Ok(None)).unwrap().is_none());
    assert_eq!(&buf[..], b"456789");
    let bad = InvalidData { message: "bad".to_string() };
    assert_eq!(decode_parsed(&mut buf, Err(bad)).err().unwrap().message, "bad");
    assert_eq!(&buf[..], b"456789");
}

#[test]
fn content_length_is_the_number_at_the_front() {
    assert_eq!(parse_content_length_fast(b"42"), 42);
    assert_eq!(parse_content_length_fast(b"   7 "), 7);
    assert_eq!(parse_content_length_fast(b"12abc34"), 12);
    assert_eq!(parse_content_length_fast(b"0012"), 12);
    assert_eq!(parse_content_length_fast(b""), 0);
    assert_eq!(parse_content_length_fast(b"-1"), 0);
    assert_eq!(parse_content_length_fast(b"\t5"), 0);
}

#[test]
fn written_length_comes_back() {
    for n in [0usize, 1, 9, 10, 255, 65536, usize::MAX] {
        assert_eq!(parse_content_length_fast(n.to_string().as_bytes()), n);
        assert_eq!(parse_content_length_fast(format!("  {}, x", n).as_bytes()), n);
        assert_eq!(parse_content_length_fast(format!(" 000{};1", n).as_bytes()), n);
    }
}

#[test]
fn too_large_length_is_noticed() {
    let above = (usize::MAX as u128 + 1).to_string();
    assert_eq!(checked_content_length(above.as_bytes()), None);
    assert_eq!(checked_content_length(b"99999999999999999999999999"), None);
    assert_eq!(checked_content_length(b"17"), Some(17));
    let mut buf = BytesMut::new();
    let req = request(&mut buf, "/", vec![header("content-length", &above)]);
    assert_eq!(req.checked_length(), None);
}

#[test]
fn first_content_length_with_a_value_counts() {
    let mut buf = BytesMut::new();
    let length = |headers: Vec<Header>| -> usize {
        let mut buf = BytesMut::new();
        request(&mut buf, "/", headers).content_length()
    };
    assert_eq!(length(vec![]), 0);
    assert_eq!(length(vec![header("Host", "9")]), 0);
    assert_eq!(length(vec![header("cOnTeNt-LeNgTh", "5")]), 5);
    assert_eq!(
        length(vec![
            header("Content-Length", ""),
            header("Content-Lengths", "1"),
            header("Content-Length", "6"),
            header("Content-Length", "7"),
        ]),
        6
    );
    assert_eq!(request(&mut buf, "/", vec![header("Content_Length", "5")]).content_length(), 0);
}

#[test]
fn query_sets_parameters() {
    let mut buf = BytesMut::new();
    let params = request(&mut buf, "/p?a=1&b=x+y%21&a=2&c", vec![]).url_params();
    assert_eq!(params.get("a"), Some("2"));
    assert_eq!(params.get("b"), Some("x y!"));
    assert_eq!(params.get("c"), Some(""));
    assert_eq!(params.entries().len(), 3);
    let params = request(&mut buf, "/p?q=a?b", vec![]).url_params();
    assert_eq!(params.get("q"), Some("a?b"));
}

#[test]
fn written_query_comes_back() {
    let escape = |text: &str| -> String { text.bytes().map(|b| format!("%{:02X}", b)).collect() };
    let sent = [("a&b", "1=2"), ("", ""), ("gr\u{fc}n", "x y+%"), ("a&b", "later")];
    let pieces: Vec<String> =
        sent.iter().map(|(name, value)| format!("{}={}", escape(name), escape(value))).collect();
    let mut buf = BytesMut::new();
    let params = request(&mut buf, &format!("/p?{}", pieces.join("&")), vec![]).url_params();
    assert_eq!(params.get("a&b"), Some("later"));
    assert_eq!(params.get(""), Some(""));
    assert_eq!(params.get("gr\u{fc}n"), Some("x y+%"));
    assert_eq!(params.entries().len(), 3);
}

#[test]
fn query_is_decoded_leniently() {
    let mut buf = BytesMut::new();
    let mut value = |query: &str, name: &str| -> Option<String> {
        let params = request(&mut buf, &format!("/?{}", query), vec![]).url_params();
        params.get(name).map(str::to_string)
    };
    assert_eq!(value("a=%4a%4A%7", "a").as_deref(), Some("JJ%7"));
    assert_eq!(value("a=%zz%+1%", "a").as_deref(), Some("%zz% 1%"));
    assert_eq!(value("a=%%41", "a").as_deref(), Some("%A"));
    assert_eq!(value("a=%2B+", "a").as_deref(), Some("+ "));
    assert_eq!(value("a=x%ffy", "a").as_deref(), Some("x\u{fffd}y"));
    assert_eq!(value("a=1=2", "a").as_deref(), Some("1=2"));
    assert_eq!(value("=1", "").as_deref(), Some("1"));
    assert_eq!(value("&&a&&", "a").as_deref(), Some(""));
    assert_eq!(value("a=1&a", "a").as_deref(), Some(""));
}

#[test]
fn empty_pieces_of_a_query_set_nothing() {
    let mut buf = BytesMut::new();
    for (query, n) in [("", 0), ("&", 0), ("&&&", 0), ("&=&", 1), ("a&&b", 2)] {
        let params = request(&mut buf, &format!("/?{}", query), vec![]).url_params();
        assert_eq!(params.entries().len(), n);
    }
}

#[test]
fn path_without_query_has_no_parameters() {
    let mut buf = BytesMut::new();
    assert!(request(&mut buf, "/p&a=1", vec![]).url_params().entries().is_empty());
    assert!(request(&mut buf, "/p?", vec![]).url_params().entries().is_empty());
}

#[test]
fn form_parameters_are_remembered() {
    let mut buf = buffer("a=1&b=2next");
    let mut req = request(&mut buf, "/", vec![header("Content-Length", "7")]);
    let body = {
        let reader = req.post_body().unwrap();
        assert_eq!(reader.body_limit, 7);
        let body = reader.fill_buf().to_vec();
        reader.finish();
        body
    };
    assert_eq!(body, b"a=1&b=2");
    assert_eq!(req.post_params(Some(body)).unwrap().get("b"), Some("2"));
    assert!(req.post_body().is_none());
    assert_eq!(req.post_params(None).unwrap().get("a"), Some("1"));
    assert_eq!(req.post_params(Some(b"a=9".to_vec())).unwrap().get("a"), Some("1"));
    assert_eq!(&buf[..], b"next");
}

#[test]
fn body_that_is_no_text_has_no_parameters() {
    let mut buf = BytesMut::new();
    let mut req = request(&mut buf, "/", vec![]);
    assert!(req.post_params(None).is_none());
    assert!(req.post_params(Some(vec![0xff])).is_none());
    assert!(req.post_body().is_some());
    assert!(req.post_params(Some(vec![])).unwrap().entries().is_empty());
}

fn reader(buf: &mut BytesMut, limit: usize) -> BodyReader<'_> {
    BodyReader { req_buf: buf, body_limit: limit, total_read: 0 }
}

#[test]
fn body_is_read_out_of_the_buffer() {
    let mut buf = buffer("helloGET /");
    {
        let req = request(&mut buf, "/", vec![header("Content-Length", "5")]);
        let mut body = req.body();
        assert_eq!(body.body_limit, 5);
        match body.poll_read(3) {
            ReadStep::Data(data) => assert_eq!(&data[..], b"hel"),
            step => panic!("{:?}", step),
        }
        match body.poll_read(100) {
            ReadStep::Data(data) => assert_eq!(&data[..], b"lo"),
            step => panic!("{:?}", step),
        }
        assert!(matches!(body.poll_read(100), ReadStep::End));
        assert_eq!(body.total_read, 5);
        body.finish();
    }
    assert_eq!(&buf[..], b"GET /");
}

#[test]
fn rest_of_the_body_is_received() {
    let mut buf = buffer("he");
    let mut body = reader(&mut buf, 5);
    assert!(matches!(body.poll_read(9), ReadStep::Data(data) if &data[..] == b"he"));
    assert!(matches!(body.poll_read(2), ReadStep::Receive(3)));
    assert_eq!(&body.read_received(b"llo", 2)[..], b"ll");
    assert!(matches!(body.poll_read(9), ReadStep::Data(data) if &data[..] == b"o"));
    assert!(matches!(body.poll_read(9), ReadStep::End));
}

#[test]
fn no_more_is_received_than_the_buffer_takes() {
    let mut buf = BytesMut::new();
    let mut body = reader(&mut buf, 1 << 30);
    match body.poll_read(1) {
        ReadStep::Receive(most) => assert!(0 < most && most < 1 << 30),
        step => panic!("{:?}", step),
    }
}

#[test]
fn end_of_the_stream_is_an_empty_read() {
    let mut buf = BytesMut::new();
    let mut body = reader(&mut buf, 5);
    assert!(matches!(body.poll_read(4), ReadStep::Receive(5)));
    assert!(body.read_received(b"", 4).is_empty());
    assert_eq!(body.total_read, 0);
}

#[test]
fn body_is_read_through_its_buffer() {
    let mut buf = buffer("abcdeXYZ");
    {
        let mut body = reader(&mut buf, 5);
        assert_eq!(body.poll_fill_buf(), FillStep::Ready);
        assert_eq!(body.fill_buf(), b"abcde");
        body.consume(2);
        assert_eq!(body.fill_buf(), b"cde");
        body.consume(3);
        assert_eq!(body.poll_fill_buf(), FillStep::End);
        assert_eq!(body.fill_buf(), b"");
    }
    assert_eq!(&buf[..], b"XYZ");
}

#[test]
fn buffered_reader_receives_when_empty() {
    let mut buf = BytesMut::new();
    let mut body = reader(&mut buf, 4);
    assert_eq!(body.poll_fill_buf(), FillStep::Receive(4));
    body.fill_received(b"ab");
    assert_eq!(body.fill_buf(), b"ab");
    body.consume(2);
    assert_eq!(body.poll_fill_buf(), FillStep::Receive(2));
    body.fill_received(b"");
    assert_eq!(body.fill_buf(), b"");
}

#[test]
fn end_of_reading_drops_the_rest_of_the_body() {
    let mut buf = buffer("0123456789");
    let mut body = reader(&mut buf, 6);
    body.consume(1);
    body.finish();
    assert_eq!(&buf[..], b"6789");
    let mut buf = buffer("01");
    reader(&mut buf, 6).finish();
    assert!(buf.is_empty());
}

#[test]
fn room_is_asked_for_when_it_gets_short() {
    assert_eq!(missing_room(2000, 976), None);
    assert_eq!(missing_room(2000, 977), Some(BUF_LEN - 1023));
    assert_eq!(missing_room(0, 0), Some(32768));
    assert_eq!(missing_room(5, 5), Some(BUF_LEN));
}

#[test]
fn reserving_keeps_the_bytes() {
    let mut buf = buffer("kept");
    reserve_buf(&mut buf);
    assert_eq!(&buf[..], b"kept");
    assert!(buf.capacity() - buf.len() >= 1024);
}

#[test]
fn room_is_given_only_when_it_is_short() {
    let mut buf = BytesMut::with_capacity(2000);
    buf.extend_from_slice(&[7; 900]);
    let (place, capacity) = (buf.as_ptr(), buf.capacity());
    reserve_buf(&mut buf);
    assert_eq!((buf.as_ptr(), buf.capacity()), (place, capacity));
    while buf.capacity() - buf.len() >= 1024 {
        buf.extend_from_slice(&[7]);
    }
    let (held, rem) = (buf.to_vec(), buf.capacity() - buf.len());
    reserve_buf(&mut buf);
    assert_eq!(&buf[..], &held[..]);
    assert!(buf.capacity() - buf.len() >= BUF_LEN - rem);
}

#[test]
fn no_more_is_asked_for_than_body_and_buffer_take() {
    for limit in [1, 1023, 1024, 40_000, usize::MAX] {
        for capacity in [0, 500, 1024, 2000, 50_000] {
            let mut buf = BytesMut::with_capacity(capacity);
            let fill = reader(&mut buf, limit).poll_fill_buf();
            assert_eq!(fill, FillStep::Receive(limit.min(buf.capacity())));
            let mut buf = BytesMut::with_capacity(capacity);
            match reader(&mut buf, limit).poll_read(7) {
                ReadStep::Receive(most) => assert_eq!(most, limit.min(buf.capacity())),
                _ => panic!("nothing to receive"),
            }
            assert!(buf.capacity() >= 1024);
        }
    }
}
