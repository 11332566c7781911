use fio::form::{parse_form_urlencoded, percent_decode, percent_decode_bytes};
use fio::params::{collect_params, Params};

fn pair(name: &str, value: &str) -> (String, String) {
    (name.to_string(), value.to_string())
}

/// Each byte as a percent sign and two hexadecimal digits.
fn escape(text: &str) -> String {
    text.bytes().map(|b| format!("%{:02X}", b)).collect()
}

#[test]
fn plain_text_is_kept() {
    assert_eq!(percent_decode("hello-World_1.2~"), "hello-World_1.2~");
    assert_eq!(percent_decode(""), "");
    assert_eq!(percent_decode("grüße"), "grüße");
}

#[test]
fn plus_is_a_space() {
    assert_eq!(percent_decode("a+b++c"), "a b  c");
}

#[test]
fn hexadecimal_digits_make_up_a_byte() {
    assert_eq!(percent_decode("%41%62%2f%2F"), "Ab//");
    assert_eq!(percent_decode("%C3%BC"), "ü");
    assert_eq!(percent_decode("100%25"), "100%");
}

#[test]
fn missing_digits_are_zeros() {
    assert_eq!(percent_decode("a%"), "a\0");
    assert_eq!(percent_decode("a%4"), "a@");
}

#[test]
fn plus_sign_may_precede_one_digit() {
    assert_eq!(percent_decode("%+A"), "\n");
    assert_eq!(percent_decode("%+"), "\0");
    assert_eq!(percent_decode("%A+"), "?");
}

#[test]
fn other_letters_make_up_a_question_mark() {
    assert_eq!(percent_decode("%zz"), "?");
    assert_eq!(percent_decode("%4g!"), "?!");
    assert_eq!(percent_decode("%é"), "?");
}

#[test]
fn broken_letters_make_up_a_zero() {
    // The two bytes after the percent sign are a digit and half of a letter: they stand for zero,
    // and the other half makes the result no text.
    assert_eq!(percent_decode("%1é"), "");
    assert_eq!(percent_decode_bytes(&[0x25, 0x31, 0xc3]), "\0");
}

#[test]
fn bytes_that_are_no_text_decode_to_nothing() {
    assert_eq!(percent_decode("abc%FF"), "");
    assert_eq!(percent_decode("%C3"), "");
}

#[test]
fn every_pair_of_ascii_letters() {
    for hi in 0u8..128 {
        for lo in 0u8..128 {
            let letters = [hi, lo];
            let text = std::str::from_utf8(&letters).unwrap();
            let byte = u8::from_str_radix(text, 16).unwrap_or(0x3f);
            let expected = String::from_utf8(vec![byte]).unwrap_or_default();
            assert_eq!(percent_decode(&format!("%{}", text)), expected);
        }
    }
}

#[test]
fn escaped_text_comes_back() {
    for text in ["", "a", "name=value&more", "50% + 1", "grüße", "日本語", "\u{10ffff}\0"] {
        assert_eq!(percent_decode(&escape(text)), text);
    }
}

#[test]
fn form_sets_names() {
    let params = parse_form_urlencoded("user=ann&text=a+b%21&empty=");
    assert_eq!(params.get("user"), Some("ann"));
    assert_eq!(params.get("text"), Some("a b!"));
    assert_eq!(params.get("empty"), Some(""));
    assert_eq!(params.get("other"), None);
    assert_eq!(
        params.entries(),
        &vec![pair("user", "ann"), pair("text", "a b!"), pair("empty", "")]
    );
}

#[test]
fn pieces_without_equals_sign_are_left_out() {
    let params = parse_form_urlencoded("flag&&a=1&");
    assert_eq!(params.entries(), &vec![pair("a", "1")]);
    assert!(parse_form_urlencoded("").entries().is_empty());
}

#[test]
fn only_the_first_equals_sign_separates() {
    assert_eq!(parse_form_urlencoded("a=b=c").get("a"), Some("b=c"));
    assert_eq!(parse_form_urlencoded("=x").get(""), Some("x"));
}

#[test]
fn later_value_counts() {
    let params = parse_form_urlencoded("a=1&b=2&a=3");
    assert_eq!(params.entries(), &vec![pair("a", "3"), pair("b", "2")]);
    let params = collect_params(vec![pair("x", "1"), pair("y", "2"), pair("x", "")]);
    assert_eq!(params.get("x"), Some(""));
    assert_eq!(params.get("y"), Some("2"));
    assert_eq!(params.entries().len(), 2);
}

#[test]
fn written_form_comes_back() {
    let pairs = vec![pair("a&b", "1=2"), pair("", "ü + %"), pair("a&b", "x")];
    let form: Vec<String> =
        pairs.iter().map(|(n, v)| format!("{}={}", escape(n), escape(v))).collect();
    let params = parse_form_urlencoded(&form.join("&"));
    assert_eq!(params.entries(), collect_params(pairs).entries());
    assert_eq!(params.get("a&b"), Some("x"));
    assert_eq!(params.get(""), Some("ü + %"));
}

#[test]
fn params_start_empty() {
    let params = Params::new();
    assert!(params.entries().is_empty());
    assert_eq!(params.get(""), None);
    assert_eq!(params.with("k".to_string(), "v".to_string()).get("k"), Some("v"));
}

#[test]
fn text_comes_back_however_it_is_written() {
    let ways =
        ["a b/\u{fc}", "a+b/\u{fc}", "a%20b%2f%C3%bc", "%61+b%2F\u{fc}", "%61%20%62/%c3%BC"];
    for written in ways {
        assert_eq!(percent_decode(written), "a b/\u{fc}");
        let params = parse_form_urlencoded(&format!("{}=1&x={}==", written, written));
        assert_eq!(params.get("a b/\u{fc}"), Some("1"));
        assert_eq!(params.get("x"), Some("a b/\u{fc}=="));
    }
}
