//! Text: UTF-8, Unicode white space and decimal numbers.
use crate::scan::{
    decimal, lemma_decimal_grows, lemma_decimal_push, lemma_prefix_len, lemma_prefix_len_is,
    prefix_len,
};
use vstd::prelude::*;
use vstd::utf8::{decode_utf8, valid_utf8};

verus! {

/// `String::from_utf8`: the text that the bytes encode. It succeeds exactly on valid UTF-8, and
/// the text then holds the encoded characters.
#[verifier::external_body]
pub(crate) fn string_from_utf8(bytes: Vec<u8>) -> (text: Option<String>)
    ensures
        text is Some <==> valid_utf8(bytes@),
        text matches Some(s) ==> s@ == decode_utf8(bytes@),
{
    String::from_utf8(bytes).ok()
}

/// `std::str::from_utf8`: the bytes seen as text. It succeeds exactly on valid UTF-8, and the
/// text then holds the encoded characters.
#[verifier::external_body]
pub(crate) fn str_from_utf8(bytes: &[u8]) -> (text: Option<&str>)
    ensures
        text is Some <==> valid_utf8(bytes@),
        text matches Some(s) ==> s@ == decode_utf8(bytes@),
{
    std::str::from_utf8(bytes).ok()
}

/// What `String::from_utf8_lossy` makes of a byte string.
pub uninterp spec fn lossy_text(bytes: Seq<u8>) -> Seq<char>;

/// `String::from_utf8_lossy`: the text that the bytes encode, with a replacement character for
/// each stretch that is no valid UTF-8. On valid UTF-8 nothing is replaced.
#[verifier::external_body]
pub(crate) fn string_from_utf8_lossy(bytes: &[u8]) -> (text: String)
    ensures
        text@ == lossy_text(bytes@),
        valid_utf8(bytes@) ==> text@ == decode_utf8(bytes@),
{
    String::from_utf8_lossy(bytes).into_owned()
}

/// The characters with the Unicode property White_Space.
pub open spec fn white_space(c: char) -> bool {
    ||| '\u{9}' <= c <= '\u{d}'
    ||| c == ' '
    ||| c == '\u{85}'
    ||| c == '\u{a0}'
    ||| c == '\u{1680}'
    ||| '\u{2000}' <= c <= '\u{200a}'
    ||| '\u{2028}' <= c <= '\u{2029}'
    ||| c == '\u{202f}'
    ||| c == '\u{205f}'
    ||| c == '\u{3000}'
}

/// Whether `c` has the Unicode property White_Space.
pub fn is_white_space(c: char) -> (yes: bool)
    ensures
        yes == white_space(c),
{
    ('\u{9}' <= c && c <= '\u{d}') || c == ' ' || c == '\u{85}' || c == '\u{a0}' || c == '\u{1680}'
        || ('\u{2000}' <= c && c <= '\u{200a}') || ('\u{2028}' <= c && c <= '\u{2029}') || c
        == '\u{202f}' || c == '\u{205f}' || c == '\u{3000}'
}

/// The predicate of being no white space.
pub open spec fn visible() -> spec_fn(char) -> bool {
    |c: char| !white_space(c)
}

/// The words of a text: its longest stretches without white space, in order.
pub open spec fn words(s: Seq<char>) -> Seq<Seq<char>>
    decreases s.len(),
{
    if s.len() == 0 {
        Seq::empty()
    } else if white_space(s[0]) {
        words(s.skip(1))
    } else {
        let n = prefix_len(s, visible()) as int;
        proof {
            lemma_prefix_len(s, visible());
        }
        seq![s.take(n)] + words(s.skip(n))
    }
}

pub open spec fn is_digit(c: char) -> bool {
    '0' <= c <= '9'
}

/// The values of decimal digits.
pub open spec fn digit_values(s: Seq<char>) -> Seq<int> {
    s.map_values(|c: char| c as int - '0' as int)
}

/// The number that decimal digits stand for as a `u32`: there is one or more of them, and the
/// value fits.
pub open spec fn digits_value(digits: Seq<char>) -> Option<u32> {
    if digits.len() > 0 && (forall|i: int| 0 <= i < digits.len() ==> is_digit(#[trigger] digits[i]))
        && decimal(digit_values(digits)) <= u32::MAX {
        Some(decimal(digit_values(digits)) as u32)
    } else {
        None
    }
}

/// The number that a text stands for as a `u32`: decimal digits, which a plus sign may precede.
pub open spec fn u32_value(s: Seq<char>) -> Option<u32> {
    if s.len() > 0 && s[0] == '+' {
        digits_value(s.skip(1))
    } else {
        digits_value(s)
    }
}

/// The first of some words that stands for a `u32`.
pub open spec fn first_u32(list: Seq<Seq<char>>) -> Option<u32>
    decreases list.len(),
{
    if list.len() == 0 {
        None
    } else if u32_value(list[0]) is Some {
        u32_value(list[0])
    } else {
        first_u32(list.skip(1))
    }
}

/// Reads a `u32` that fills a text from place `from` up to place `to`.
fn parse_u32(text: &Vec<char>, from: usize, to: usize) -> (value: Option<u32>)
    requires
        from <= to <= text@.len(),
    ensures
        value == u32_value(text@.subrange(from as int, to as int)),
{
    let ghost word = text@.subrange(from as int, to as int);
    let start: usize = if from < to && text[from] == '+' {
        from + 1
    } else {
        from
    };
    let ghost digits = text@.subrange(start as int, to as int);
    assert(u32_value(word) == digits_value(digits)) by {
        if start > from {
            assert(digits =~= word.skip(1));
        }
    }
    if start == to {
        return None;
    }
    let mut sum: u64 = 0;
    let mut i: usize = start;
    while i < to
        invariant
            start <= i <= to <= text@.len(),
            digits == text@.subrange(start as int, to as int),
            forall|j: int| 0 <= j < i - start ==> is_digit(#[trigger] digits[j]),
            sum == decimal(digit_values(digits.take(i - start))),
            sum <= u32::MAX,
            word == text@.subrange(from as int, to as int),
            u32_value(word) == digits_value(digits),
        decreases to - i,
    {
        let c: char = text[i];
        assert(c == digits[i - start]);
        if c < '0' || '9' < c {
            return None;
        }
        sum = sum * 10 + (c as u64 - '0' as u64);
        proof {
            let seen = digits.take(i - start);
            let more = digits.take(i + 1 - start);
            assert(digit_values(more) =~= digit_values(seen).push(c as int - '0' as int));
            lemma_decimal_push(digit_values(seen), c as int - '0' as int);
        }
        if sum > u32::MAX as u64 {
            proof {
                if digits_value(digits) is Some {
                    lemma_decimal_grows(digit_values(digits), i + 1 - start);
                    assert(digit_values(digits).take(i + 1 - start) =~= digit_values(
                        digits.take(i + 1 - start),
                    ));
                }
            }
            return None;
        }
        i += 1;
    }
    assert(digits.take(to - start) =~= digits);
    Some(sum as u32)
}

/// The characters of a text, one by one.
fn characters(text: &str) -> (list: Vec<char>)
    ensures
        list@ == text@,
{
    let mut list: Vec<char> = Vec::new();
    for c in iter: text.chars()
        invariant
            list@ == iter.seq().take(iter.index()),
            iter.seq() == text@,
    {
        list.push(c);
    }
    list
}

/// The first word of a text that stands for a `u32`.
pub fn find_u32(text: &str) -> (value: Option<u32>)
    ensures
        value == first_u32(words(text@)),
{
    let list = characters(text);
    let mut i: usize = 0;
    assert(list@.skip(0) =~= list@);
    while i < list.len()
        invariant
            list@ == text@,
            i <= list@.len(),
            first_u32(words(list@.skip(i as int))) == first_u32(words(list@)),
        decreases list.len() - i,
    {
        let ghost rest = list@.skip(i as int);
        proof {
            lemma_prefix_len(rest, visible());
        }
        if is_white_space(list[i]) {
            assert(rest.skip(1) =~= list@.skip(i + 1));
            i += 1;
        } else {
            let start: usize = i;
            while i < list.len() && !is_white_space(list[i])
                invariant
                    start <= i <= list@.len(),
                    forall|j: int| start <= j < i ==> !white_space(#[trigger] list@[j]),
                decreases list.len() - i,
            {
                i += 1;
            }
            proof {
                lemma_prefix_len_is(rest, visible(), (i - start) as nat);
                assert(rest.take(i - start) =~= list@.subrange(start as int, i as int));
                assert(rest.skip(i - start) =~= list@.skip(i as int));
                assert(words(rest).skip(1) =~= words(list@.skip(i as int)));
            }
            let value = parse_u32(&list, start, i);
            if value.is_some() {
                return value;
            }
        }
    }
    None
}

} // verus!
