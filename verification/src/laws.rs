//! Laws of the library: what its operations come to, said of bytes, lengths and places alone.
use crate::body::{all_allowed, inputs, outputs, run, BodyModel, BodyOp};
use crate::buf::{
    allocatable, contents, extended, has_room, tells_capacity, tells_room, topped_up, BUF_LEN,
    MIN_ROOM,
};
use crate::connection::{
    answers_in, is_written, loop_ends, parts_view, pending_after, presentable, round_ends, sent_in,
    take_rounds, take_turns, takes_turn, AnswerEvent, LoopEnd, RoundEnd,
};
use crate::form::{
    decoded, escaped_byte, form_params, hex_value, lemma_ascii_pair_is_text, named_values,
    unescaped, with_ampersands, writes_pair,
};
use crate::head::{asks_close, headers_view, parsed, Head, HeadModel, Header};
use crate::params::{collected, pairs_view};
use crate::query::{
    filled_pairs, named_value, query_bytes, query_pairs, query_text, written_query_is_read_back,
};
use crate::request::{
    body_length, decoding, digit_values, is_digit, is_space, leading_digits, length_value, query,
    settled, Decoding, Request,
};
use crate::rounds::{
    after_body, all_settled, answers_of, answers_to, bodies_ended, bodies_read, body_part, buffered,
    chained, goes_through, handed_in, handed_to, heads_in, heads_over, held_at, joined, left_after,
    missing_in, missing_part, requests_in, requests_over, rest_in, rounds_chained, settled_over,
    unread_body, Turn,
};
use crate::scan::{
    after, before, decimal, lemma_decimal_grows, lemma_decimal_push, lemma_prefix_len,
    lemma_prefix_len_is, lower, mentions, occurs, other_than, prefix_len, same_letters, split,
};
use crate::text::{digit_values as text_digit_values, is_digit as text_digit};
use crate::text::{first_u32, u32_value, visible, white_space, words};
use crate::uring::closes;
use bytes::BytesMut;
use vstd::prelude::*;
use vstd::utf8::{
    decode_utf8_encode_utf8, encode_utf8, pop_first_scalar, valid_first_scalar, valid_utf8,
};

verus! {

/// Whether two bytes differ at most in the case of an ASCII letter.
pub open spec fn twin(x: u8, y: u8) -> bool {
    x == y || (0x41 <= x <= 0x5a && y == x + 32) || (0x41 <= y <= 0x5a && x == y + 32)
}

/// Whether two byte strings differ at most in the case of ASCII letters.
pub open spec fn twins(a: Seq<u8>, b: Seq<u8>) -> bool {
    a.len() == b.len() && forall|i: int| 0 <= i < a.len() ==> twin(#[trigger] a[i], b[i])
}

/// Whether no byte of `s` is `sep`.
pub open spec fn without(s: Seq<u8>, sep: u8) -> bool {
    forall|i: int| 0 <= i < s.len() ==> #[trigger] s[i] != sep
}

/// Byte strings are compared up to the case of ASCII letters and no further.
pub proof fn letters_are_compared_up_to_case(a: Seq<u8>, b: Seq<u8>)
    ensures
        same_letters(a, b) <==> twins(a, b),
{
    assert(forall|x: u8, y: u8| #[trigger] lower(x) == #[trigger] lower(y) <==> twin(x, y));
    if same_letters(a, b) {
        assert(forall|i: int| 0 <= i < a.len() ==> lower(#[trigger] a[i]) == lower(b[i]));
    }
    if twins(a, b) {
        assert forall|i: int| 0 <= i < a.len() implies lower(#[trigger] a[i]) == lower(b[i]) by {
            assert(twin(a[i], b[i]));
        }
    }
}

/// A word is found wherever it stands, in letters of either case.
pub proof fn word_is_found_anywhere(a: Seq<u8>, w: Seq<u8>, b: Seq<u8>, word: Seq<u8>)
    requires
        twins(w, word),
    ensures
        mentions(a + w + b, word),
{
    let s = a + w + b;
    assert(s.subrange(a.len() as int, (a.len() + word.len()) as int) =~= w);
    letters_are_compared_up_to_case(w, word);
}

/// A word that is found stands somewhere, in letters of either case.
pub proof fn found_word_stands_somewhere(s: Seq<u8>, word: Seq<u8>)
    requires
        mentions(s, word),
    ensures
        exists|i: int|
            0 <= i <= s.len() - word.len() && twins(
                #[trigger] s.subrange(i, i + word.len()),
                word,
            ),
{
    let i = choose|i: int|
        0 <= i <= s.len() - word.len() && same_letters(
            #[trigger] s.subrange(i, i + word.len()),
            word,
        );
    letters_are_compared_up_to_case(s.subrange(i, i + word.len()), word);
}

/// The first separator divides a byte string, wherever it stands.
pub proof fn first_separator_divides(p: Seq<u8>, sep: u8, s: Seq<u8>)
    requires
        without(p, sep),
    ensures
        occurs(p + seq![sep] + s, sep),
        before(p + seq![sep] + s, sep) == p,
        after(p + seq![sep] + s, sep) == s,
        split(p + seq![sep] + s, sep) == seq![p] + split(s, sep),
{
    let all = p + seq![sep] + s;
    assert(forall|i: int| 0 <= i < p.len() ==> #[trigger] all[i] == p[i]);
    lemma_prefix_len_is(all, other_than(sep), p.len());
    assert(before(all, sep) =~= p);
    assert(after(all, sep) =~= s);
}

/// Without a separator a byte string is one piece.
pub proof fn no_separator_leaves_one_piece(s: Seq<u8>, sep: u8)
    requires
        without(s, sep),
    ensures
        !occurs(s, sep),
        before(s, sep) == s,
        split(s, sep) == seq![s],
{
    lemma_prefix_len_is(s, other_than(sep), s.len());
    assert(before(s, sep) =~= s);
}

/// A byte string without a separator, or with a first one.
proof fn lemma_parted(s: Seq<u8>, sep: u8)
    ensures
        occurs(s, sep) ==> without(before(s, sep), sep) && s == before(s, sep) + seq![sep] + after(
            s,
            sep,
        ),
        !occurs(s, sep) ==> without(s, sep),
{
    lemma_prefix_len(s, other_than(sep));
    let n = prefix_len(s, other_than(sep)) as int;
    assert(forall|i: int| 0 <= i < n ==> other_than(sep)(#[trigger] s[i]));
    if occurs(s, sep) {
        assert(s[n] == sep);
        assert(before(s, sep) + seq![sep] + after(s, sep) =~= s);
    }
}

/// The pieces of two byte strings with a separator between them are those of the one and then those
/// of the other.
pub proof fn pieces_of_both_parts(a: Seq<u8>, sep: u8, b: Seq<u8>)
    ensures
        split(a + seq![sep] + b, sep) == split(a, sep) + split(b, sep),
    decreases a.len(),
{
    lemma_parted(a, sep);
    if occurs(a, sep) {
        let p = before(a, sep);
        let q = after(a, sep);
        pieces_of_both_parts(q, sep, b);
        first_separator_divides(p, sep, q);
        first_separator_divides(p, sep, q + seq![sep] + b);
        assert(a + seq![sep] + b =~= p + seq![sep] + (q + seq![sep] + b));
        assert(seq![p] + (split(q, sep) + split(b, sep)) =~= split(a, sep) + split(b, sep));
    } else {
        first_separator_divides(a, sep, b);
        no_separator_leaves_one_piece(a, sep);
    }
}

/// The query of a path is what follows its first question mark, wherever this stands.
pub proof fn query_follows_the_first_question_mark(p: Seq<u8>, s: Seq<u8>)
    requires
        without(p, 0x3f),
    ensures
        query(p + seq![0x3fu8] + s) == s,
        query(p) == Seq::<u8>::empty(),
{
    first_separator_divides(p, 0x3f, s);
    no_separator_leaves_one_piece(p, 0x3f);
}

/// A path with a query, however its names and values are written, sets these: of two with one name
/// the later one.
pub proof fn path_sets_what_its_query_says(
    p: Seq<u8>,
    pieces: Seq<Seq<u8>>,
    pairs: Seq<(Seq<char>, Seq<char>)>,
)
    requires
        without(p, 0x3f),
        pieces.len() == pairs.len(),
        forall|i: int| 0 <= i < pieces.len() ==> writes_pair(#[trigger] pieces[i], pairs[i]),
    ensures
        query_pairs(query(p + seq![0x3fu8] + with_ampersands(pieces))) == pairs,
        collected(query_pairs(query(p + seq![0x3fu8] + with_ampersands(pieces)))) == collected(
            pairs,
        ),
{
    query_follows_the_first_question_mark(p, with_ampersands(pieces));
    written_query_is_read_back(pieces, pairs);
}

/// Whether a header is a `Content-Length` header, in letters of either case, with a value.
pub open spec fn has_length(header: (Seq<char>, Seq<u8>)) -> bool {
    twins(encode_utf8(header.0), encode_utf8("content-length"@)) && header.1.len() > 0
}

/// The first `Content-Length` header with a value tells the length of the body, whatever headers,
/// and however many, stand before and after it.
pub proof fn first_told_length_counts(headers: Seq<(Seq<char>, Seq<u8>)>, i: int)
    requires
        0 <= i < headers.len(),
        has_length(headers[i]),
        forall|j: int| 0 <= j < i ==> !has_length(#[trigger] headers[j]),
    ensures
        body_length(headers) == length_value(headers[i].1),
    decreases i,
{
    let name = encode_utf8("content-length"@);
    letters_are_compared_up_to_case(encode_utf8(headers[0].0), name);
    if i > 0 {
        assert(!has_length(headers[0]));
        let rest = headers.skip(1);
        assert(rest[i - 1] == headers[i]);
        assert forall|j: int| 0 <= j < i - 1 implies !has_length(#[trigger] rest[j]) by {
            assert(rest[j] == headers[j + 1]);
        }
        first_told_length_counts(rest, i - 1);
    }
}

/// Without a `Content-Length` header that has a value there is no body.
pub proof fn untold_length_is_zero(headers: Seq<(Seq<char>, Seq<u8>)>)
    requires
        forall|j: int| 0 <= j < headers.len() ==> !has_length(#[trigger] headers[j]),
    ensures
        body_length(headers) == 0,
    decreases headers.len(),
{
    if headers.len() > 0 {
        letters_are_compared_up_to_case(encode_utf8(headers[0].0), encode_utf8("content-length"@));
        assert(!has_length(headers[0]));
        let rest = headers.skip(1);
        assert forall|j: int| 0 <= j < rest.len() implies !has_length(#[trigger] rest[j]) by {
            assert(rest[j] == headers[j + 1]);
        }
        untold_length_is_zero(rest);
    }
}

/// A `Connection` header whose value holds `close`, in letters of either case and with anything
/// around it, asks to close.
pub proof fn close_in_a_value_asks_to_close(
    name: Seq<char>,
    a: Seq<u8>,
    w: Seq<u8>,
    b: Seq<u8>,
)
    requires
        twins(encode_utf8(name), encode_utf8("connection"@)),
        twins(w, encode_utf8("close"@)),
        valid_utf8(a + w + b),
    ensures
        asks_close((name, a + w + b)),
{
    letters_are_compared_up_to_case(encode_utf8(name), encode_utf8("connection"@));
    word_is_found_anywhere(a, w, b, encode_utf8("close"@));
}

/// No other header asks to close.
pub proof fn what_asks_to_close_says_so(header: (Seq<char>, Seq<u8>))
    requires
        asks_close(header),
    ensures
        twins(encode_utf8(header.0), encode_utf8("connection"@)),
        valid_utf8(header.1),
        exists|i: int|
            0 <= i <= header.1.len() - encode_utf8("close"@).len() && twins(
                #[trigger] header.1.subrange(i, i + encode_utf8("close"@).len()),
                encode_utf8("close"@),
            ),
{
    letters_are_compared_up_to_case(encode_utf8(header.0), encode_utf8("connection"@));
    found_word_stands_somewhere(header.1, encode_utf8("close"@));
}

/// Whether bytes are valid UTF-8 does not depend on the case of ASCII letters.
pub proof fn validity_does_not_depend_on_case(a: Seq<u8>, b: Seq<u8>)
    requires
        twins(a, b),
    ensures
        valid_utf8(a) == valid_utf8(b),
    decreases a.len(),
{
    if a.len() > 0 {
        assert(twin(a[0], b[0]));
        if a.len() > 1 {
            assert(twin(a[1], b[1]));
        }
        if a.len() > 2 {
            assert(twin(a[2], b[2]));
        }
        if a.len() > 3 {
            assert(twin(a[3], b[3]));
        }
        if a[0] >= 0x80 {
            assert(a[0] == b[0]);
        } else {
            assert(b[0] < 0x80);
        }
        assert(valid_first_scalar(a) == valid_first_scalar(b));
        if valid_first_scalar(a) {
            let c = pop_first_scalar(a);
            let d = pop_first_scalar(b);
            assert forall|i: int| 0 <= i < c.len() implies twin(#[trigger] c[i], d[i]) by {
                let n = a.len() - c.len();
                assert(twin(a[i + n], b[i + n]));
            }
            validity_does_not_depend_on_case(c, d);
        }
    }
}

/// Whether a header asks to close does not depend on the case of ASCII letters.
pub proof fn closing_does_not_depend_on_case(
    name: Seq<char>,
    other_name: Seq<char>,
    value: Seq<u8>,
    other_value: Seq<u8>,
)
    requires
        twins(encode_utf8(name), encode_utf8(other_name)),
        twins(value, other_value),
    ensures
        asks_close((name, value)) == asks_close((other_name, other_value)),
{
    lemma_closing_in_other_case(name, other_name, value, other_value);
    assert forall|i: int| 0 <= i < encode_utf8(name).len() implies twin(
        #[trigger] encode_utf8(other_name)[i],
        encode_utf8(name)[i],
    ) by {
        assert(twin(encode_utf8(name)[i], encode_utf8(other_name)[i]));
    }
    assert forall|i: int| 0 <= i < value.len() implies twin(
        #[trigger] other_value[i],
        value[i],
    ) by {
        assert(twin(value[i], other_value[i]));
    }
    lemma_closing_in_other_case(other_name, name, other_value, value);
}

proof fn lemma_closing_in_other_case(
    name: Seq<char>,
    other_name: Seq<char>,
    value: Seq<u8>,
    other_value: Seq<u8>,
)
    requires
        twins(encode_utf8(name), encode_utf8(other_name)),
        twins(value, other_value),
    ensures
        asks_close((name, value)) ==> asks_close((other_name, other_value)),
{
    let word = encode_utf8("close"@);
    let label = encode_utf8("connection"@);
    validity_does_not_depend_on_case(value, other_value);
    letters_are_compared_up_to_case(encode_utf8(name), encode_utf8(other_name));
    letters_are_compared_up_to_case(value, other_value);
    if asks_close((name, value)) {
        let i = choose|i: int|
            0 <= i <= value.len() - word.len() && same_letters(
                #[trigger] value.subrange(i, i + word.len()),
                word,
            );
        let v = value.subrange(i, i + word.len());
        let w = other_value.subrange(i, i + word.len());
        assert forall|k: int| 0 <= k < w.len() implies lower(#[trigger] w[k]) == lower(
            word[k],
        ) by {
            assert(lower(v[k]) == lower(word[k]));
            assert(lower(value[i + k]) == lower(other_value[i + k]));
        }
        assert forall|k: int| 0 <= k < encode_utf8(other_name).len() implies lower(
            #[trigger] encode_utf8(other_name)[k],
        ) == lower(label[k]) by {
            assert(lower(encode_utf8(name)[k]) == lower(label[k]));
        }
    }
}

/// Whether a byte is the hexadecimal digit of a value, in either case.
pub open spec fn is_hex(b: u8, value: int) -> bool {
    ||| 0 <= value < 10 && b == 0x30 + value
    ||| 10 <= value < 16 && (b == 0x41 + value - 10 || b == 0x61 + value - 10)
}

/// A hexadecimal digit has its value, and no other byte has one.
pub proof fn hexadecimal_digits_have_values(b: u8, value: int)
    ensures
        hex_value(b) == Some(value) <==> is_hex(b, value),
{
}

/// Two hexadecimal digits after a percent sign make up the byte of their number.
pub proof fn two_digits_make_up_a_byte(hi: u8, lo: u8, h: int, l: int)
    requires
        is_hex(hi, h),
        is_hex(lo, l),
    ensures
        escaped_byte(hi, lo) == 16 * h + l,
{
    lemma_ascii_pair_is_text(hi, lo);
}

/// A plus sign and a hexadecimal digit make up the byte of the digit.
pub proof fn plus_and_digit_make_up_a_byte(lo: u8, l: int)
    requires
        is_hex(lo, l),
    ensures
        escaped_byte(0x2b, lo) == l,
{
    lemma_ascii_pair_is_text(0x2b, lo);
}

/// Two other bytes make up a question mark where they are text, and zero where they are none.
pub proof fn other_pairs_make_up_a_question_mark(hi: u8, lo: u8)
    ensures
        !valid_utf8(seq![hi, lo]) ==> escaped_byte(hi, lo) == 0,
        valid_utf8(seq![hi, lo]) && (forall|l: int| !#[trigger] is_hex(lo, l)) ==> escaped_byte(
            hi,
            lo,
        ) == 0x3f,
        valid_utf8(seq![hi, lo]) && hi != 0x2b && (forall|h: int| !#[trigger] is_hex(hi, h))
            ==> escaped_byte(hi, lo) == 0x3f,
{
    if let Some(l) = hex_value(lo) {
        assert(is_hex(lo, l));
    }
    if let Some(h) = hex_value(hi) {
        assert(is_hex(hi, h));
    }
}

/// Form data is decoded from the front, byte by byte: a byte that is neither a percent nor a plus
/// sign stands for itself, a plus sign for a space, and a percent sign with the two bytes after it
/// for one byte. Where bytes are missing at the end, zeros stand for them.
pub proof fn form_data_is_decoded_from_the_front(b: u8, hi: u8, lo: u8, s: Seq<u8>)
    ensures
        b != 0x25 && b != 0x2b ==> unescaped(seq![b] + s) == seq![b] + unescaped(s),
        unescaped(seq![0x2bu8] + s) == seq![0x20u8] + unescaped(s),
        unescaped(seq![0x25u8, hi, lo] + s) == seq![escaped_byte(hi, lo)] + unescaped(s),
        unescaped(seq![0x25u8, hi]) == seq![escaped_byte(hi, 0x30)],
        unescaped(seq![0x25u8]) == seq![0u8],
        unescaped(Seq::<u8>::empty()) == Seq::<u8>::empty(),
{
    let none = Seq::<u8>::empty();
    assert((seq![b] + s).skip(1) =~= s);
    assert((seq![0x2bu8] + s).skip(1) =~= s);
    assert((seq![0x25u8, hi, lo] + s).skip(3) =~= s);
    assert(seq![0x25u8, hi].skip(2) =~= none);
    assert(seq![0x25u8].skip(1) =~= none);
    lemma_ascii_pair_is_text(0x30, 0x30);
    assert(escaped_byte(0x30, 0x30) == 0);
    assert(unescaped(none) =~= none);
    assert(unescaped(seq![0x25u8, hi]) =~= seq![escaped_byte(hi, 0x30)] + none);
    assert(unescaped(seq![0x25u8]) =~= seq![0u8] + none);
}

/// What comes after bytes without a percent sign is decoded as it is alone.
pub proof fn parts_are_decoded_one_by_one(p: Seq<u8>, s: Seq<u8>)
    requires
        without(p, 0x25),
    ensures
        unescaped(p + s) == unescaped(p) + unescaped(s),
        unescaped(p).len() == p.len(),
    decreases p.len(),
{
    if p.len() > 0 {
        let rest = p.skip(1);
        assert(without(rest, 0x25)) by {
            assert(forall|i: int| 0 <= i < rest.len() ==> #[trigger] rest[i] == p[i + 1]);
        }
        parts_are_decoded_one_by_one(rest, s);
        assert((p + s).skip(1) =~= rest + s);
        assert(p[0] != 0x25);
    } else {
        assert(p + s =~= s);
    }
}

/// The text of form data has the decoded bytes, or is empty where these are no valid UTF-8.
pub proof fn decoded_text_has_the_decoded_bytes(s: Seq<u8>)
    ensures
        valid_utf8(unescaped(s)) ==> encode_utf8(decoded(s)) == unescaped(s),
        !valid_utf8(unescaped(s)) ==> decoded(s).len() == 0,
{
    if valid_utf8(unescaped(s)) {
        decode_utf8_encode_utf8(unescaped(s));
    }
}

/// Pairs that are added after others take their place.
pub proof fn later_pairs_take_the_place(
    a: Seq<(Seq<char>, Seq<char>)>,
    b: Seq<(Seq<char>, Seq<char>)>,
)
    ensures
        collected(a + b) == collected(a).union_prefer_right(collected(b)),
    decreases b.len(),
{
    if b.len() > 0 {
        assert((a + b).drop_last() =~= a + b.drop_last());
        later_pairs_take_the_place(a, b.drop_last());
        assert(collected(a + b) =~= collected(a).union_prefer_right(collected(b)));
    } else {
        assert(a + b =~= a);
        assert(collected(a) =~= collected(a).union_prefer_right(collected(b)));
    }
}

proof fn lemma_named_values_add(a: Seq<Seq<u8>>, b: Seq<Seq<u8>>)
    ensures
        named_values(a + b) == named_values(a) + named_values(b),
    decreases b.len(),
{
    if b.len() > 0 {
        assert((a + b).drop_last() =~= a + b.drop_last());
        lemma_named_values_add(a, b.drop_last());
        assert(named_values(a + b) =~= named_values(a) + named_values(b));
    } else {
        assert(a + b =~= a);
        assert(named_values(b) =~= Seq::empty());
        assert(named_values(a) + named_values(b) =~= named_values(a));
    }
}

/// A form made of two forms sets what the one sets and then what the other sets.
pub proof fn form_of_two_forms_sets_both(a: Seq<u8>, b: Seq<u8>)
    ensures
        form_params(a + seq![0x26u8] + b) == form_params(a).union_prefer_right(form_params(b)),
{
    pieces_of_both_parts(a, 0x26, b);
    lemma_named_values_add(split(a, 0x26), split(b, 0x26));
    later_pairs_take_the_place(named_values(split(a, 0x26)), named_values(split(b, 0x26)));
}

/// A form of one name and one value, which the first equals sign divides, sets just these.
pub proof fn form_of_one_pair_sets_it(name: Seq<u8>, value: Seq<u8>)
    requires
        without(name, 0x3d),
        without(name, 0x26),
        without(value, 0x26),
    ensures
        form_params(name + seq![0x3du8] + value) == Map::<Seq<char>, Seq<char>>::empty().insert(
            decoded(name),
            decoded(value),
        ),
{
    let piece = name + seq![0x3du8] + value;
    assert(without(piece, 0x26));
    no_separator_leaves_one_piece(piece, 0x26);
    first_separator_divides(name, 0x3d, value);
    let pieces = seq![piece];
    assert(pieces.drop_last() =~= Seq::<Seq<u8>>::empty());
    let pair = (decoded(name), decoded(value));
    assert(named_values(pieces.drop_last()) =~= Seq::empty());
    assert(named_values(pieces) =~= seq![pair]);
    let none = Seq::<(Seq<char>, Seq<char>)>::empty();
    assert(seq![pair].drop_last() =~= none);
    assert(collected(none) =~= Map::empty());
}

/// A form without an equals sign sets nothing.
pub proof fn form_without_a_value_sets_nothing(s: Seq<u8>)
    requires
        without(s, 0x3d),
        without(s, 0x26),
    ensures
        form_params(s) == Map::<Seq<char>, Seq<char>>::empty(),
{
    no_separator_leaves_one_piece(s, 0x26);
    no_separator_leaves_one_piece(s, 0x3d);
    let none = Seq::<Seq<u8>>::empty();
    assert(seq![s].drop_last() =~= none);
    assert(named_values(none) =~= Seq::empty());
    assert(named_values(seq![s]) =~= Seq::empty());
}

/// A query is decoded from the front, byte by byte: a percent sign with two hexadecimal digits
/// after it stands for one byte, a plus sign for a space, and any other byte for itself.
pub proof fn query_is_decoded_from_the_front(b: u8, hi: u8, lo: u8, h: int, l: int, s: Seq<u8>)
    ensures
        b != 0x25 && b != 0x2b ==> query_bytes(seq![b] + s) == seq![b] + query_bytes(s),
        query_bytes(seq![0x2bu8] + s) == seq![0x20u8] + query_bytes(s),
        is_hex(hi, h) && is_hex(lo, l) ==> query_bytes(seq![0x25u8, hi, lo] + s) == seq![
            (16 * h + l) as u8,
        ] + query_bytes(s),
        s.len() < 2 || (forall|v: int| !#[trigger] is_hex(s[0], v)) || (forall|v: int|
            !#[trigger] is_hex(s[1], v)) ==> query_bytes(seq![0x25u8] + s) == seq![0x25u8]
            + query_bytes(s),
        query_bytes(Seq::<u8>::empty()) == Seq::<u8>::empty(),
{
    assert((seq![b] + s).skip(1) =~= s);
    assert((seq![0x2bu8] + s).skip(1) =~= s);
    assert((seq![0x25u8, hi, lo] + s).skip(3) =~= s);
    assert((seq![0x25u8] + s).skip(1) =~= s);
    if s.len() >= 2 {
        if let Some(v) = hex_value(s[0]) {
            assert(is_hex(s[0], v));
        }
        if let Some(v) = hex_value(s[1]) {
            assert(is_hex(s[1], v));
        }
    }
}

/// The text of a name or a value of a query has its bytes where these are valid UTF-8.
pub proof fn query_text_has_the_bytes(s: Seq<u8>)
    requires
        valid_utf8(query_bytes(s)),
    ensures
        encode_utf8(query_text(s)) == query_bytes(s),
{
    decode_utf8_encode_utf8(query_bytes(s));
}

proof fn lemma_filled_pairs_add(a: Seq<Seq<u8>>, b: Seq<Seq<u8>>)
    ensures
        filled_pairs(a + b) == filled_pairs(a) + filled_pairs(b),
    decreases b.len(),
{
    if b.len() > 0 {
        assert((a + b).drop_last() =~= a + b.drop_last());
        lemma_filled_pairs_add(a, b.drop_last());
        assert(filled_pairs(a + b) =~= filled_pairs(a) + filled_pairs(b));
    } else {
        assert(a + b =~= a);
        assert(filled_pairs(b) =~= Seq::empty());
        assert(filled_pairs(a) + filled_pairs(b) =~= filled_pairs(a));
    }
}

/// A query made of two queries has the pairs of the one and then those of the other.
pub proof fn query_of_two_queries_has_both(a: Seq<u8>, b: Seq<u8>)
    ensures
        query_pairs(a + seq![0x26u8] + b) == query_pairs(a) + query_pairs(b),
{
    pieces_of_both_parts(a, 0x26, b);
    lemma_filled_pairs_add(split(a, 0x26), split(b, 0x26));
}

/// A query of one name and one value, which the first equals sign divides, has just this pair.
pub proof fn query_of_one_pair_has_it(name: Seq<u8>, value: Seq<u8>)
    requires
        without(name, 0x3d),
        without(name, 0x26),
        without(value, 0x26),
    ensures
        query_pairs(name + seq![0x3du8] + value) == seq![(query_text(name), query_text(value))],
{
    let piece = name + seq![0x3du8] + value;
    assert(without(piece, 0x26));
    no_separator_leaves_one_piece(piece, 0x26);
    first_separator_divides(name, 0x3d, value);
    lemma_filled_pairs_of_one(piece);
}

/// A query without an equals sign has its name with an empty value, and an empty one has nothing.
pub proof fn query_of_one_name_has_it(name: Seq<u8>)
    requires
        without(name, 0x3d),
        without(name, 0x26),
    ensures
        name.len() > 0 ==> query_pairs(name) == seq![(query_text(name), Seq::<char>::empty())],
        name.len() == 0 ==> query_pairs(name).len() == 0,
{
    no_separator_leaves_one_piece(name, 0x26);
    no_separator_leaves_one_piece(name, 0x3d);
    lemma_filled_pairs_of_one(name);
}

proof fn lemma_filled_pairs_of_one(piece: Seq<u8>)
    ensures
        piece.len() > 0 ==> filled_pairs(seq![piece]) == seq![named_value(piece)],
        piece.len() == 0 ==> filled_pairs(seq![piece]).len() == 0,
{
    let none = Seq::<Seq<u8>>::empty();
    assert(seq![piece].drop_last() =~= none);
    assert(filled_pairs(none) =~= Seq::empty());
    if piece.len() > 0 {
        assert(filled_pairs(seq![piece]) =~= seq![named_value(piece)]);
    }
}

/// Whether bytes are spaces and then decimal digits.
pub open spec fn spaces_and_digits(s: Seq<u8>, spaces: int) -> bool {
    &&& 0 <= spaces <= s.len()
    &&& forall|i: int| 0 <= i < spaces ==> #[trigger] s[i] == 0x20
    &&& forall|i: int| spaces <= i < s.len() ==> 0x30 <= #[trigger] s[i] <= 0x39
}

/// The length that the value of a `Content-Length` header tells: after spaces alone it is zero,
/// each further digit makes it ten times as large and adds its value, and what follows the digits
/// does not count.
pub proof fn each_digit_counts(s: Seq<u8>, spaces: int, digit: u8, rest: Seq<u8>)
    requires
        spaces_and_digits(s, spaces),
        rest.len() > 0 ==> !(0x30 <= rest[0] <= 0x39),
        rest.len() > 0 && s.len() == spaces ==> rest[0] != 0x20,
    ensures
        s.len() == spaces ==> length_value(s) == 0,
        0x30 <= digit <= 0x39 ==> length_value(s.push(digit)) == 10 * length_value(s) + (digit
            - 0x30),
        length_value(s + rest) == length_value(s),
{
    lemma_length_of(s, spaces, Seq::empty());
    assert(s + Seq::<u8>::empty() =~= s);
    lemma_length_of(s, spaces, rest);
    let digits = s.skip(spaces);
    if 0x30 <= digit <= 0x39 {
        let more = s.push(digit);
        assert(spaces_and_digits(more, spaces));
        lemma_length_of(more, spaces, Seq::empty());
        assert(more + Seq::<u8>::empty() =~= more);
        assert(more.skip(spaces) =~= digits.push(digit));
        assert(digit_values(digits.push(digit)) =~= digit_values(digits).push(digit - 0x30));
        lemma_decimal_push(digit_values(digits), digit - 0x30);
    }
    if s.len() == spaces {
        assert(digit_values(digits) =~= Seq::<int>::empty());
    }
}

proof fn lemma_length_of(s: Seq<u8>, spaces: int, rest: Seq<u8>)
    requires
        spaces_and_digits(s, spaces),
        rest.len() > 0 ==> !(0x30 <= rest[0] <= 0x39),
        rest.len() > 0 && s.len() == spaces ==> rest[0] != 0x20,
    ensures
        length_value(s + rest) == decimal(digit_values(s.skip(spaces))),
{
    let all = s + rest;
    let digits = s.skip(spaces);
    assert(forall|i: int| 0 <= i < spaces ==> is_space()(#[trigger] all[i]));
    assert(spaces < all.len() ==> !is_space()(all[spaces]));
    lemma_prefix_len_is(all, is_space(), spaces as nat);
    let tail = all.skip(spaces);
    assert forall|i: int| 0 <= i < digits.len() implies is_digit()(#[trigger] tail[i]) by {
        assert(tail[i] == s[spaces + i]);
    }
    assert(digits.len() < tail.len() ==> tail[digits.len() as int] == rest[0]);
    lemma_prefix_len_is(tail, is_digit(), digits.len());
    assert(tail.take(digits.len() as int) =~= digits);
}

/// Whether a character is white space, by its number.
pub open spec fn is_blank(n: int) -> bool {
    ||| 9 <= n <= 13
    ||| n == 32
    ||| n == 133
    ||| n == 160
    ||| n == 5760
    ||| 8192 <= n <= 8202
    ||| n == 8232
    ||| n == 8233
    ||| n == 8239
    ||| n == 8287
    ||| n == 12288
}

/// White space is what Unicode calls so.
pub proof fn white_space_is_that_of_unicode(c: char)
    ensures
        white_space(c) <==> is_blank(c as int),
{
}

/// White space divides a text into words, wherever it stands, and a text without it is one word.
pub proof fn white_space_divides_words(a: Seq<char>, c: char, b: Seq<char>)
    ensures
        is_blank(c as int) ==> words(a + seq![c] + b) == words(a) + words(b),
        a.len() > 0 && (forall|i: int| 0 <= i < a.len() ==> !is_blank(#[trigger] a[i] as int))
            ==> words(a) == seq![a],
        words(Seq::<char>::empty()) == Seq::<Seq<char>>::empty(),
{
    assert(words(Seq::<char>::empty()) =~= Seq::empty());
    if is_blank(c as int) {
        lemma_words_of_both_parts(a, c, b);
    }
    if a.len() > 0 && (forall|i: int| 0 <= i < a.len() ==> !is_blank(#[trigger] a[i] as int)) {
        assert(forall|i: int| 0 <= i < a.len() ==> visible()(#[trigger] a[i]));
        lemma_prefix_len_is(a, visible(), a.len());
        assert(a.take(a.len() as int) =~= a);
        assert(a.skip(a.len() as int) =~= Seq::<char>::empty());
        assert(!white_space(a[0]));
        assert(words(a) =~= seq![a]);
    }
}

proof fn lemma_words_of_both_parts(a: Seq<char>, c: char, b: Seq<char>)
    requires
        white_space(c),
    ensures
        words(a + seq![c] + b) == words(a) + words(b),
    decreases a.len(),
{
    let all = a + seq![c] + b;
    if a.len() == 0 {
        assert(all.skip(1) =~= b);
        assert(words(a) =~= Seq::empty());
        assert(words(a) + words(b) =~= words(b));
    } else if white_space(a[0]) {
        assert(all.skip(1) =~= a.skip(1) + seq![c] + b);
        lemma_words_of_both_parts(a.skip(1), c, b);
    } else {
        lemma_prefix_len(a, visible());
        let n = prefix_len(a, visible()) as int;
        assert(forall|i: int| 0 <= i < n ==> visible()(#[trigger] a[i]));
        assert(forall|i: int| 0 <= i < n ==> #[trigger] all[i] == a[i]);
        assert(n < a.len() ==> all[n] == a[n]);
        assert(n == a.len() ==> all[n] == c);
        lemma_prefix_len_is(all, visible(), n as nat);
        assert(n > 0) by {
            assert(visible()(a[0]));
        }
        assert(all.take(n) =~= a.take(n));
        assert(all.skip(n) =~= a.skip(n) + seq![c] + b);
        lemma_words_of_both_parts(a.skip(n), c, b);
        assert(seq![a.take(n)] + (words(a.skip(n)) + words(b)) =~= words(a) + words(b));
    }
}

/// Of two lists of words, the number is that of the first if there is one, and else that of the
/// second.
pub proof fn first_number_counts(a: Seq<Seq<char>>, word: Seq<char>, b: Seq<Seq<char>>)
    ensures
        first_u32(a) is Some ==> first_u32(a + b) == first_u32(a),
        first_u32(a) is None ==> first_u32(a + b) == first_u32(b),
        first_u32(seq![word]) == u32_value(word),
        first_u32(Seq::<Seq<char>>::empty()) is None,
    decreases a.len(),
{
    assert(seq![word].skip(1) =~= Seq::<Seq<char>>::empty());
    if a.len() > 0 {
        assert((a + b).skip(1) =~= a.skip(1) + b);
        first_number_counts(a.skip(1), word, b);
    } else {
        assert(a + b =~= b);
    }
}

/// Whether all characters are decimal digits.
pub open spec fn all_digits(s: Seq<char>) -> bool {
    forall|i: int| 0 <= i < s.len() ==> 48 <= #[trigger] s[i] as int <= 57
}

/// A number in a text: a digit has its value, each further digit makes it ten times as large and
/// adds its value, as far as it fits, and a plus sign before it does not count.
pub proof fn number_is_read_digit_by_digit(s: Seq<char>, c: char)
    requires
        all_digits(s),
        48 <= c as int <= 57,
    ensures
        s.len() == 0 ==> u32_value(s.push(c)) == Some((c as int - 48) as u32),
        s.len() > 0 && u32_value(s) is None ==> u32_value(s.push(c)) is None,
        s.len() > 0 ==> (u32_value(s) matches Some(v) ==> u32_value(s.push(c)) == if 10 * v + (
        c as int - 48) <= 0xffff_ffff {
            Some((10 * v + (c as int - 48)) as u32)
        } else {
            None::<u32>
        }),
        u32_value(seq!['+'] + s) == u32_value(s),
{
    let more = s.push(c);
    assert forall|i: int| 0 <= i < more.len() implies text_digit(#[trigger] more[i]) by {
        if i < s.len() {
            assert(48 <= s[i] as int <= 57);
        }
    }
    assert forall|i: int| 0 <= i < s.len() implies text_digit(#[trigger] s[i]) by {
        assert(48 <= s[i] as int <= 57);
    }
    assert(text_digit_values(more) =~= text_digit_values(s).push(c as int - 48));
    lemma_decimal_push(text_digit_values(s), c as int - 48);
    if s.len() == 0 {
        assert(text_digit_values(s) =~= Seq::<int>::empty());
        assert(decimal(text_digit_values(s)) == 0);
    } else {
        assert(s[0] != '+');
    }
    assert(more[0] != '+');
    assert((seq!['+'] + s).skip(1) =~= s);
    assert forall|i: int| 0 <= i < text_digit_values(s).len() implies 0
        <= #[trigger] text_digit_values(s)[i] <= 9 by {
        assert(48 <= s[i] as int <= 57);
    }
    lemma_decimal_grows(text_digit_values(s), 0);
}

/// A text with a character that is no digit, but for a plus sign at its front, is no number, and
/// neither is one without digits.
pub proof fn other_texts_are_no_numbers(s: Seq<char>, i: int)
    requires
        0 <= i < s.len(),
        !(48 <= s[i] as int <= 57),
        i > 0 || s[0] as int != 43,
    ensures
        u32_value(s) is None,
        u32_value(Seq::<char>::empty()) is None,
        u32_value(seq!['+']) is None,
{
    assert(!text_digit(s[i]));
    if s[0] == '+' {
        assert(s.skip(1)[i - 1] == s[i]);
    }
    assert(seq!['+'].skip(1) =~= Seq::<char>::empty());
}

/// What is handed out of a body is as much as the room, the body and the buffer allow, and no less.
pub proof fn share_is_the_least_of_three(m: BodyModel, room: int)
    requires
        m.valid(),
        room >= 0,
    ensures
        m.share(room) <= room,
        m.share(room) <= m.limit - m.read,
        m.share(room) <= m.received.len(),
        m.share(room) == room || m.share(room) == m.limit - m.read || m.share(room)
            == m.received.len(),
        room > 0 && m.limit > m.read && m.received.len() > 0 ==> m.share(room) > 0,
{
}

/// What was received is the part of the body that can be read and what follows it: the whole rest
/// of the body, or all that there is.
pub proof fn received_bytes_are_body_and_rest(m: BodyModel, n: int, data: Seq<u8>)
    requires
        m.valid(),
        0 <= n <= m.received.len(),
    ensures
        m.received == m.received.take(m.available()) + m.beyond(),
        m.available() <= m.limit - m.read,
        m.available() == m.limit - m.read || m.beyond().len() == 0,
        m.remaining() == m.limit - m.read,
        m.wanted(n) <= n && m.wanted(n) <= m.limit - m.read,
        m.wanted(n) == n || m.wanted(n) == m.limit - m.read,
        m.after_reading(n).read == m.read + n,
        m.after_reading(n).limit == m.limit,
        m.received == m.received.take(n) + m.after_reading(n).received,
        m.after_receiving(data).read == m.read,
        m.after_receiving(data).limit == m.limit,
        m.after_receiving(data).received == m.received + data,
{
    assert(m.received.take(m.available()) + m.beyond() =~= m.received);
    assert(m.received.take(n) + m.after_reading(n).received =~= m.received);
}

/// No length is negative.
pub proof fn lengths_are_not_negative(headers: Seq<(Seq<char>, Seq<u8>)>)
    ensures
        body_length(headers) >= 0,
    decreases headers.len(),
{
    if headers.len() > 0 {
        lengths_are_not_negative(headers.skip(1));
        let value = headers[0].1;
        let tail = value.skip(prefix_len(value, is_space()) as int);
        lemma_prefix_len(value, is_space());
        lemma_prefix_len(tail, is_digit());
        let digits = leading_digits(value);
        assert forall|i: int| 0 <= i < digit_values(digits).len() implies 0
            <= #[trigger] digit_values(digits)[i] <= 9 by {
            assert(is_digit()(tail[i]));
        }
        lemma_decimal_grows(digit_values(digits), 0);
    }
}

/// The body of a request is the front of what follows its head, as long as it is told to be or as
/// much as there is, and what follows it is the rest.
pub proof fn body_is_the_front(head: HeadModel, rest: Seq<u8>)
    ensures
        rest == body_part(head, rest) + after_body(head, rest),
        body_part(head, rest).len() + missing_part(head, rest) == body_length(head.headers),
        missing_part(head, rest) >= 0,
        missing_part(head, rest) == 0 || after_body(head, rest).len() == 0,
{
    let m = unread_body(head, rest);
    lengths_are_not_negative(head.headers);
    assert(rest.take(m.available()) + rest.skip(m.available()) =~= rest);
}

/// The answers of turns are all their answers, one after the other: what comes before a turn, its
/// answer, and what comes after it, however many turns there are.
pub proof fn each_answer_stands_between_the_others(
    earlier: Seq<Turn>,
    turn: Turn,
    later: Seq<Turn>,
)
    ensures
        answers_of(earlier + seq![turn] + later) == answers_of(earlier) + turn.answer@ + answers_of(
            later,
        ),
        answers_of(Seq::<Turn>::empty()) == Seq::<u8>::empty(),
    decreases later.len(),
{
    let all = earlier + seq![turn] + later;
    assert(answers_of(Seq::<Turn>::empty()) =~= Seq::empty());
    if later.len() == 0 {
        assert(all.drop_last() =~= earlier);
        assert(all.last() == turn);
        assert(answers_of(all) =~= answers_of(earlier) + turn.answer@ + answers_of(later));
    } else {
        assert(all.drop_last() =~= earlier + seq![turn] + later.drop_last());
        assert(all.last() == later.last());
        each_answer_stands_between_the_others(earlier, turn, later.drop_last());
        assert(answers_of(all) =~= answers_of(earlier) + turn.answer@ + answers_of(later));
    }
}

/// The answer of each turn stands in all answers behind those of the turns before it, and nothing
/// else does: there are as many bytes as the answers have together.
pub proof fn answers_fill_their_places(turns: Seq<Turn>, i: int)
    requires
        0 <= i < turns.len(),
    ensures
        ({
            let place = answers_of(turns.take(i)).len() as int;
            let n = turns[i].answer@.len() as int;
            &&& place + n <= answers_of(turns).len()
            &&& answers_of(turns).subrange(place, place + n) == turns[i].answer@
            &&& answers_of(turns.take(i + 1)).len() == place + n
        }),
        answers_of(turns.take(0)).len() == 0,
        turns.take(turns.len() as int) == turns,
{
    let earlier = turns.take(i);
    let later = turns.skip(i + 1);
    each_answer_stands_between_the_others(earlier, turns[i], later);
    assert(earlier + seq![turns[i]] + later =~= turns);
    each_answer_stands_between_the_others(earlier, turns[i], Seq::empty());
    assert(earlier + seq![turns[i]] + Seq::<Turn>::empty() =~= turns.take(i + 1));
    assert(turns.take(0) =~= Seq::<Turn>::empty());
    let place = answers_of(earlier).len() as int;
    assert(answers_of(turns).subrange(place, place + turns[i].answer@.len())
        =~= turns[i].answer@);
}

/// Where each answer is made of the head and what was received after it, the answers of the turns
/// are those to what was handed out, in the same order.
pub proof fn turns_answer_what_they_were_handed(
    turns: Seq<Turn>,
    answer: spec_fn(HeadModel, Seq<u8>) -> Seq<u8>,
)
    requires
        forall|i: int|
            0 <= i < turns.len() ==> (#[trigger] turns[i]).answer@ == answer(
                turns[i].head,
                turns[i].rest,
            ),
    ensures
        answers_of(turns) == answers_to(handed_to(turns), answer),
    decreases turns.len(),
{
    if turns.len() > 0 {
        let rest = turns.skip(1);
        assert(forall|i: int| 0 <= i < rest.len() ==> #[trigger] rest[i] == turns[i + 1]);
        turns_answer_what_they_were_handed(rest, answer);
        each_answer_stands_between_the_others(Seq::empty(), turns[0], rest);
        assert(Seq::<Turn>::empty() + seq![turns[0]] + rest =~= turns);
        assert(handed_to(turns).skip(1) =~= handed_to(rest));
        assert(handed_to(turns)[0] == (turns[0].head, turns[0].rest));
        assert(answers_of(turns) =~= answers_to(handed_to(turns), answer));
    } else {
        assert(answers_of(turns) =~= Seq::empty());
        assert(answers_to(handed_to(turns), answer) =~= Seq::empty());
    }
}

/// Turns that follow each other take the requests out of the buffer one by one: the first out of
/// what was received, and each other one out of what the turn before it left.
pub proof fn each_turn_takes_the_next_request(received: Seq<u8>, turns: Seq<Turn>, i: int)
    requires
        chained(received, turns),
        0 <= i < turns.len(),
    ensures
        ({
            let given = if i == 0 {
                received
            } else {
                turns[i - 1].left
            };
            parsed(given, 16) matches Ok(Some((used, head))) && 0 < used <= given.len()
                && turns[i].head == head && turns[i].rest == given.skip(used as int)
        }),
        left_after(received, turns) == turns[turns.len() - 1].left,
        left_after(received, Seq::<Turn>::empty()) == received,
    decreases turns.len(),
{
    if i < turns.len() - 1 {
        let before = turns.drop_last();
        each_turn_takes_the_next_request(received, before, i);
        assert(before[i] == turns[i]);
        if i > 0 {
            assert(before[i - 1] == turns[i - 1]);
        }
    } else if i > 0 {
        assert(turns.drop_last().last() == turns[i - 1]);
    }
}

/// A round that ends with something to write has left no complete head in the buffer, and all
/// answers are pending behind those before; one that fails has left what is no request; and one
/// that is full has an answer that memory does not hold.
pub proof fn round_ends_when_no_request_is_left(
    end: RoundEnd,
    turns: Seq<Turn>,
    left: Seq<u8>,
    pending: Seq<u8>,
    pending_then: Seq<u8>,
)
    requires
        round_ends(end, turns, left, pending, pending_then),
    ensures
        end !is Shutdown,
        end is Write ==> (parsed(left, 16) matches Ok(None)),
        end matches RoundEnd::Fail(error) ==> parsed(left, 16) == Err::<
            Option<(nat, HeadModel)>,
            Seq<char>,
        >(error.message@),
        end is Write || end is Fail ==> pending_then == pending + answers_of(turns),
        end is Full ==> turns.len() > 0 && pending_then == pending + answers_of(turns.drop_last())
            && pending.len() + answers_of(turns).len() + 32768 > isize::MAX,
{
}

/// In each turn the service is handed the head of the turn and exactly the bytes received after it,
/// with no parameters known, and the answer of the turn is the one that it gives.
pub proof fn service_is_handed_the_request<F: for<'a> Fn(Request<'a>) -> Vec<u8>>(
    service: F,
    reqs: Seq<Request>,
    turns: Seq<Turn>,
    i: int,
)
    requires
        take_turns(service, reqs, turns),
        0 <= i < turns.len(),
    ensures
        reqs.len() == turns.len(),
        reqs[i].head@ == turns[i].head,
        contents(*reqs[i].req_buf) == turns[i].rest,
        reqs[i].post_params is None,
        call_ensures(service, (reqs[i],), turns[i].answer),
{
    assert(takes_turn(service, reqs[i], turns[i]));
}

/// A connection hands out any request with at most sixteen headers and of version 1.0 or 1.1.
pub proof fn requests_that_are_handed_out(req: Request)
    ensures
        presentable(req) <==> req.head@.headers.len() <= 16 && req.head@.version <= 1
            && req.post_params is None,
{
}

/// In each round of a connection the turns start from what the round before left, with the part
/// that was received then, and the service is handed the requests of the turns.
pub proof fn each_round_goes_on<F: for<'a> Fn(Request<'a>) -> Vec<u8>>(
    service: F,
    parts: Seq<Seq<u8>>,
    rounds: Seq<Seq<Turn>>,
    reqs: Seq<Seq<Request>>,
    i: int,
)
    requires
        rounds_chained(parts, rounds),
        take_rounds(service, reqs, rounds),
        0 <= i < rounds.len(),
    ensures
        rounds.len() <= parts.len(),
        held_at(parts, rounds, i) == if i == 0 {
            parts[0]
        } else {
            left_after(held_at(parts, rounds, i - 1), rounds[i - 1]) + parts[i]
        },
        chained(held_at(parts, rounds, i), rounds[i]),
        reqs.len() == rounds.len(),
        take_turns(service, reqs[i], rounds[i]),
{
    assert(chained(held_at(parts, rounds, i), rounds[i]));
    assert(take_turns(service, reqs[i], rounds[i]));
}

/// What is written after each part is all answers of its round, when no complete head was left. The
/// loop ends with the parts or at an empty one, where what is no request was left, or where memory
/// does not do, and not before.
pub proof fn loop_writes_each_round(
    end: LoopEnd,
    parts: Seq<Seq<u8>>,
    rounds: Seq<Seq<Turn>>,
    written: Seq<Seq<u8>>,
    i: int,
)
    requires
        loop_ends(end, parts, rounds, written),
    ensures
        0 <= i < written.len() ==> {
            &&& parts[i].len() > 0
            &&& written[i] == answers_of(rounds[i])
            &&& parsed(left_after(held_at(parts, rounds, i), rounds[i]), 16) matches Ok(None)
        },
        written.len() <= rounds.len() && written.len() <= parts.len(),
        end is Done <==> written.len() == parts.len() || parts[written.len() as int].len() == 0,
        end is Done ==> rounds.len() == written.len(),
        end matches LoopEnd::Fail(error) ==> {
            let n = written.len() as int;
            rounds.len() == n + 1 && parsed(left_after(held_at(parts, rounds, n), rounds[n]), 16)
                == Err::<Option<(nat, HeadModel)>, Seq<char>>(error.message@)
        },
        end is Full ==> {
            let n = written.len() as int;
            ||| held_at(parts, rounds, n).len() > isize::MAX
            ||| rounds.len() == n + 1 && answers_of(rounds[n]).len() + 32768 > isize::MAX
        },
{
    if 0 <= i < written.len() {
        assert(is_written(parts, rounds, i, written[i]));
    }
}

/// The requests of a buffer come one by one: the parser finds the first, which is followed by those
/// after its body. Where it finds none, there are none, and all is left.
pub proof fn requests_come_one_by_one(received: Seq<u8>)
    ensures
        match parsed(received, 16) {
            Ok(Some((used, head))) => 0 < used <= received.len() ==> {
                let rest = received.skip(used as int);
                let next = after_body(head, rest);
                &&& heads_in(received) == seq![head] + heads_in(next)
                &&& handed_in(received) == seq![(head, rest)] + handed_in(next)
                &&& requests_in(received) == seq![(head, body_part(head, rest))] + requests_in(next)
                &&& rest_in(received) == rest_in(next)
                &&& missing_in(received) == if missing_part(head, rest) > 0 {
                    missing_part(head, rest)
                } else {
                    missing_in(next)
                }
            },
            _ => {
                &&& heads_in(received).len() == 0
                &&& handed_in(received).len() == 0
                &&& requests_in(received).len() == 0
                &&& rest_in(received) == received
                &&& missing_in(received) == 0
            },
        },
{
}

/// What a buffer starts with is what the parser finds there when there is room for sixteen headers.
pub proof fn buffer_starts_with_what_is_parsed(received: Seq<u8>)
    ensures
        match parsed(received, 16) {
            Ok(Some((used, head))) => decoding(received) == Decoding::Request(
                head,
                received.skip(used as int),
            ),
            Ok(None) => decoding(received) is Incomplete,
            Err(message) => decoding(received) == Decoding::Invalid(message),
        },
{
}

/// What is known for good does not change with what is received later: a request stays the same,
/// with the later bytes behind it, and so does an error.
pub proof fn what_is_settled_stays(received: Seq<u8>, more: Seq<u8>)
    requires
        settled(received),
    ensures
        decoding(received) matches Decoding::Request(head, rest) ==> decoding(received + more)
            == Decoding::Request(head, rest + more),
        decoding(received) matches Decoding::Invalid(message) ==> decoding(received + more)
            == Decoding::Invalid(message),
        decoding(received) is Incomplete ==> decoding(received + more) is Incomplete,
{
    assert(decoding(received + more) == decoding(received).followed_by(more));
}

/// A connection over io_uring ends after an answer exactly if one of the headers of the request
/// asks for it, wherever it stands.
pub proof fn any_header_may_ask_to_close(head: HeadModel, i: int)
    ensures
        0 <= i < head.headers.len() && asks_close(head.headers[i]) ==> closes(head),
        closes(head) ==> exists|k: int|
            0 <= k < head.headers.len() && asks_close(#[trigger] head.headers[k]),
{
}

/// The views of lists hold each item, in order.
pub proof fn views_hold_each_item(
    headers: Seq<Header>,
    pairs: Seq<(String, String)>,
    parts: Seq<Vec<u8>>,
    i: int,
)
    ensures
        headers_view(headers).len() == headers.len(),
        0 <= i < headers.len() ==> headers_view(headers)[i] == (
            headers[i].name@,
            headers[i].value@,
        ),
        pairs_view(pairs).len() == pairs.len(),
        0 <= i < pairs.len() ==> pairs_view(pairs)[i] == (pairs[i].0@, pairs[i].1@),
        parts_view(parts).len() == parts.len(),
        0 <= i < parts.len() ==> parts_view(parts)[i] == parts[i]@,
{
}

/// The view of a head holds its parts.
pub proof fn view_of_a_head_holds_its_parts(head: Head)
    ensures
        head@.method == head.method@,
        head@.path == head.path@,
        head@.version == head.version,
        head@.headers == headers_view(head.headers@),
{
}

/// What is demanded of a reader is that no more was read than the body is long, and of sizes that
/// they can be allocated.
pub proof fn demands_are_no_stricter(m: BodyModel, n: nat)
    ensures
        m.valid() <==> m.read <= m.limit,
        allocatable(n) <==> n <= isize::MAX,
{
}

/// The room of a buffer is what its capacity leaves beyond the bytes that it holds, and a buffer
/// that was topped up had at least 1024 bytes of room or has what was missing to 32768.
pub proof fn room_is_what_the_capacity_leaves(before: BytesMut, buf: BytesMut, room: int)
    ensures
        tells_room(buf, room) <==> exists|n: usize| #[trigger]
            tells_capacity(buf, n) && n == contents(buf).len() + room,
        has_room(buf, room) <==> forall|n: usize| #[trigger]
            tells_capacity(buf, n) ==> n >= contents(buf).len() + room,
        topped_up(before, buf) ==> contents(buf) == contents(before) && exists|n: usize| #[trigger]
            tells_capacity(before, n) && {
                let free = n - contents(before).len();
                if free < 1024 {
                    forall|m: usize| #[trigger]
                        tells_capacity(buf, m) ==> m - contents(buf).len() + free >= 32768
                } else {
                    buf == before
                }
            },
{
    if tells_room(buf, room) {
        let n = choose|n: usize| #[trigger]
            tells_capacity(buf, n) && room == n - contents(buf).len();
        assert(tells_capacity(buf, n));
    }
    if topped_up(before, buf) {
        let free = choose|free: int| #[trigger]
            tells_room(before, free) && if free < MIN_ROOM {
                has_room(buf, BUF_LEN - free)
            } else {
                buf == before
            };
        let n = choose|n: usize| #[trigger]
            tells_capacity(before, n) && free == n - contents(before).len();
        assert(tells_capacity(before, n));
    }
}

/// Bytes that are added to a buffer stand at its end, and where there was room for them the room
/// shrinks by as much.
pub proof fn added_bytes_take_up_room(
    before: BytesMut,
    buf: BytesMut,
    bytes: Seq<u8>,
    room: int,
    left: int,
)
    requires
        extended(before, buf, bytes),
    ensures
        contents(buf) == contents(before) + bytes,
        tells_room(before, room) && tells_room(buf, left) && room >= bytes.len() ==> left
            + bytes.len() == room,
{
}

/// Turns that go through a buffer hand out all its requests, one by one and in order, and leave
/// what follows them.
pub proof fn going_through_hands_out_all(received: Seq<u8>, turns: Seq<Turn>, i: int)
    requires
        goes_through(received, turns),
    ensures
        turns.len() == handed_in(received).len(),
        0 <= i < turns.len() ==> handed_in(received)[i] == (turns[i].head, turns[i].rest),
        turns.len() > 0 ==> turns[turns.len() - 1].left == rest_in(received),
        turns.len() == 0 ==> received == rest_in(received),
        all_settled(received),
{
    if 0 <= i < turns.len() {
        assert(handed_to(turns)[i] == (turns[i].head, turns[i].rest));
    }
}

/// A service that ends bodies leaves after each request what follows its body.
pub proof fn ended_bodies_are_taken_out(turns: Seq<Turn>)
    ensures
        bodies_ended(turns) <==> forall|i: int|
            0 <= i < turns.len() ==> (#[trigger] turns[i]).left == after_body(
                turns[i].head,
                turns[i].rest,
            ),
{
}

/// The parts of a connection are taken one by one: each comes behind what the parts before it left,
/// its requests behind theirs, and its bytes, with those read for its bodies, behind theirs.
pub proof fn parts_are_taken_one_by_one(
    parts: Seq<Seq<u8>>,
    part: Seq<u8>,
    reads: Seq<Seq<u8>>,
    read: Seq<u8>,
)
    ensures
        buffered(parts.push(part)) == rest_in(buffered(parts)) + part,
        heads_over(parts.push(part)) == heads_over(parts) + heads_in(buffered(parts.push(part))),
        joined(parts.push(part), reads.push(read)) == joined(parts, reads) + (part + read),
        requests_over(parts.push(part), reads.push(read)) == requests_over(parts, reads)
            + requests_in(buffered(parts.push(part)) + read),
        settled_over(parts.push(part)) <==> settled_over(parts) && all_settled(
            buffered(parts.push(part)),
        ),
        reads.len() == parts.len() ==> (bodies_read(parts.push(part), reads.push(read)) <==> (
        bodies_read(parts, reads) && read.len() == missing_in(buffered(parts.push(part))))),
{
    assert(parts.push(part).drop_last() =~= parts);
    assert(reads.push(read).drop_last() =~= reads);
}

/// The requests of a buffer are known for good if the first is and those after its body are.
pub proof fn requests_are_settled_one_by_one(received: Seq<u8>)
    ensures
        match parsed(received, 16) {
            Ok(Some((used, head))) => 0 < used <= received.len() ==> (all_settled(received) <==> (
            settled(received) && all_settled(after_body(head, received.skip(used as int))))),
            _ => all_settled(received),
        },
        settled(received) <==> forall|more: Seq<u8>| #[trigger]
            decoding(received + more) == match decoding(received) {
                Decoding::Request(head, rest) => Decoding::Request(head, rest + more),
                Decoding::Incomplete => Decoding::Incomplete,
                Decoding::Invalid(message) => Decoding::Invalid(message),
            },
{
    assert forall|more: Seq<u8>| #[trigger] decoding(received).followed_by(more) == match decoding(
        received,
    ) {
        Decoding::Request(head, rest) => Decoding::Request(head, rest + more),
        Decoding::Incomplete => Decoding::Incomplete,
        Decoding::Invalid(message) => Decoding::Invalid(message),
    } by {}
    if settled(received) {
        assert forall|more: Seq<u8>| #[trigger] decoding(received + more) == match decoding(
            received,
        ) {
            Decoding::Request(head, rest) => Decoding::Request(head, rest + more),
            Decoding::Incomplete => Decoding::Incomplete,
            Decoding::Invalid(message) => Decoding::Invalid(message),
        } by {
            assert(decoding(received + more) == decoding(received).followed_by(more));
        }
    }
}

/// The answers to requests are those to each of them, in their order, and a round adds them behind
/// what was pending.
pub proof fn answers_come_request_by_request(
    request: (HeadModel, Seq<u8>),
    requests: Seq<(HeadModel, Seq<u8>)>,
    answer: spec_fn(HeadModel, Seq<u8>) -> Seq<u8>,
)
    ensures
        answers_to(seq![request] + requests, answer) == answer(request.0, request.1) + answers_to(
            requests,
            answer,
        ),
        answers_to(Seq::empty(), answer) == Seq::<u8>::empty(),
{
    assert((seq![request] + requests).skip(1) =~= requests);
}

/// Steps in the life of a body come one by one: bytes that are received come behind those at hand
/// and are taken in, and bytes that are read come off the front and are handed out.
pub proof fn steps_of_a_body_come_one_by_one(
    m: BodyModel,
    ops: Seq<BodyOp>,
    data: Seq<u8>,
    n: nat,
)
    ensures
        ({
            let more = ops.push(BodyOp::Receive(data));
            &&& run(m, more).received == run(m, ops).received + data
            &&& run(m, more).read == run(m, ops).read
            &&& inputs(more) == inputs(ops) + data
            &&& outputs(m, more) == outputs(m, ops)
            &&& all_allowed(m, more) <==> all_allowed(m, ops) && run(m, ops).received.len() == 0
                && data.len() + run(m, ops).read <= run(m, ops).limit
        }),
        ({
            let more = ops.push(BodyOp::Read(n));
            &&& run(m, more).received == run(m, ops).received.skip(n as int)
            &&& run(m, more).read == run(m, ops).read + n
            &&& inputs(more) == inputs(ops)
            &&& outputs(m, more) == outputs(m, ops) + run(m, ops).received.take(n as int)
            &&& all_allowed(m, more) <==> all_allowed(m, ops) && n <= run(m, ops).received.len()
                && n + run(m, ops).read <= run(m, ops).limit
        }),
        run(m, Seq::empty()) == m,
        inputs(Seq::empty()) == Seq::<u8>::empty(),
        outputs(m, Seq::empty()) == Seq::<u8>::empty(),
{
    let a = ops.push(BodyOp::Receive(data));
    let b = ops.push(BodyOp::Read(n));
    assert(a.drop_last() =~= ops);
    assert(b.drop_last() =~= ops);
    assert(inputs(b) =~= inputs(ops));
    assert(outputs(m, a) =~= outputs(m, ops));
}

/// Answers come and go one by one: an answer comes behind those that are pending, and sending takes
/// all of them.
pub proof fn answers_come_and_go_one_by_one(
    pending: Seq<u8>,
    events: Seq<AnswerEvent>,
    rsp: Seq<u8>,
)
    ensures
        ({
            let more = events.push(AnswerEvent::Answered(rsp));
            &&& pending_after(pending, more) == pending_after(pending, events) + rsp
            &&& sent_in(pending, more) == sent_in(pending, events)
            &&& answers_in(more) == answers_in(events) + rsp
        }),
        ({
            let more = events.push(AnswerEvent::Sent);
            &&& pending_after(pending, more).len() == 0
            &&& sent_in(pending, more) == sent_in(pending, events) + pending_after(pending, events)
            &&& answers_in(more) == answers_in(events)
        }),
        pending_after(pending, Seq::empty()) == pending,
        sent_in(pending, Seq::empty()).len() == 0,
        answers_in(Seq::empty()).len() == 0,
{
    assert(events.push(AnswerEvent::Answered(rsp)).drop_last() =~= events);
    assert(events.push(AnswerEvent::Sent).drop_last() =~= events);
}

/// Decimal digits are read from the left: a further digit makes the number ten times as large and
/// adds its value.
pub proof fn digits_are_read_from_the_left(digits: Seq<int>, digit: int)
    ensures
        decimal(digits.push(digit)) == 10 * decimal(digits) + digit,
        decimal(Seq::<int>::empty()) == 0,
{
    lemma_decimal_push(digits, digit);
}

} // verus!
