//! Decoding of `application/x-www-form-urlencoded` data.
use crate::params::{collected, Params};
use crate::scan::{
    after, before, find_byte, lemma_prefix_len, lemma_prefix_len_is, occurs, other_than, split,
    AMPERSAND, EQUALS, PERCENT, PLUS, QUESTION, SPACE, ZERO,
};
use crate::text::{str_from_utf8, string_from_utf8};
use vstd::prelude::*;
use vstd::slice::slice_subrange;
use vstd::utf8::{
    decode_utf8, encode_utf8, encode_utf8_decode_utf8, encode_utf8_valid_utf8, valid_utf8,
};

verus! {

/// The value of a hexadecimal digit in ASCII.
pub open spec fn hex_value(b: u8) -> Option<int> {
    if '0' as u8 <= b <= '9' as u8 {
        Some(b - '0' as u8)
    } else if 'A' as u8 <= b <= 'F' as u8 {
        Some(b - 'A' as u8 + 10)
    } else if 'a' as u8 <= b <= 'f' as u8 {
        Some(b - 'a' as u8 + 10)
    } else {
        None
    }
}

/// The byte that the two bytes after a percent sign stand for: that of two hexadecimal digits, or
/// of one digit after a plus sign. Anything else stands for a question mark, and for zero where
/// the two bytes do not make up text.
pub open spec fn escaped_byte(hi: u8, lo: u8) -> u8 {
    if !valid_utf8(seq![hi, lo]) {
        0
    } else {
        match (hex_value(hi), hex_value(lo)) {
            (Some(h), Some(l)) => (16 * h + l) as u8,
            (None, Some(l)) if hi == PLUS => l as u8,
            _ => QUESTION,
        }
    }
}

/// The bytes that form data stands for: a percent sign and the two bytes after it make up one
/// byte, a plus sign is a space, and any other byte is itself. Where the data end before the two
/// bytes of a percent sign, zeros fill up.
pub open spec fn unescaped(s: Seq<u8>) -> Seq<u8>
    decreases s.len(),
{
    if s.len() == 0 {
        Seq::empty()
    } else if s[0] == PERCENT {
        let hi = if s.len() > 1 {
            s[1]
        } else {
            ZERO
        };
        let lo = if s.len() > 2 {
            s[2]
        } else {
            ZERO
        };
        let used = if s.len() > 3 {
            3int
        } else {
            s.len() as int
        };
        seq![escaped_byte(hi, lo)] + unescaped(s.skip(used))
    } else if s[0] == PLUS {
        seq![SPACE] + unescaped(s.skip(1))
    } else {
        seq![s[0]] + unescaped(s.skip(1))
    }
}

/// The text that form data stands for: nothing where the decoded bytes are no valid UTF-8.
pub open spec fn decoded(s: Seq<u8>) -> Seq<char> {
    if valid_utf8(unescaped(s)) {
        decode_utf8(unescaped(s))
    } else {
        Seq::empty()
    }
}

/// The name and value of each piece that has an equals sign, in order.
pub open spec fn named_values(pieces: Seq<Seq<u8>>) -> Seq<(Seq<char>, Seq<char>)>
    decreases pieces.len(),
{
    if pieces.len() == 0 {
        Seq::empty()
    } else {
        let head = pieces.drop_last();
        let piece = pieces.last();
        if occurs(piece, EQUALS) {
            named_values(head).push((decoded(before(piece, EQUALS)), decoded(after(piece, EQUALS))))
        } else {
            named_values(head)
        }
    }
}

/// The parameters of a form: its pieces between ampersands, each a name and a value.
pub open spec fn form_params(s: Seq<u8>) -> Map<Seq<char>, Seq<char>> {
    collected(named_values(split(s, AMPERSAND)))
}

fn hex_digit(b: u8) -> (value: Option<u8>)
    ensures
        value is Some <==> hex_value(b) is Some,
        value matches Some(v) ==> hex_value(b) == Some(v as int) && v < 16,
{
    if '0' as u8 <= b && b <= '9' as u8 {
        Some((b - '0' as u8) as u8)
    } else if 'A' as u8 <= b && b <= 'F' as u8 {
        Some((b - 'A' as u8 + 10) as u8)
    } else if 'a' as u8 <= b && b <= 'f' as u8 {
        Some((b - 'a' as u8 + 10) as u8)
    } else {
        None
    }
}

fn unescape_pair(hi: u8, lo: u8) -> (byte: u8)
    ensures
        byte == escaped_byte(hi, lo),
{
    let pair: [u8; 2] = [hi, lo];
    if str_from_utf8(pair.as_slice()).is_none() {
        return 0;
    }
    match (hex_digit(hi), hex_digit(lo)) {
        (Some(h), Some(l)) => 16 * h + l,
        (None, Some(l)) => if hi == PLUS {
            l
        } else {
            QUESTION
        },
        _ => QUESTION,
    }
}

/// Decodes the bytes of a name or a value of form data.
pub fn percent_decode_bytes(s: &[u8]) -> (text: String)
    ensures
        text@ == decoded(s@),
{
    let mut result: Vec<u8> = Vec::with_capacity(s.len());
    let mut i: usize = 0;
    assert(s@.skip(0) =~= s@);
    while i < s.len()
        invariant
            i <= s@.len(),
            result@ + unescaped(s@.skip(i as int)) == unescaped(s@),
        decreases s.len() - i,
    {
        let ghost rest = s@.skip(i as int);
        let b: u8 = s[i];
        if b == PERCENT {
            let left: usize = s.len() - i;
            let hi: u8 = if left > 1 {
                s[i + 1]
            } else {
                ZERO
            };
            let lo: u8 = if left > 2 {
                s[i + 2]
            } else {
                ZERO
            };
            result.push(unescape_pair(hi, lo));
            let used: usize = if left > 3 {
                3
            } else {
                left
            };
            assert(rest.skip(used as int) =~= s@.skip(i + used));
            i += used;
        } else {
            result.push(
                if b == PLUS {
                    SPACE
                } else {
                    b
                },
            );
            assert(rest.skip(1) =~= s@.skip(i + 1));
            i += 1;
        }
    }
    match string_from_utf8(result) {
        Some(text) => text,
        None => String::new(),
    }
}

/// Decodes a name or a value of form data.
pub fn percent_decode(s: &str) -> (text: String)
    ensures
        text@ == decoded(encode_utf8(s@)),
{
    percent_decode_bytes(s.as_bytes())
}

/// The parameters that a form sets. Pieces without an equals sign set none, and of two pieces
/// with one name the later one counts.
pub fn parse_form_urlencoded(body: &str) -> (params: Params)
    ensures
        params@ == form_params(encode_utf8(body@)),
{
    let bytes = body.as_bytes();
    let ghost pieces = split(bytes@, AMPERSAND);
    let mut params = Params::new();
    let mut start: usize = 0;
    let ghost mut done: int = 0;
    assert(bytes@.skip(0) =~= bytes@);
    loop
        invariant
            bytes@ == encode_utf8(body@),
            pieces == split(bytes@, AMPERSAND),
            start <= bytes@.len(),
            0 <= done < pieces.len(),
            pieces.skip(done) == split(bytes@.skip(start as int), AMPERSAND),
            params@ == collected(named_values(pieces.take(done))),
        decreases bytes@.len() - start,
    {
        let rest = slice_subrange(bytes, start, bytes.len());
        let end: usize = find_byte(rest, AMPERSAND);
        let piece = slice_subrange(rest, 0, end);
        proof {
            assert(pieces.skip(done)[0] == pieces[done]);
            if !occurs(rest@, AMPERSAND) {
                assert(piece@ =~= rest@);
            }
            assert(pieces.take(done + 1).drop_last() =~= pieces.take(done));
        }
        let mark: usize = find_byte(piece, EQUALS);
        if mark < piece.len() {
            let name = percent_decode_bytes(slice_subrange(piece, 0, mark));
            let value = percent_decode_bytes(slice_subrange(piece, mark + 1, piece.len()));
            proof {
                let head = named_values(pieces.take(done));
                let pair = (name@, value@);
                assert(head.push(pair).drop_last() =~= head);
            }
            params = params.with(name, value);
        }
        if end == rest.len() {
            proof {
                assert(pieces.skip(done).len() == 1);
            }
            return params;
        }
        proof {
            assert(after(rest@, AMPERSAND) =~= bytes@.skip(start + end + 1));
            assert(pieces.skip(done).skip(1) =~= split(after(rest@, AMPERSAND), AMPERSAND));
            done = done + 1;
        }
        start = start + end + 1;
    }
}

/// The hexadecimal digit of a value below sixteen.
pub open spec fn hex_letter(n: int) -> u8 {
    if n < 10 {
        ('0' as u8 + n) as u8
    } else {
        ('A' as u8 + n - 10) as u8
    }
}

/// Bytes written as form data with a percent sign and two hexadecimal digits for each.
pub open spec fn escaped(s: Seq<u8>) -> Seq<u8>
    decreases s.len(),
{
    if s.len() == 0 {
        Seq::empty()
    } else {
        seq![PERCENT, hex_letter(s[0] as int / 16), hex_letter(s[0] as int % 16)] + escaped(
            s.skip(1),
        )
    }
}

/// A name and a value written as a piece of a form.
pub open spec fn written_pair(pair: (Seq<char>, Seq<char>)) -> Seq<u8> {
    escaped(encode_utf8(pair.0)) + seq![EQUALS] + escaped(encode_utf8(pair.1))
}

pub(crate) proof fn lemma_ascii_pair_is_text(hi: u8, lo: u8)
    requires
        hi < 0x80,
        lo < 0x80,
    ensures
        valid_utf8(seq![hi, lo]),
{
    let pair = seq![hi, lo];
    assert(pair.subrange(1, 2) =~= seq![lo]);
    assert(seq![lo].subrange(1, 1) =~= Seq::<u8>::empty());
    assert(valid_utf8(Seq::<u8>::empty()));
    assert(valid_utf8(seq![lo]));
}

proof fn lemma_escaped_letters(s: Seq<u8>)
    ensures
        forall|i: int|
            0 <= i < escaped(s).len() ==> {
                let b = #[trigger] escaped(s)[i];
                b == PERCENT || '0' as u8 <= b <= '9' as u8 || 'A' as u8 <= b <= 'F' as u8
            },
    decreases s.len(),
{
    if s.len() > 0 {
        lemma_escaped_letters(s.skip(1));
        assert forall|i: int| 0 <= i < escaped(s).len() implies {
            let b = #[trigger] escaped(s)[i];
            b == PERCENT || '0' as u8 <= b <= '9' as u8 || 'A' as u8 <= b <= 'F' as u8
        } by {
            if i >= 3 {
                assert(escaped(s)[i] == escaped(s.skip(1))[i - 3]);
            }
        }
    }
}

/// Whether form data is a way to write some bytes: each with a percent sign and two hexadecimal
/// digits of either case, as itself, or as a plus sign where it is a space.
pub open spec fn writes(data: Seq<u8>, bytes: Seq<u8>) -> bool
    decreases data.len(),
{
    if data.len() == 0 || bytes.len() == 0 {
        data.len() == 0 && bytes.len() == 0
    } else if data[0] == PERCENT {
        &&& data.len() > 2
        &&& hex_value(data[1]) matches Some(h) && hex_value(data[2]) matches Some(l) && bytes[0]
            == 16 * h + l
        &&& writes(data.skip(3), bytes.skip(1))
    } else if data[0] == PLUS {
        bytes[0] == SPACE && writes(data.skip(1), bytes.skip(1))
    } else {
        bytes[0] == data[0] && writes(data.skip(1), bytes.skip(1))
    }
}

/// However bytes are written as form data, they are read back.
pub proof fn written_bytes_are_read_back(data: Seq<u8>, bytes: Seq<u8>)
    requires
        writes(data, bytes),
    ensures
        unescaped(data) == bytes,
    decreases data.len(),
{
    if data.len() > 0 {
        if data[0] == PERCENT {
            lemma_ascii_pair_is_text(data[1], data[2]);
            written_bytes_are_read_back(data.skip(3), bytes.skip(1));
        } else {
            written_bytes_are_read_back(data.skip(1), bytes.skip(1));
        }
        assert(seq![bytes[0]] + bytes.skip(1) =~= bytes);
    }
}

/// Whether a piece of a form is a way to write a name and a value: they stand before and after its
/// first equals sign, and no ampersand stands in it.
pub open spec fn writes_pair(piece: Seq<u8>, pair: (Seq<char>, Seq<char>)) -> bool {
    &&& occurs(piece, EQUALS)
    &&& !occurs(piece, AMPERSAND)
    &&& writes(before(piece, EQUALS), encode_utf8(pair.0))
    &&& writes(after(piece, EQUALS), encode_utf8(pair.1))
}

/// Any bytes can be written, each with a percent sign and two hexadecimal digits.
pub proof fn any_bytes_can_be_written(bytes: Seq<u8>)
    ensures
        writes(escaped(bytes), bytes),
    decreases bytes.len(),
{
    if bytes.len() > 0 {
        assert(escaped(bytes).skip(3) =~= escaped(bytes.skip(1)));
        any_bytes_can_be_written(bytes.skip(1));
    }
}

/// Any name and value can be written as a piece of a form.
pub proof fn any_pair_can_be_written(pair: (Seq<char>, Seq<char>))
    ensures
        writes_pair(written_pair(pair), pair),
{
    let name = escaped(encode_utf8(pair.0));
    let value = escaped(encode_utf8(pair.1));
    let piece = written_pair(pair);
    lemma_escaped_letters(encode_utf8(pair.0));
    lemma_escaped_letters(encode_utf8(pair.1));
    assert(forall|i: int| 0 <= i < name.len() ==> other_than(EQUALS)(#[trigger] piece[i]));
    lemma_prefix_len_is(piece, other_than(EQUALS), name.len());
    assert(forall|i: int| 0 <= i < piece.len() ==> other_than(AMPERSAND)(#[trigger] piece[i]));
    lemma_prefix_len_is(piece, other_than(AMPERSAND), piece.len());
    assert(before(piece, EQUALS) =~= name);
    assert(after(piece, EQUALS) =~= value);
    any_bytes_can_be_written(encode_utf8(pair.0));
    any_bytes_can_be_written(encode_utf8(pair.1));
}

/// However a text is written as form data, it is read back.
pub proof fn written_text_is_decoded(data: Seq<u8>, text: Seq<char>)
    requires
        writes(data, encode_utf8(text)),
    ensures
        decoded(data) == text,
{
    written_bytes_are_read_back(data, encode_utf8(text));
    encode_utf8_valid_utf8(text);
    encode_utf8_decode_utf8(text);
}

/// Pieces with ampersands between them.
pub open spec fn with_ampersands(pieces: Seq<Seq<u8>>) -> Seq<u8>
    decreases pieces.len(),
{
    if pieces.len() == 0 {
        Seq::empty()
    } else if pieces.len() == 1 {
        pieces[0]
    } else {
        pieces[0] + seq![AMPERSAND] + with_ampersands(pieces.skip(1))
    }
}

pub(crate) proof fn lemma_split_pieces(pieces: Seq<Seq<u8>>)
    requires
        pieces.len() > 0,
        forall|i: int| 0 <= i < pieces.len() ==> !occurs(#[trigger] pieces[i], AMPERSAND),
    ensures
        split(with_ampersands(pieces), AMPERSAND) == pieces,
    decreases pieces.len(),
{
    let form = with_ampersands(pieces);
    let piece = pieces[0];
    lemma_prefix_len(piece, other_than(AMPERSAND));
    if pieces.len() > 1 {
        assert(forall|i: int| 0 <= i < piece.len() ==> #[trigger] form[i] == piece[i]);
        lemma_prefix_len_is(form, other_than(AMPERSAND), piece.len());
        lemma_split_pieces(pieces.skip(1));
        assert(before(form, AMPERSAND) =~= piece);
        assert(after(form, AMPERSAND) =~= with_ampersands(pieces.skip(1)));
    }
}

proof fn lemma_named_values_of(pieces: Seq<Seq<u8>>, pairs: Seq<(Seq<char>, Seq<char>)>)
    requires
        pieces.len() == pairs.len(),
        forall|i: int| 0 <= i < pieces.len() ==> writes_pair(#[trigger] pieces[i], pairs[i]),
    ensures
        named_values(pieces) == pairs,
    decreases pieces.len(),
{
    if pieces.len() > 0 {
        let piece = pieces.last();
        let pair = pairs.last();
        lemma_named_values_of(pieces.drop_last(), pairs.drop_last());
        written_text_is_decoded(before(piece, EQUALS), pair.0);
        written_text_is_decoded(after(piece, EQUALS), pair.1);
        assert(pairs.drop_last().push(pair) =~= pairs);
    }
}

/// However names and values are written as a form, the form sets these: of two with one name the
/// later one.
pub proof fn written_form_is_read_back(pieces: Seq<Seq<u8>>, pairs: Seq<(Seq<char>, Seq<char>)>)
    requires
        pieces.len() == pairs.len(),
        forall|i: int| 0 <= i < pieces.len() ==> writes_pair(#[trigger] pieces[i], pairs[i]),
    ensures
        form_params(with_ampersands(pieces)) == collected(pairs),
{
    if pieces.len() == 0 {
        assert(seq![Seq::<u8>::empty()].drop_last() =~= Seq::<Seq<u8>>::empty());
        assert(named_values(Seq::<Seq<u8>>::empty()) =~= pairs);
    } else {
        lemma_split_pieces(pieces);
        lemma_named_values_of(pieces, pairs);
    }
}

} // verus!
