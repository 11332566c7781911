//! Queries: the names and values that follow the question mark of a path.
use crate::form::{hex_value, lemma_split_pieces, with_ampersands, writes, writes_pair};
use crate::params::{collected, pairs_view};
use crate::scan::{after, before, occurs, split, AMPERSAND, EQUALS, PERCENT, PLUS, SPACE};
use crate::text::lossy_text;
use vstd::prelude::*;
use vstd::utf8::{
    decode_utf8, encode_utf8, encode_utf8_decode_utf8, encode_utf8_valid_utf8, valid_utf8,
};

verus! {

/// The bytes that a name or a value of a query stands for: a percent sign with two hexadecimal
/// digits after it is one byte, a plus sign is a space, and any other byte is itself.
pub open spec fn query_bytes(s: Seq<u8>) -> Seq<u8>
    decreases s.len(),
{
    if s.len() == 0 {
        Seq::empty()
    } else if s.len() > 2 && s[0] == PERCENT && hex_value(s[1]) is Some && hex_value(s[2]) is Some {
        seq![(16 * hex_value(s[1])->0 + hex_value(s[2])->0) as u8] + query_bytes(s.skip(3))
    } else if s[0] == PLUS {
        seq![SPACE] + query_bytes(s.skip(1))
    } else {
        seq![s[0]] + query_bytes(s.skip(1))
    }
}

/// The text of a name or a value of a query, with replacement characters where it is no valid
/// UTF-8.
pub open spec fn query_text(s: Seq<u8>) -> Seq<char> {
    if valid_utf8(query_bytes(s)) {
        decode_utf8(query_bytes(s))
    } else {
        lossy_text(query_bytes(s))
    }
}

/// The name and the value of a piece of a query. Without an equals sign the value is empty.
pub open spec fn named_value(piece: Seq<u8>) -> (Seq<char>, Seq<char>) {
    let value = if occurs(piece, EQUALS) {
        query_text(after(piece, EQUALS))
    } else {
        Seq::empty()
    };
    (query_text(before(piece, EQUALS)), value)
}

/// The names and values of the pieces that are not empty, in order.
pub open spec fn filled_pairs(pieces: Seq<Seq<u8>>) -> Seq<(Seq<char>, Seq<char>)>
    decreases pieces.len(),
{
    if pieces.len() == 0 {
        Seq::empty()
    } else if pieces.last().len() == 0 {
        filled_pairs(pieces.drop_last())
    } else {
        filled_pairs(pieces.drop_last()).push(named_value(pieces.last()))
    }
}

/// The names and values of a query, whose pieces ampersands separate.
pub open spec fn query_pairs(query: Seq<u8>) -> Seq<(Seq<char>, Seq<char>)> {
    filled_pairs(split(query, AMPERSAND))
}

/// `url::form_urlencoded::parse`: the decoded names and values of a query, in order. Pieces between
/// ampersands count unless they are empty, the first equals sign of a piece ends its name, plus
/// signs and escapes are decoded, and what is no valid UTF-8 is replaced as
/// `String::from_utf8_lossy` does.
#[verifier::external_body]
pub(crate) fn parse_query(query: &[u8]) -> (pairs: Vec<(String, String)>)
    ensures
        pairs_view(pairs@) == query_pairs(query@),
{
    url::form_urlencoded::parse(query).into_owned().collect()
}

/// However a text is written as a name or a value of a query, it is read back.
pub proof fn written_text_is_queried(data: Seq<u8>, text: Seq<char>)
    requires
        writes(data, encode_utf8(text)),
    ensures
        query_text(data) == text,
{
    lemma_written_query_bytes(data, encode_utf8(text));
    encode_utf8_valid_utf8(text);
    encode_utf8_decode_utf8(text);
}

proof fn lemma_written_query_bytes(data: Seq<u8>, bytes: Seq<u8>)
    requires
        writes(data, bytes),
    ensures
        query_bytes(data) == bytes,
    decreases data.len(),
{
    if data.len() > 0 {
        if data[0] == PERCENT {
            lemma_written_query_bytes(data.skip(3), bytes.skip(1));
        } else {
            lemma_written_query_bytes(data.skip(1), bytes.skip(1));
        }
        assert(seq![bytes[0]] + bytes.skip(1) =~= bytes);
    }
}

proof fn lemma_filled_pairs_of(pieces: Seq<Seq<u8>>, pairs: Seq<(Seq<char>, Seq<char>)>)
    requires
        pieces.len() == pairs.len(),
        forall|i: int| 0 <= i < pieces.len() ==> writes_pair(#[trigger] pieces[i], pairs[i]),
    ensures
        filled_pairs(pieces) == pairs,
    decreases pieces.len(),
{
    if pieces.len() > 0 {
        let piece = pieces.last();
        let pair = pairs.last();
        lemma_filled_pairs_of(pieces.drop_last(), pairs.drop_last());
        written_text_is_queried(before(piece, EQUALS), pair.0);
        written_text_is_queried(after(piece, EQUALS), pair.1);
        assert(pairs.drop_last().push(pair) =~= pairs);
    }
}

proof fn lemma_filled_pairs_empty(pieces: Seq<Seq<u8>>)
    ensures
        filled_pairs(pieces).len() == 0 <==> forall|i: int|
            0 <= i < pieces.len() ==> (#[trigger] pieces[i]).len() == 0,
    decreases pieces.len(),
{
    if pieces.len() > 0 {
        let head = pieces.drop_last();
        lemma_filled_pairs_empty(head);
        assert(forall|i: int| 0 <= i < head.len() ==> #[trigger] head[i] == pieces[i]);
        assert(filled_pairs(pieces).len() == 0 ==> forall|i: int|
            0 <= i < head.len() ==> (#[trigger] pieces[i]).len() == 0) by {
            assert(forall|i: int| 0 <= i < head.len() ==> #[trigger] pieces[i] == head[i]);
        }
    }
}

/// However names and values are written as a query, these are found in it.
pub proof fn written_query_is_read_back(
    pieces: Seq<Seq<u8>>,
    pairs: Seq<(Seq<char>, Seq<char>)>,
)
    requires
        pieces.len() == pairs.len(),
        forall|i: int| 0 <= i < pieces.len() ==> writes_pair(#[trigger] pieces[i], pairs[i]),
    ensures
        query_pairs(with_ampersands(pieces)) == pairs,
        collected(query_pairs(with_ampersands(pieces))) == collected(pairs),
{
    if pieces.len() == 0 {
        lemma_filled_pairs_empty(split(with_ampersands(pieces), AMPERSAND));
        assert(query_pairs(with_ampersands(pieces)) =~= pairs);
    } else {
        lemma_split_pieces(pieces);
        lemma_filled_pairs_of(pieces, pairs);
    }
}

/// A query sets no parameter exactly if all its pieces are empty, as the one of an empty query is.
pub proof fn empty_pieces_set_nothing(query: Seq<u8>)
    ensures
        collected(query_pairs(query)) == Map::<Seq<char>, Seq<char>>::empty() <==> forall|i: int|
            0 <= i < split(query, AMPERSAND).len() ==> (#[trigger] split(
                query,
                AMPERSAND,
            )[i]).len() == 0,
        query.len() == 0 ==> collected(query_pairs(query)) == Map::<Seq<char>, Seq<char>>::empty(),
{
    lemma_filled_pairs_empty(split(query, AMPERSAND));
    let pairs = query_pairs(query);
    if pairs.len() > 0 {
        assert(collected(pairs).contains_key(pairs.last().0));
    }
}

} // verus!
