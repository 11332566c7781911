//! Scanning of byte and character sequences: prefixes, separators, letters and digits.
use vstd::prelude::*;

verus! {

/// The byte of `%`.
pub const PERCENT: u8 = 0x25;

/// The byte of `+`.
pub const PLUS: u8 = 0x2b;

/// The byte of `&`.
pub const AMPERSAND: u8 = 0x26;

/// The byte of `=`.
pub const EQUALS: u8 = 0x3d;

/// The byte of `?`.
pub const QUESTION: u8 = 0x3f;

/// The byte of a space.
pub const SPACE: u8 = 0x20;

/// The byte of `0`.
pub const ZERO: u8 = 0x30;

/// How many items at the front of `s` satisfy `p`, up to the first that does not.
pub open spec fn prefix_len<T>(s: Seq<T>, p: spec_fn(T) -> bool) -> nat
    decreases s.len(),
{
    if s.len() > 0 && p(s[0]) {
        1 + prefix_len(s.skip(1), p)
    } else {
        0
    }
}

/// The prefix is exactly the longest stretch at the front whose items all satisfy `p`.
pub proof fn lemma_prefix_len<T>(s: Seq<T>, p: spec_fn(T) -> bool)
    ensures
        prefix_len(s, p) <= s.len(),
        forall|i: int| 0 <= i < prefix_len(s, p) ==> p(#[trigger] s[i]),
        prefix_len(s, p) < s.len() ==> !p(s[prefix_len(s, p) as int]),
    decreases s.len(),
{
    if s.len() > 0 && p(s[0]) {
        lemma_prefix_len(s.skip(1), p);
        assert forall|i: int| 0 <= i < prefix_len(s, p) implies p(#[trigger] s[i]) by {
            if i > 0 {
                assert(s.skip(1)[i - 1] == s[i]);
            }
        }
    }
}

/// A stretch of items that satisfy `p` and ends at the end or before an item that does not is
/// the prefix.
pub proof fn lemma_prefix_len_is<T>(s: Seq<T>, p: spec_fn(T) -> bool, n: nat)
    requires
        n <= s.len(),
        forall|i: int| 0 <= i < n ==> p(#[trigger] s[i]),
        n < s.len() ==> !p(s[n as int]),
    ensures
        prefix_len(s, p) == n,
    decreases s.len(),
{
    if n > 0 {
        let rest = s.skip(1);
        assert(forall|i: int| 0 <= i < n - 1 ==> p(#[trigger] rest[i]));
        lemma_prefix_len_is(rest, p, (n - 1) as nat);
    }
}

/// The predicate of being another byte than `sep`.
pub open spec fn other_than(sep: u8) -> spec_fn(u8) -> bool {
    |b: u8| b != sep
}

/// The bytes of `s` before the first `sep`; all of them if there is none.
pub open spec fn before(s: Seq<u8>, sep: u8) -> Seq<u8> {
    s.take(prefix_len(s, other_than(sep)) as int)
}

/// Whether `sep` occurs in `s`.
pub open spec fn occurs(s: Seq<u8>, sep: u8) -> bool {
    prefix_len(s, other_than(sep)) < s.len()
}

/// The bytes of `s` after the first `sep`.
pub open spec fn after(s: Seq<u8>, sep: u8) -> Seq<u8>
    recommends
        occurs(s, sep),
{
    s.skip(prefix_len(s, other_than(sep)) as int + 1)
}

/// The pieces of `s` between the bytes `sep`: one more than there are separators.
pub open spec fn split(s: Seq<u8>, sep: u8) -> Seq<Seq<u8>>
    decreases s.len(),
{
    if occurs(s, sep) {
        seq![before(s, sep)] + split(after(s, sep), sep)
    } else {
        seq![s]
    }
}

/// The place of the first `sep` in `s`, or the length of `s` if there is none.
pub fn find_byte(s: &[u8], sep: u8) -> (place: usize)
    ensures
        place == prefix_len(s@, other_than(sep)),
        place <= s@.len(),
        place < s@.len() ==> s@[place as int] == sep,
        forall|i: int| 0 <= i < place ==> #[trigger] s@[i] != sep,
{
    let mut i: usize = 0;
    while i < s.len() && s[i] != sep
        invariant
            i <= s@.len(),
            forall|j: int| 0 <= j < i ==> #[trigger] s@[j] != sep,
        decreases s.len() - i,
    {
        i += 1;
    }
    proof {
        lemma_prefix_len_is(s@, other_than(sep), i as nat);
    }
    i
}

/// An ASCII letter in its lower case form; any other byte as it is.
pub open spec fn lower(b: u8) -> u8 {
    if 'A' as u8 <= b <= 'Z' as u8 {
        (b + 32) as u8
    } else {
        b
    }
}

/// Whether two byte strings differ at most in the case of ASCII letters.
pub open spec fn same_letters(a: Seq<u8>, b: Seq<u8>) -> bool {
    &&& a.len() == b.len()
    &&& forall|i: int| 0 <= i < a.len() ==> lower(#[trigger] a[i]) == lower(b[i])
}

/// Whether `word` occurs in `s`, whatever the case of ASCII letters.
pub open spec fn mentions(s: Seq<u8>, word: Seq<u8>) -> bool {
    exists|i: int|
        0 <= i <= s.len() - word.len() && same_letters(
            #[trigger] s.subrange(i, i + word.len()),
            word,
        )
}

fn to_lower(b: u8) -> (r: u8)
    ensures
        r == lower(b),
{
    if 'A' as u8 <= b && b <= 'Z' as u8 {
        b + 32
    } else {
        b
    }
}

/// Compares two byte strings without regard to the case of ASCII letters.
pub fn eq_ignore_case(a: &[u8], b: &[u8]) -> (same: bool)
    ensures
        same == same_letters(a@, b@),
{
    if a.len() != b.len() {
        return false;
    }
    let mut i: usize = 0;
    while i < a.len()
        invariant
            a@.len() == b@.len(),
            i <= a@.len(),
            forall|j: int| 0 <= j < i ==> lower(#[trigger] a@[j]) == lower(b@[j]),
        decreases a.len() - i,
    {
        if to_lower(a[i]) != to_lower(b[i]) {
            return false;
        }
        i += 1;
    }
    true
}

/// Searches `s` for `word` without regard to the case of ASCII letters.
pub fn contains_ignore_case(s: &[u8], word: &[u8]) -> (found: bool)
    ensures
        found == mentions(s@, word@),
{
    if word.len() > s.len() {
        return false;
    }
    let last: usize = s.len() - word.len();
    let mut i: usize = 0;
    loop
        invariant
            last == s@.len() - word@.len(),
            s@.len() <= usize::MAX,
            i <= last,
            forall|j: int|
                0 <= j < i ==> !same_letters(#[trigger] s@.subrange(j, j + word@.len()), word@),
        decreases last - i,
    {
        if eq_ignore_case(vstd::slice::slice_subrange(s, i, i + word.len()), word) {
            return true;
        }
        if i == last {
            return false;
        }
        i += 1;
    }
}

/// The number that a sequence of decimal digits stands for, the most significant digit first.
pub open spec fn decimal(digits: Seq<int>) -> int
    decreases digits.len(),
{
    if digits.len() == 0 {
        0
    } else {
        decimal(digits.drop_last()) * 10 + digits.last()
    }
}

/// The decimal digits of `n`, the most significant first and without leading zeros.
pub open spec fn digits_of(n: nat) -> Seq<int>
    decreases n,
{
    if n < 10 {
        seq![n as int]
    } else {
        digits_of(n / 10).push((n % 10) as int)
    }
}

pub proof fn lemma_decimal_push(digits: Seq<int>, digit: int)
    ensures
        decimal(digits.push(digit)) == decimal(digits) * 10 + digit,
{
    assert(digits.push(digit).drop_last() =~= digits);
}

/// A longer run of digits stands for a number that is at least as large.
pub proof fn lemma_decimal_grows(digits: Seq<int>, n: int)
    requires
        0 <= n <= digits.len(),
        forall|i: int| 0 <= i < digits.len() ==> 0 <= #[trigger] digits[i] <= 9,
    ensures
        0 <= decimal(digits.take(n)) <= decimal(digits),
    decreases digits.len(),
{
    if digits.len() > 0 && n == digits.len() {
        assert(digits.take(n) =~= digits);
        lemma_decimal_grows(digits.drop_last(), 0);
    } else if digits.len() > 0 {
        assert(digits.take(n) =~= digits.drop_last().take(n));
        lemma_decimal_grows(digits.drop_last(), n);
    }
}

/// Leading zeros do not count.
pub proof fn lemma_decimal_zeros(zeros: Seq<int>, digits: Seq<int>)
    requires
        forall|i: int| 0 <= i < zeros.len() ==> #[trigger] zeros[i] == 0,
    ensures
        decimal(zeros + digits) == decimal(digits),
    decreases zeros.len() + digits.len(),
{
    let all = zeros + digits;
    if digits.len() > 0 {
        assert(all.drop_last() =~= zeros + digits.drop_last());
        lemma_decimal_zeros(zeros, digits.drop_last());
    } else if zeros.len() > 0 {
        assert(all.drop_last() =~= zeros.drop_last() + digits);
        lemma_decimal_zeros(zeros.drop_last(), digits);
    }
}

/// The digits of a number are decimal digits and stand for that number.
pub proof fn lemma_digits_of(n: nat)
    ensures
        digits_of(n).len() > 0,
        forall|i: int| 0 <= i < digits_of(n).len() ==> 0 <= #[trigger] digits_of(n)[i] <= 9,
        decimal(digits_of(n)) == n,
    decreases n,
{
    if n < 10 {
        assert(digits_of(n).drop_last() =~= Seq::<int>::empty());
        assert(decimal(Seq::<int>::empty()) == 0);
    } else {
        lemma_digits_of(n / 10);
        lemma_decimal_push(digits_of(n / 10), (n % 10) as int);
    }
}

} // verus!
