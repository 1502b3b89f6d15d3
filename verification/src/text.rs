//! Byte-level facts about UTF-8 text, and the few text primitives every
//! matcher is built from: the width of a character, splitting a string at a
//! byte offset, testing a prefix and finding the leftmost occurrence of a
//! needle.

use vstd::prelude::*;
use vstd::std_specs::iter::IteratorSpec;
use vstd::string::*;
use vstd::utf8::*;

verus! {

/// Number of bytes that `chars` occupies once encoded as UTF-8.
pub open spec fn utf8_len(chars: Seq<char>) -> nat {
    encode_utf8(chars).len()
}

/// Number of bytes of the UTF-8 encoding of the single character `c`.
pub open spec fn spec_char_width(c: char) -> nat {
    encode_scalar(c as u32).len()
}

/// `needle` occurs in `hay` starting at byte `at`.
pub open spec fn occurs_at(hay: Seq<u8>, needle: Seq<u8>, at: int) -> bool {
    &&& 0 <= at
    &&& at + needle.len() <= hay.len()
    &&& hay.subrange(at, at + needle.len()) == needle
}

/// `at` is the leftmost position at which `needle` occurs in `hay`.
pub open spec fn first_occurrence(hay: Seq<u8>, needle: Seq<u8>, at: int) -> bool {
    &&& occurs_at(hay, needle, at)
    &&& forall|j: int| 0 <= j < at ==> !occurs_at(hay, needle, j)
}

/// `needle` occurs nowhere in `hay`.
pub open spec fn never_occurs(hay: Seq<u8>, needle: Seq<u8>) -> bool {
    forall|j: int| !occurs_at(hay, needle, j)
}

/// The bytes from `start` to `end` of `hay` hold whole characters.
pub open spec fn is_span(hay: Seq<u8>, start: int, end: int) -> bool {
    &&& 0 <= start <= end <= hay.len()
    &&& is_char_boundary(hay, start)
    &&& is_char_boundary(hay, end)
}

/// The characters that the bytes from `start` to `end` of the text `hay`
/// hold.
pub open spec fn slice_of(hay: Seq<char>, start: int, end: int) -> Seq<char> {
    decode_utf8(encode_utf8(hay).subrange(start, end))
}

/// The run of the character `c` at the front of `text` is `k` characters
/// long.
pub open spec fn char_run(text: Seq<char>, c: char, k: int) -> bool {
    &&& 0 <= k <= text.len()
    &&& forall|i: int| 0 <= i < k ==> #[trigger] text[i] == c
    &&& k < text.len() ==> text[k] != c
}

/// The first `k` characters of `text` are all other than `c`, and the next
/// one, if there is one, is `c`.
pub open spec fn char_gap(text: Seq<char>, c: char, k: int) -> bool {
    &&& 0 <= k <= text.len()
    &&& forall|i: int| 0 <= i < k ==> #[trigger] text[i] != c
    &&& k < text.len() ==> text[k] == c
}

/// `k` is the index of the first character of `hay` that equals `c`.
pub open spec fn first_char_at(hay: Seq<char>, c: char, k: int) -> bool {
    &&& 0 <= k < hay.len()
    &&& hay[k] == c
    &&& forall|j: int| 0 <= j < k ==> hay[j] != c
}

/// The view of a string is the decoding of its bytes.
pub proof fn lemma_view_is_decoding(s: &str)
    ensures
        s@ == decode_utf8(s.spec_bytes()),
        valid_utf8(s.spec_bytes()),
{
    encode_utf8_decode_utf8(s@);
    encode_utf8_valid_utf8(s@);
}

/// Encoding distributes over concatenation.
pub proof fn lemma_encode_concat(a: Seq<char>, b: Seq<char>)
    ensures
        encode_utf8(a + b) == encode_utf8(a) + encode_utf8(b),
    decreases a.len(),
{
    if a.len() == 0 {
        assert(a + b =~= b);
        assert(encode_utf8(a) + encode_utf8(b) =~= encode_utf8(b));
    } else {
        lemma_encode_concat(a.drop_first(), b);
        assert((a + b).drop_first() =~= a.drop_first() + b);
        assert((a + b)[0] == a[0]);
        assert(encode_utf8(a + b) =~= encode_utf8(a) + encode_utf8(b));
    }
}

/// The byte length of a concatenation is the sum of the byte lengths.
pub proof fn lemma_utf8_len_concat(a: Seq<char>, b: Seq<char>)
    ensures
        utf8_len(a + b) == utf8_len(a) + utf8_len(b),
{
    lemma_encode_concat(a, b);
}

/// Every character takes between one and four bytes.
pub proof fn lemma_char_width_bounds(c: char)
    ensures
        1 <= spec_char_width(c) <= 4,
{
}

/// The byte length of a text lies between its number of characters and four
/// times that number.
pub proof fn lemma_utf8_len_bounds(chars: Seq<char>)
    ensures
        chars.len() <= utf8_len(chars) <= 4 * chars.len(),
    decreases chars.len(),
{
    if chars.len() > 0 {
        lemma_utf8_len_bounds(chars.drop_first());
        lemma_char_width_bounds(chars[0]);
    }
}

/// A valid encoding that is a prefix of another valid encoding ends on a
/// character boundary of the longer one.
pub proof fn lemma_prefix_boundary(a: Seq<u8>, b: Seq<u8>)
    requires
        valid_utf8(a),
        valid_utf8(b),
        a.len() <= b.len(),
        b.subrange(0, a.len() as int) == a,
    ensures
        is_char_boundary(b, a.len() as int),
    decreases a.len(),
{
    if a.len() > 0 {
        let w = length_of_first_scalar(a);
        assert(forall|i: int| 0 <= i < a.len() ==> a[i] == b.subrange(0, a.len() as int)[i]);
        assert(a[0] == b[0]);
        assert(valid_first_scalar(a));
        assert(1 <= w <= a.len());
        assert(length_of_first_scalar(b) == w);
        let a2 = pop_first_scalar(a);
        let b2 = pop_first_scalar(b);
        assert(b2.subrange(0, a2.len() as int) =~= a2);
        lemma_prefix_boundary(a2, b2);
    }
}

/// A boundary of the text that starts at a boundary is a boundary of the
/// whole text.
pub proof fn lemma_boundary_shift(b: Seq<u8>, i: int, j: int)
    requires
        valid_utf8(b),
        is_char_boundary(b, i),
        0 <= j,
        is_char_boundary(b.subrange(i, b.len() as int), j),
    ensures
        is_char_boundary(b, i + j),
    decreases i,
{
    valid_utf8_split(b, i);
    if i == 0 {
        assert(b.subrange(0, b.len() as int) =~= b);
    } else if j == 0 {
    } else {
        let w = length_of_first_scalar(b);
        lemma_boundary_range(b, i);
        assert(i >= w) by {
            reveal_with_fuel(is_char_boundary, 2);
        }
        let b2 = pop_first_scalar(b);
        assert(b2.subrange(i - w, b2.len() as int) =~= b.subrange(i, b.len() as int));
        lemma_boundary_shift(b2, i - w, j);
        lemma_boundary_range(b.subrange(i, b.len() as int), j);
    }
}

/// A character boundary lies within the text.
pub proof fn lemma_boundary_range(b: Seq<u8>, i: int)
    requires
        valid_utf8(b),
        is_char_boundary(b, i),
    ensures
        0 <= i <= b.len(),
{
    reveal_with_fuel(is_char_boundary, 2);
}

/// Where a non-empty valid encoding occurs inside a valid encoding, it
/// starts and ends on character boundaries.
pub proof fn lemma_occurrence_boundaries(hay: Seq<u8>, needle: Seq<u8>, at: int)
    requires
        valid_utf8(hay),
        valid_utf8(needle),
        occurs_at(hay, needle, at),
        needle.len() > 0 || is_char_boundary(hay, at),
    ensures
        is_char_boundary(hay, at),
        is_char_boundary(hay, at + needle.len()),
{
    if needle.len() > 0 {
        assert(hay.subrange(at, at + needle.len())[0] == needle[0]);
        assert(hay[at] == needle[0]);
        assert(valid_first_scalar(needle));
        is_char_boundary_iff_is_leading_byte(hay, at);
    }
    valid_utf8_split(hay, at);
    let rest = hay.subrange(at, hay.len() as int);
    assert(rest.subrange(0, needle.len() as int) =~= needle);
    lemma_prefix_boundary(needle, rest);
    lemma_boundary_shift(hay, at, needle.len() as int);
}

/// The encoding of a prefix of a text ends on a character boundary of the
/// encoding of the whole text.
pub proof fn lemma_concat_boundary(a: Seq<char>, b: Seq<char>)
    ensures
        is_char_boundary(encode_utf8(a + b), utf8_len(a) as int),
        encode_utf8(a + b).subrange(0, utf8_len(a) as int) == encode_utf8(a),
        encode_utf8(a + b).subrange(utf8_len(a) as int, utf8_len(a + b) as int) == encode_utf8(b),
{
    lemma_encode_concat(a, b);
    encode_utf8_valid_utf8(a);
    encode_utf8_valid_utf8(a + b);
    let whole = encode_utf8(a + b);
    assert(whole.subrange(0, utf8_len(a) as int) =~= encode_utf8(a));
    assert(whole.subrange(utf8_len(a) as int, whole.len() as int) =~= encode_utf8(b));
    lemma_prefix_boundary(encode_utf8(a), whole);
}

/// A boundary of a text, seen from an earlier boundary, is a boundary of
/// the text that starts there.
pub proof fn lemma_boundary_unshift(b: Seq<u8>, i: int, k: int)
    requires
        valid_utf8(b),
        is_char_boundary(b, i),
        is_char_boundary(b, k),
        i <= k,
    ensures
        is_char_boundary(b.subrange(i, b.len() as int), k - i),
{
    lemma_boundary_range(b, i);
    lemma_boundary_range(b, k);
    valid_utf8_split(b, i);
    let rest = b.subrange(i, b.len() as int);
    if k < b.len() {
        is_char_boundary_iff_not_is_continuation_byte(b, k);
        is_char_boundary_iff_not_is_continuation_byte(rest, k - i);
        assert(rest[k - i] == b[k]);
    } else {
        is_char_boundary_start_end_of_seq(rest);
    }
}

/// A text of one character takes as many bytes as that character.
pub proof fn lemma_single_len(c: char)
    ensures
        utf8_len(seq![c]) == spec_char_width(c),
{
    assert(seq![c].drop_first() =~= Seq::<char>::empty());
    reveal_with_fuel(encode_utf8, 2);
}

/// One character more in a prefix adds the width of that character to its
/// byte length, and a prefix is never longer than the whole.
pub proof fn lemma_take_step(s: Seq<char>, k: int)
    requires
        0 <= k < s.len(),
    ensures
        utf8_len(s.take(k + 1)) == utf8_len(s.take(k)) + spec_char_width(s[k]),
        utf8_len(s.take(k + 1)) <= utf8_len(s),
{
    let c = s[k];
    assert(s.take(k + 1) =~= s.take(k) + seq![c]);
    lemma_utf8_len_concat(s.take(k), seq![c]);
    assert(s =~= s.take(k + 1) + s.skip(k + 1));
    lemma_utf8_len_concat(s.take(k + 1), s.skip(k + 1));
    assert(utf8_len(seq![c]) == spec_char_width(c)) by {
        assert(seq![c].drop_first() =~= Seq::<char>::empty());
        reveal_with_fuel(encode_utf8, 2);
    }
}

/// A prefix takes no more bytes than the whole text, and as many only if it
/// is the whole text.
pub proof fn lemma_take_len(s: Seq<char>, k: int)
    requires
        0 <= k <= s.len(),
    ensures
        utf8_len(s.take(k)) <= utf8_len(s),
        utf8_len(s.take(k)) == utf8_len(s) <==> k == s.len(),
        utf8_len(s.take(k)) == 0 <==> k == 0,
{
    assert(s =~= s.take(k) + s.skip(k));
    lemma_utf8_len_concat(s.take(k), s.skip(k));
    lemma_utf8_len_bounds(s.skip(k));
    lemma_utf8_len_bounds(s.take(k));
}

/// A text whose encoding is empty is empty.
pub proof fn lemma_utf8_len_zero(chars: Seq<char>)
    requires
        utf8_len(chars) == 0,
    ensures
        chars.len() == 0,
{
    lemma_utf8_len_bounds(chars);
}

/// Two texts with the same bytes are the same text.
pub proof fn lemma_same_bytes_same_text(a: Seq<char>, b: Seq<char>)
    requires
        encode_utf8(a) == encode_utf8(b),
    ensures
        a == b,
{
    encode_utf8_decode_utf8(a);
    encode_utf8_decode_utf8(b);
}

/// `c` is a space, a tab, a line feed, a form feed or a carriage return.
pub open spec fn spec_is_ascii_whitespace(c: char) -> bool {
    c == ' ' || c == '\t' || c == '\n' || c == '\u{c}' || c == '\r'
}

/// `c` has the Unicode property White_Space.
pub open spec fn spec_is_whitespace(c: char) -> bool {
    let v = c as u32;
    ||| 0x09 <= v <= 0x0d
    ||| v == 0x20
    ||| v == 0x85
    ||| v == 0xa0
    ||| v == 0x1680
    ||| 0x2000 <= v <= 0x200a
    ||| v == 0x2028
    ||| v == 0x2029
    ||| v == 0x202f
    ||| v == 0x205f
    ||| v == 0x3000
}

/// Whether `c` is a space, a tab, a line feed, a form feed or a carriage
/// return.
pub fn is_ascii_whitespace(c: char) -> (b: bool)
    ensures
        b == spec_is_ascii_whitespace(c),
{
    c == ' ' || c == '\t' || c == '\n' || c == '\u{c}' || c == '\r'
}

/// Whether `c` has the Unicode property White_Space.
pub fn is_whitespace(c: char) -> (b: bool)
    ensures
        b == spec_is_whitespace(c),
{
    let v: u32 = c as u32;
    (0x09 <= v && v <= 0x0d) || v == 0x20 || v == 0x85 || v == 0xa0 || v == 0x1680 || (0x2000
        <= v && v <= 0x200a) || v == 0x2028 || v == 0x2029 || v == 0x202f || v == 0x205f || v
        == 0x3000
}

/// `std::char::from_u32` gives the character whose scalar value is `i`, and
/// `None` exactly where `i` is no scalar value: a surrogate, or a number
/// above `0x10FFFF`.
pub assume_specification[ std::char::from_u32 ](i: u32) -> (r: Option<char>)
    ensures
        r.is_some() <==> is_scalar(i),
        r matches Some(c) ==> c as u32 == i,
;

/// Number of bytes that `c` takes in UTF-8.
pub fn char_width(c: char) -> (n: usize)
    ensures
        n == spec_char_width(c),
        1 <= n <= 4,
{
    let v: u32 = c as u32;
    if v < 0x80 {
        1
    } else if v < 0x800 {
        2
    } else if v < 0x10000 {
        3
    } else {
        4
    }
}

/// Length of `s` in bytes.
pub fn byte_len(s: &str) -> (n: usize)
    ensures
        n == utf8_len(s@),
        n == s.spec_bytes().len(),
{
    s.as_bytes().len()
}

/// First character of `s`, if it has one.
pub fn first_char(s: &str) -> (r: Option<char>)
    ensures
        r == (if s@.len() > 0 {
            Some(s@[0])
        } else {
            None
        }),
{
    broadcast use vstd::string::group_string_axioms;

    let mut it = s.chars();
    it.next()
}

/// Splits `s` at byte `at`, which must be a character boundary.
pub fn split_str<'a>(s: &'a str, at: usize) -> (r: (&'a str, &'a str))
    requires
        is_char_boundary(s.spec_bytes(), at as int),
    ensures
        s@ == r.0@ + r.1@,
        utf8_len(r.0@) == at,
        r.0.spec_bytes() == s.spec_bytes().subrange(0, at as int),
        r.1.spec_bytes() == s.spec_bytes().subrange(at as int, s.spec_bytes().len() as int),
{
    let r = s.split_at(at);
    proof {
        lemma_view_is_decoding(s);
        lemma_view_is_decoding(r.0);
        lemma_view_is_decoding(r.1);
        lemma_boundary_range(s.spec_bytes(), at as int);
        decode_utf8_split(s.spec_bytes(), at as int);
    }
    r
}

/// Whether `hay` begins with `needle`, byte for byte.
pub fn bytes_start_with(hay: &[u8], needle: &[u8]) -> (b: bool)
    ensures
        b == occurs_at(hay@, needle@, 0),
{
    bytes_match_at(hay, needle, 0)
}

/// Whether `needle` occurs in `hay` at byte `at`.
pub fn bytes_match_at(hay: &[u8], needle: &[u8], at: usize) -> (b: bool)
    requires
        at <= hay@.len(),
    ensures
        b == occurs_at(hay@, needle@, at as int),
{
    let n: usize = needle.len();
    if n > hay.len() - at {
        return false;
    }
    let mut i: usize = 0;
    while i < n
        invariant
            n == needle@.len(),
            at + n <= hay@.len() <= usize::MAX,
            i <= n,
            forall|k: int| 0 <= k < i ==> hay@[at + k] == needle@[k],
        decreases n - i,
    {
        if hay[at + i] != needle[i] {
            proof {
                let sub = hay@.subrange(at as int, at + n);
                assert(sub[i as int] == hay@[at + i]);
            }
            return false;
        }
        i += 1;
    }
    assert(hay@.subrange(at as int, at + n) =~= needle@);
    true
}

/// Leftmost position at which `needle` occurs in `hay`.
pub fn find_bytes(hay: &[u8], needle: &[u8]) -> (r: Option<usize>)
    ensures
        match r {
            Some(at) => first_occurrence(hay@, needle@, at as int),
            None => never_occurs(hay@, needle@),
        },
{
    let n: usize = needle.len();
    if n > hay.len() {
        return None;
    }
    let last: usize = hay.len() - n;
    let mut at: usize = 0;
    loop
        invariant
            n == needle@.len(),
            last == hay@.len() - n,
            at <= last,
            forall|j: int| 0 <= j < at ==> !occurs_at(hay@, needle@, j),
        decreases last - at,
    {
        if bytes_match_at(hay, needle, at) {
            return Some(at);
        }
        if at == last {
            return None;
        }
        at += 1;
    }
}

/// On every character of `chars` before `k` the answer of `accept` is
/// `want`, and on the one at `k`, if there is one, it is the opposite.
pub open spec fn is_run_of<F: Fn(char) -> bool>(
    accept: F,
    chars: Seq<char>,
    k: int,
    want: bool,
) -> bool {
    &&& 0 <= k <= chars.len()
    &&& forall|i: int| 0 <= i < k ==> accept.ensures((#[trigger] chars[i],), want)
    &&& k < chars.len() ==> accept.ensures((chars[k],), !want)
}

/// Every character of `chars` before `k` is accepted by `accept`, and the
/// one at `k`, if there is one, is refused.
pub open spec fn is_run<F: Fn(char) -> bool>(accept: F, chars: Seq<char>, k: int) -> bool {
    is_run_of(accept, chars, k, true)
}

/// Length in bytes of the longest run of characters at the front of `s` on
/// which `accept` answers `want`, one after the other. The second component
/// is the length of the run in characters.
pub(crate) fn scan_run<F: Fn(char) -> bool>(s: &str, accept: &F, want: bool) -> (r: (usize, Ghost<int>))
    requires
        forall|c: char| accept.requires((c,)),
    ensures
        is_run_of(*accept, s@, r.1@, want),
        r.0 == utf8_len(s@.take(r.1@)),
{
    broadcast use vstd::string::group_string_axioms;

    let total: usize = byte_len(s);
    let mut it = s.chars();
    let mut offset: usize = 0;
    let ghost mut k: int = 0;
    proof {
        assert(s@.take(0) =~= Seq::<char>::empty());
        assert(s@.skip(0) =~= s@);
    }
    loop
        invariant_except_break
            it.remaining() == s@.skip(k),
        invariant
            forall|c: char| accept.requires((c,)),
            0 <= k <= s@.len(),
            offset == utf8_len(s@.take(k)),
            total == utf8_len(s@),
            forall|i: int| 0 <= i < k ==> accept.ensures((#[trigger] s@[i],), want),
        ensures
            k < s@.len() ==> accept.ensures((s@[k],), !want),
        decreases s@.len() - k,
    {
        match it.next() {
            Some(c) => {
                assert(c == s@[k]);
                if accept(c) != want {
                    break ;
                }
                proof {
                    lemma_take_step(s@, k);
                    assert(s@.skip(k).drop_first() =~= s@.skip(k + 1));
                    k = k + 1;
                }
                offset += char_width(c);
            },
            None => {
                break ;
            },
        }
    }
    (offset, Ghost(k))
}

/// Length in bytes of the longest run of characters at the front of `s`
/// that `accept` accepts, one after the other. The second component is the
/// length of the run in characters.
pub(crate) fn scan_while<F: Fn(char) -> bool>(s: &str, accept: &F) -> (r: (usize, Ghost<int>))
    requires
        forall|c: char| accept.requires((c,)),
    ensures
        is_run(*accept, s@, r.1@),
        r.0 == utf8_len(s@.take(r.1@)),
{
    scan_run(s, accept, true)
}

} // verus!
