//! Unicode escapes: four hexadecimal digits, or up to six digits in braces.

use super::color::{byte_to_u8, hex_value, is_ascii_hex_digit, is_hex_digit};
use crate::results::{CustomError, ParseResult, StopBecause};
use crate::states::ParseState;
use crate::text::{
    byte_len, char_gap, char_run, char_width, is_whitespace, lemma_take_step,
    lemma_utf8_len_concat, lemma_view_is_decoding, scan_while, spec_is_whitespace, split_str,
    utf8_len,
};
use vstd::prelude::*;
use vstd::std_specs::iter::IteratorSpec;
use vstd::string::*;
use vstd::utf8::*;

verus! {

/// The number written with the hexadecimal digits `digits`, the first one
/// counting most.
pub open spec fn hex_number(digits: Seq<char>) -> nat
    decreases digits.len(),
{
    if digits.len() == 0 {
        0
    } else {
        (hex_number(digits.drop_last()) * 16 + hex_value(digits.last())) as nat
    }
}

/// Every character of `digits` is a hexadecimal digit.
pub open spec fn all_hex(digits: Seq<char>) -> bool {
    forall|i: int| 0 <= i < digits.len() ==> is_hex_digit(#[trigger] digits[i])
}

/// `text` without the whitespace at its front.
pub open spec fn trim_front(text: Seq<char>) -> Seq<char>
    decreases text.len(),
{
    if text.len() > 0 && spec_is_whitespace(text[0]) {
        trim_front(text.drop_first())
    } else {
        text
    }
}

/// `text` without the whitespace at its end.
pub open spec fn trim_back(text: Seq<char>) -> Seq<char>
    decreases text.len(),
{
    if text.len() > 0 && spec_is_whitespace(text.last()) {
        trim_back(text.drop_last())
    } else {
        text
    }
}

/// `text` without the whitespace at its front and at its end.
pub open spec fn trimmed(text: Seq<char>) -> Seq<char> {
    trim_back(trim_front(text))
}

/// With `k` whitespace characters at the front and another character after
/// them, or none, trimming the front drops exactly these `k`.
pub proof fn lemma_trim_front(text: Seq<char>, k: int)
    requires
        0 <= k <= text.len(),
        forall|i: int| 0 <= i < k ==> spec_is_whitespace(#[trigger] text[i]),
        k < text.len() ==> !spec_is_whitespace(text[k]),
    ensures
        trim_front(text) == text.skip(k),
    decreases k,
{
    if k == 0 {
        assert(text.skip(0) =~= text);
    } else {
        let rest = text.drop_first();
        assert forall|i: int| 0 <= i < k - 1 implies spec_is_whitespace(#[trigger] rest[i]) by {
            assert(rest[i] == text[i + 1]);
        }
        lemma_trim_front(rest, k - 1);
        assert(rest.skip(k - 1) =~= text.skip(k));
    }
}

/// With only whitespace from index `j` on and another character before it,
/// or none, trimming the end keeps exactly the first `j` characters.
pub proof fn lemma_trim_back(text: Seq<char>, j: int)
    requires
        0 <= j <= text.len(),
        forall|i: int| j <= i < text.len() ==> spec_is_whitespace(#[trigger] text[i]),
        j > 0 ==> !spec_is_whitespace(text[j - 1]),
    ensures
        trim_back(text) == text.take(j),
    decreases text.len() - j,
{
    if j == text.len() {
        assert(text.take(j) =~= text);
    } else {
        let rest = text.drop_last();
        lemma_trim_back(rest, j);
        assert(rest.take(j) =~= text.take(j));
    }
}

/// Cuts the whitespace off both ends of `text`.
pub fn trim_text<'a>(text: &'a str) -> (r: &'a str)
    ensures
        r@ == trimmed(text@),
{
    broadcast use vstd::string::group_string_axioms;

    let space = |c: char| -> (b: bool)
        ensures
            b == spec_is_whitespace(c),
        { is_whitespace(c) };
    let (lead, k) = scan_while(text, &space);
    proof {
        assert(text@ =~= text@.take(k@) + text@.skip(k@));
        crate::text::lemma_concat_boundary(text@.take(k@), text@.skip(k@));
        assert forall|i: int| 0 <= i < k@ implies spec_is_whitespace(#[trigger] text@[i]) by {
            assert(space.ensures((text@[i],), true));
        }
        if k@ < text@.len() {
            assert(space.ensures((text@[k@],), false));
        }
        lemma_trim_front(text@, k@);
    }
    let (front, rest) = split_str(text, lead);
    proof {
        lemma_view_is_decoding(front);
        lemma_view_is_decoding(rest);
        lemma_view_is_decoding(text);
        crate::text::lemma_same_bytes_same_text(rest@, text@.skip(k@));
    }
    let ghost body = rest@;
    let total: usize = byte_len(rest);
    let mut it = rest.chars();
    let mut offset: usize = 0;
    let mut keep: usize = 0;
    let ghost mut i: int = 0;
    let ghost mut j: int = 0;
    proof {
        assert(body.take(0) =~= Seq::<char>::empty());
        assert(body.skip(0) =~= body);
    }
    loop
        invariant_except_break
            it.remaining() == body.skip(i),
        invariant
            body == rest@,
            total == utf8_len(body),
            0 <= j <= i <= body.len(),
            offset == utf8_len(body.take(i)),
            keep == utf8_len(body.take(j)),
            forall|m: int| j <= m < i ==> spec_is_whitespace(#[trigger] body[m]),
            j > 0 ==> !spec_is_whitespace(body[j - 1]),
        ensures
            i == body.len(),
        decreases body.len() - i,
    {
        match it.next() {
            Some(c) => {
                proof {
                    lemma_take_step(body, i);
                    assert(body.skip(i).drop_first() =~= body.skip(i + 1));
                    i = i + 1;
                }
                offset += char_width(c);
                if !is_whitespace(c) {
                    keep = offset;
                    proof {
                        j = i;
                    }
                }
            },
            None => {
                break ;
            },
        }
    }
    proof {
        lemma_trim_back(body, j);
        assert(body =~= body.take(j) + body.skip(j));
        crate::text::lemma_concat_boundary(body.take(j), body.skip(j));
    }
    let (kept, tail) = split_str(rest, keep);
    proof {
        lemma_view_is_decoding(kept);
        crate::text::lemma_same_bytes_same_text(kept@, body.take(j));
    }
    kept
}

/// The number that the hexadecimal digit `c` stands for, or `None` where
/// `c` is no such digit.
pub fn hex_digit_value(c: char) -> (r: Option<u8>)
    ensures
        r == (if is_hex_digit(c) {
            Some(hex_value(c) as u8)
        } else {
            None
        }),
{
    if c >= '0' && c <= '9' {
        Some((c as u32 - 0x30) as u8)
    } else if c >= 'a' && c <= 'f' {
        Some((c as u32 - 0x61 + 10) as u8)
    } else if c >= 'A' && c <= 'F' {
        Some((c as u32 - 0x41 + 10) as u8)
    } else {
        None
    }
}

/// The number written with the hexadecimal digits of `digits`, or `None`
/// where a character of `digits` is no such digit.
pub fn parse_hex(digits: &str) -> (r: Option<u32>)
    requires
        digits@.len() <= 6,
    ensures
        r.is_some() <==> all_hex(digits@),
        r matches Some(v) ==> v == hex_number(digits@),
{
    broadcast use vstd::string::group_string_axioms;

    let ghost text = digits@;
    let mut it = digits.chars();
    let mut value: u32 = 0;
    let ghost mut i: int = 0;
    proof {
        assert(text.take(0) =~= Seq::<char>::empty());
        assert(text.skip(0) =~= text);
    }
    loop
        invariant_except_break
            it.remaining() == text.skip(i),
        invariant
            text == digits@,
            text.len() <= 6,
            0 <= i <= text.len(),
            all_hex(text.take(i)),
            value == hex_number(text.take(i)),
            value < pow16(i as nat),
        ensures
            i == text.len(),
        decreases text.len() - i,
    {
        match it.next() {
            Some(c) => {
                proof {
                    assert(c == text[i]);
                    assert(text.skip(i).drop_first() =~= text.skip(i + 1));
                }
                match hex_digit_value(c) {
                    Some(d) => {
                        proof {
                            let before = text.take(i);
                            let after = text.take(i + 1);
                            assert(after.drop_last() =~= before);
                            assert(after.last() == c);
                            assert forall|m: int| 0 <= m < after.len() implies is_hex_digit(
                                #[trigger] after[m],
                            ) by {
                                if m < i {
                                    assert(after[m] == before[m]);
                                }
                            }
                            lemma_pow16(i as nat);
                            i = i + 1;
                        }
                        value = value * 16 + d as u32;
                    },
                    None => {
                        return None;
                    },
                }
            },
            None => {
                break ;
            },
        }
    }
    proof {
        assert(text.take(i) =~= text);
    }
    Some(value)
}

/// Sixteen to the power `n`.
pub open spec fn pow16(n: nat) -> nat
    decreases n,
{
    if n == 0 {
        1
    } else {
        16 * pow16((n - 1) as nat)
    }
}

/// Up to the sixth, the powers of sixteen fit in 24 bits.
pub proof fn lemma_pow16(n: nat)
    requires
        n <= 6,
    ensures
        pow16(n) <= 0x1000000,
        pow16(n + 1) == 16 * pow16(n),
{
    reveal_with_fuel(pow16, 8);
}

/// `r` is what `unescape_u` makes of `input`: the character whose number
/// the first four characters of the text write in hexadecimal digits, and a
/// failure where they are not four such digits or write no scalar value.
pub open spec fn fixed_parsed<'i>(input: ParseState<'i>, r: ParseResult<'i, char>) -> bool {
    let text = input.text();
    if text.len() >= 4 && all_hex(text.take(4)) && is_scalar(hex_number(text.take(4)) as u32) {
        &&& r matches ParseResult::Pending(state, c)
        &&& c as u32 == hex_number(text.take(4))
        &&& state.advanced_by(input, text.take(4))
        &&& state.wf()
    } else {
        r == ParseResult::<'i, char>::Stop(
            StopBecause::Custom(
                CustomError {
                    message: "Invalid unicode escape sequence",
                    start: input.start_offset,
                    end: (input.start_offset + 4) as usize,
                },
            ),
        )
    }
}

/// Reads the four hexadecimal digits of an escape such as `\u0041`, whose
/// head has been passed already.
pub fn unescape_u<'i>(input: ParseState<'i>) -> (r: ParseResult<'i, char>)
    requires
        input.wf(),
        input.start_offset + 4 <= usize::MAX,
    ensures
        fixed_parsed(input, r),
{
    let ghost text = input.text();
    let failure = ParseResult::Stop(
        StopBecause::Custom(
            CustomError {
                message: "Invalid unicode escape sequence",
                start: input.start_offset,
                end: input.start_offset + 4,
            },
        ),
    );
    let digit = |c: char| -> (b: bool)
        ensures
            b == is_hex_digit(c),
        { is_ascii_hex_digit(c) };
    let (count, k) = scan_while(input.residual, &digit);
    proof {
        assert forall|i: int| 0 <= i < k@ implies is_hex_digit(#[trigger] text[i]) by {
            assert(digit.ensures((text[i],), true));
        }
        if k@ < text.len() {
            assert(digit.ensures((text[k@],), false));
        }
        let run = text.take(k@);
        assert forall|i: int| 0 <= i < run.len() implies '\0' <= #[trigger] run[i] <= '\u{7f}' by {
            assert(is_hex_digit(text[i]));
        }
        is_ascii_chars_encode_utf8(run);
        assert(count == k@);
        if k@ < 4 && text.len() >= 4 {
            assert(text.take(4)[k@] == text[k@]);
        }
    }
    if count < 4 {
        return failure;
    }
    let ghost four = text.take(4);
    proof {
        assert(text =~= four + text.skip(4));
        assert forall|i: int| 0 <= i < 4 implies is_hex_digit(#[trigger] four[i]) by {
            assert(four[i] == text[i]);
        }
        assert forall|i: int| 0 <= i < four.len() implies '\0' <= #[trigger] four[i]
            <= '\u{7f}' by {
            assert(is_hex_digit(four[i]));
        }
        is_ascii_chars_encode_utf8(four);
    }
    let (state, digits) = input.take_front(4, Ghost(four), Ghost(text.skip(4)));
    match parse_hex(digits) {
        Some(v) => match std::char::from_u32(v) {
            Some(c) => state.finish(c),
            None => failure,
        },
        None => failure,
    }
}

/// What `unescape_us` makes of `input`, whose text begins with `a` opening
/// braces, as many as there are, followed by `b` characters other than a
/// closing brace, as many as there are.
pub open spec fn braced_outcome<'i>(
    input: ParseState<'i>,
    a: int,
    b: int,
    r: ParseResult<'i, char>,
) -> bool {
    let text = input.text();
    let digits = trimmed(text.subrange(a, a + b));
    let lo = (input.start_offset + utf8_len(text.take(a))) as usize;
    let hi = (input.start_offset + utf8_len(text.take(a + b))) as usize;
    if a == 0 {
        r == ParseResult::<'i, char>::Stop(
            StopBecause::MissingString { message: "BRACE", position: input.start_offset },
        )
    } else if a + b == text.len() {
        r == ParseResult::<'i, char>::Stop(
            StopBecause::MissingString { message: "BRACE", position: lo },
        )
    } else if utf8_len(digits) > 6 {
        r == ParseResult::<'i, char>::Stop(
            StopBecause::Custom(
                CustomError {
                    message: "Escape characters must be 0-6 characters",
                    start: lo,
                    end: hi,
                },
            ),
        )
    } else if !all_hex(digits) {
        r == ParseResult::<'i, char>::Stop(
            StopBecause::Custom(
                CustomError { message: "Escape characters must in 0-9a-fA-F", start: lo, end: hi },
            ),
        )
    } else if !is_scalar(hex_number(digits) as u32) {
        r == ParseResult::<'i, char>::Stop(
            StopBecause::Custom(
                CustomError { message: "Characters must not beyond U+10FFFF", start: lo, end: hi },
            ),
        )
    } else {
        &&& r matches ParseResult::Pending(state, c)
        &&& c as u32 == hex_number(digits)
        &&& state.advanced_by(input, text.take(a + b + 1))
        &&& state.wf()
    }
}

/// The text begins with `a` opening braces, as many as there are, followed
/// by `b` characters other than a closing brace, as many as there are.
pub open spec fn braced_split(text: Seq<char>, a: int, b: int) -> bool {
    &&& char_run(text, '{', a)
    &&& char_gap(text.skip(a), '}', b)
}

/// `r` is what `unescape_us` makes of `input`.
pub open spec fn braced_parsed<'i>(input: ParseState<'i>, r: ParseResult<'i, char>) -> bool {
    exists|a: int, b: int| #[trigger] braced_split(input.text(), a, b) && braced_outcome(
        input,
        a,
        b,
        r,
    )
}

/// Braces with nothing between them stand for the character zero.
pub proof fn lemma_empty_braces_are_zero<'i>(input: ParseState<'i>, r: ParseResult<'i, char>)
    requires
        input.text().len() >= 2,
        input.text()[0] == '{',
        input.text()[1] == '}',
        braced_parsed(input, r),
    ensures
        r matches ParseResult::Pending(state, c) && c as u32 == 0 && state.advanced_by(
            input,
            input.text().take(2),
        ),
{
    let text = input.text();
    let (a, b) = choose|a: int, b: int| #[trigger]
        braced_split(text, a, b) && braced_outcome(input, a, b, r);
    assert(a == 1);
    assert(text.skip(1)[0] == '}');
    assert(b == 0);
    assert(text.subrange(1, 1) =~= Seq::<char>::empty());
    assert(trimmed(Seq::<char>::empty()) =~= Seq::<char>::empty());
}

/// Reads the braces of an escape such as `\u{1F600}`, whose head has been
/// passed already, and the hexadecimal digits between them, of which there
/// may be none and at most six. Whitespace around the digits is ignored.
pub fn unescape_us<'i>(input: ParseState<'i>) -> (r: ParseResult<'i, char>)
    requires
        input.wf(),
    ensures
        braced_parsed(input, r),
{
    let ghost text = input.text();
    let is_open = |c: char| -> (b: bool)
        ensures
            b == (c == '{'),
        { c == '{' };
    let is_close = |c: char| -> (b: bool)
        ensures
            b == (c == '}'),
        { c == '}' };
    let (start, braces) = match input.match_str_if(is_open, "BRACE") {
        ParseResult::Pending(s, v) => (s, v),
        ParseResult::Stop(reason) => {
            proof {
                let r = ParseResult::<'i, char>::Stop(reason);
                assert(text.skip(0) =~= text);
                super::string::lemma_gap_exists(text, '}');
                let b = choose|b: int| char_gap(text, '}', b);
                assert(braced_split(text, 0, b));
                assert(braced_outcome(input, 0, b, r));
            }
            return ParseResult::Stop(reason);
        },
    };
    let ghost a = braces@.len() as int;
    let ghost t1 = start.text();
    proof {
        assert((braces@ + t1).skip(a) =~= t1);
        assert forall|i: int| 0 <= i < a implies #[trigger] text[i] == '{' by {
            assert(is_open.ensures((text[i],), true));
        }
        if a < text.len() {
            assert(is_open.ensures((text[a],), false));
        }
        assert(char_run(text, '{', a));
        assert(text.take(a) =~= braces@);
    }
    let (state, body) = match start.match_str_until(is_close, "BRACE") {
        ParseResult::Pending(s, v) => (s, v),
        ParseResult::Stop(reason) => {
            proof {
                let r = ParseResult::<'i, char>::Stop(reason);
                let b = t1.len() as int;
                assert forall|i: int| 0 <= i < b implies #[trigger] t1[i] != '}' by {
                    assert(is_close.ensures((t1[i],), false));
                }
                assert(braced_split(text, a, b));
                assert(braced_outcome(input, a, b, r));
            }
            return ParseResult::Stop(reason);
        },
    };
    let ghost b = body@.len() as int;
    let ghost t2 = state.text();
    proof {
        assert((body@ + t2).skip(b) =~= t2);
        assert forall|i: int| 0 <= i < b implies #[trigger] t1[i] != '}' by {
            assert(is_close.ensures((t1[i],), false));
        }
        assert(is_close.ensures((t1[b],), true));
        assert(char_gap(t1, '}', b));
        assert(braced_split(text, a, b));
        assert(t2[0] == t1[b]);
        assert(text.subrange(a, a + b) =~= body@);
        assert(text.take(a + b) =~= braces@ + body@);
        lemma_utf8_len_concat(braces@, body@);
        state.lemma_advanced_twice(start, input, braces@, body@);
    }
    let digits = trim_text(body);
    let r = if byte_len(digits) > 6 {
        ParseResult::Stop(
            StopBecause::Custom(
                CustomError {
                    message: "Escape characters must be 0-6 characters",
                    start: start.start_offset,
                    end: state.start_offset,
                },
            ),
        )
    } else {
        proof {
            crate::text::lemma_utf8_len_bounds(digits@);
        }
        match parse_hex(digits) {
            None => ParseResult::Stop(
                StopBecause::Custom(
                    CustomError {
                        message: "Escape characters must in 0-9a-fA-F",
                        start: start.start_offset,
                        end: state.start_offset,
                    },
                ),
            ),
            Some(v) => match std::char::from_u32(v) {
                Some(c) => {
                    let last = state.take_char('}');
                    proof {
                        last.lemma_advanced_twice(state, input, braces@ + body@, seq!['}']);
                        assert(text.take(a + b + 1) =~= braces@ + body@ + seq!['}']);
                    }
                    last.finish(c)
                },
                None => ParseResult::Stop(
                    StopBecause::Custom(
                        CustomError {
                            message: "Characters must not beyond U+10FFFF",
                            start: start.start_offset,
                            end: state.start_offset,
                        },
                    ),
                ),
            },
        }
    };
    proof {
        assert(braced_outcome(input, a, b, r));
    }
    r
}

/// A Unicode escape: the head that introduces it, and whether its digits
/// stand in braces.
#[derive(Copy, Clone, Debug)]
pub struct UnicodeUnescape {
    /// What introduces the escape, such as `\u`.
    pub head: &'static str,
    /// Whether the digits stand in braces.
    pub brace: bool,
}

impl UnicodeUnescape {
    /// Matches the head of the escape and then its digits: in braces where
    /// `brace` is set, and four of them otherwise.
    pub fn call_once<'i>(self, input: ParseState<'i>) -> (r: ParseResult<'i, char>)
        requires
            input.wf(),
            input.start_offset + utf8_len(self.head@) + 4 <= usize::MAX,
        ensures
            match input.match_prefix(self.head@) {
                None => r == ParseResult::<'i, char>::Stop(
                    StopBecause::MissingString {
                        message: self.head,
                        position: input.start_offset,
                    },
                ),
                Some(rest) => exists|state: ParseState<'i>| #[trigger]
                    state.advanced_by(input, self.head@) && state.wf() && if self.brace {
                        braced_parsed(state, r)
                    } else {
                        fixed_parsed(state, r)
                    },
            },
    {
        proof {
            input.lemma_prefix_bytes(self.head@);
        }
        match input.match_str(self.head) {
            ParseResult::Pending(state, _) => {
                if self.brace {
                    unescape_us(state)
                } else {
                    unescape_u(state)
                }
            },
            ParseResult::Stop(reason) => ParseResult::Stop(reason),
        }
    }
}

} // verus!
