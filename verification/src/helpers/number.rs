//! Decimal numbers.

use crate::results::{CustomError, ParseResult, StopBecause};
use crate::states::ParseState;
use crate::text::{char_width, lemma_take_len, lemma_take_step, scan_while, utf8_len};
use vstd::prelude::*;
use vstd::std_specs::iter::IteratorSpec;
use vstd::string::*;
use vstd::utf8::*;

verus! {

/// `c` is one of `0`-`9`.
pub open spec fn is_dec_digit(c: char) -> bool {
    '0' <= c <= '9'
}

/// Where a decimal literal ends that is read from index `i` of `text` on:
/// digits belong to it, and so does one decimal point, the first, unless
/// one has been `seen` already.
pub open spec fn decimal_end(text: Seq<char>, i: int, seen: bool) -> int
    decreases text.len() - i,
{
    if i < 0 || i >= text.len() {
        i
    } else if text[i] == '.' && !seen {
        decimal_end(text, i + 1, true)
    } else if is_dec_digit(text[i]) {
        decimal_end(text, i + 1, seen)
    } else {
        i
    }
}

/// The number written with the decimal digits `digits`.
pub open spec fn dec_number(digits: Seq<char>) -> nat
    decreases digits.len(),
{
    if digits.len() == 0 {
        0
    } else {
        (dec_number(digits.drop_last()) * 10 + (digits.last() as int - 0x30)) as nat
    }
}

/// The run of decimal digits at the front of `text` is `k` characters
/// long.
pub open spec fn digit_run(text: Seq<char>, k: int) -> bool {
    &&& 0 <= k <= text.len()
    &&& forall|i: int| 0 <= i < k ==> is_dec_digit(#[trigger] text[i])
    &&& k < text.len() ==> !is_dec_digit(text[k])
}

/// Matches a decimal literal: digits with at most one decimal point among
/// them, at the front, in the middle or at the end. The value is the text
/// of the literal.
pub fn dec_str<'i>(input: ParseState<'i>) -> (r: ParseResult<'i, &'i str>)
    requires
        input.wf(),
    ensures
        match r {
            ParseResult::Pending(state, view) => {
                &&& decimal_end(input.text(), 0, false) == view@.len()
                &&& view@.len() > 0
                &&& view@ == input.text().take(view@.len() as int)
                &&& state.advanced_by(input, view@)
                &&& state.wf()
            },
            ParseResult::Stop(reason) => {
                &&& decimal_end(input.text(), 0, false) == 0
                &&& reason == StopBecause::MissingString {
                    message: "DECIMAL_LITERAL",
                    position: input.start_offset,
                }
            },
        },
{
    broadcast use vstd::string::group_string_axioms;

    let ghost text = input.text();
    let total: usize = crate::text::byte_len(input.residual);
    let mut it = input.residual.chars();
    let mut offset: usize = 0;
    let mut first_dot = true;
    let ghost mut i: int = 0;
    proof {
        assert(text.take(0) =~= Seq::<char>::empty());
        assert(text.skip(0) =~= text);
    }
    loop
        invariant_except_break
            it.remaining() == text.skip(i),
            decimal_end(text, i, !first_dot) == decimal_end(text, 0, false),
        invariant
            text == input.text(),
            total == utf8_len(text),
            0 <= i <= text.len(),
            offset == utf8_len(text.take(i)),
        ensures
            decimal_end(text, 0, false) == i,
        decreases text.len() - i,
    {
        match it.next() {
            Some(c) => {
                assert(c == text[i]);
                if c == '.' && first_dot {
                    first_dot = false;
                } else if c >= '0' && c <= '9' {
                } else {
                    break ;
                }
                proof {
                    lemma_take_step(text, i);
                    assert(text.skip(i).drop_first() =~= text.skip(i + 1));
                    i = i + 1;
                }
                offset += char_width(c);
            },
            None => {
                break ;
            },
        }
    }
    proof {
        lemma_take_len(text, i);
        assert(text =~= text.take(i) + text.skip(i));
    }
    if offset == 0 {
        return ParseResult::Stop(
            StopBecause::MissingString {
                message: "DECIMAL_LITERAL",
                position: input.start_offset,
            },
        );
    }
    let ghost head = text.take(i);
    let ghost tail = text.skip(i);
    let (state, view) = input.take_front(offset, Ghost(head), Ghost(tail));
    state.finish(view)
}

/// Matches a run of decimal digits, which must not be empty.
pub fn match_dec<'i>(state: ParseState<'i>) -> (r: ParseResult<'i, &'i str>)
    requires
        state.wf(),
    ensures
        match r {
            ParseResult::Pending(last, view) => {
                &&& digit_run(state.text(), view@.len() as int)
                &&& view@.len() > 0
                &&& view@ == state.text().take(view@.len() as int)
                &&& last.advanced_by(state, view@)
                &&& last.wf()
            },
            ParseResult::Stop(reason) => {
                &&& digit_run(state.text(), 0)
                &&& reason == StopBecause::MissingCharacterSet {
                    expected: "decimal digits",
                    position: state.start_offset,
                }
            },
        },
{
    let ghost text = state.text();
    let digit = |c: char| -> (b: bool)
        ensures
            b == is_dec_digit(c),
        { c >= '0' && c <= '9' };
    let (offset, k) = scan_while(state.residual, &digit);
    proof {
        assert forall|i: int| 0 <= i < k@ implies is_dec_digit(#[trigger] text[i]) by {
            assert(digit.ensures((text[i],), true));
        }
        if k@ < text.len() {
            assert(digit.ensures((text[k@],), false));
        }
        lemma_take_len(text, k@);
        assert(text =~= text.take(k@) + text.skip(k@));
    }
    if offset == 0 {
        return ParseResult::Stop(
            StopBecause::MissingCharacterSet {
                expected: "decimal digits",
                position: state.start_offset,
            },
        );
    }
    let ghost head = text.take(k@);
    let ghost tail = text.skip(k@);
    let (last, view) = state.take_front(offset, Ghost(head), Ghost(tail));
    last.finish(view)
}

/// The number written with the decimal digits of `digits`, or `None` where
/// it is too large for 128 bits.
pub fn digits_to_u128(digits: &str) -> (r: Option<u128>)
    requires
        forall|i: int| 0 <= i < digits@.len() ==> is_dec_digit(#[trigger] digits@[i]),
    ensures
        r == (if dec_number(digits@) <= u128::MAX {
            Some(dec_number(digits@) as u128)
        } else {
            None
        }),
{
    broadcast use vstd::string::group_string_axioms;

    let ghost text = digits@;
    let mut it = digits.chars();
    let mut value: u128 = 0;
    let ghost mut i: int = 0;
    proof {
        assert(text.take(0) =~= Seq::<char>::empty());
        assert(text.skip(0) =~= text);
    }
    loop
        invariant_except_break
            it.remaining() == text.skip(i),
        invariant
            text == digits@,
            forall|m: int| 0 <= m < text.len() ==> is_dec_digit(#[trigger] text[m]),
            0 <= i <= text.len(),
            value == dec_number(text.take(i)),
        ensures
            i == text.len(),
        decreases text.len() - i,
    {
        match it.next() {
            Some(c) => {
                proof {
                    assert(c == text[i]);
                    assert(is_dec_digit(text[i]));
                    assert(text.skip(i).drop_first() =~= text.skip(i + 1));
                    assert(text.take(i + 1).drop_last() =~= text.take(i));
                    assert(text.take(i + 1).last() == c);
                }
                let d: u128 = (c as u32 - 0x30) as u128;
                if value > (u128::MAX - d) / 10 {
                    proof {
                        lemma_dec_number_grows(text, i + 1);
                    }
                    return None;
                }
                value = value * 10 + d;
                proof {
                    i = i + 1;
                }
            },
            None => {
                break ;
            },
        }
    }
    proof {
        assert(text.take(i) =~= text);
    }
    Some(value)
}

/// A number is at least the number written with its first `k` digits.
pub proof fn lemma_dec_number_grows(text: Seq<char>, k: int)
    requires
        0 <= k <= text.len(),
        forall|m: int| 0 <= m < text.len() ==> is_dec_digit(#[trigger] text[m]),
    ensures
        dec_number(text.take(k)) <= dec_number(text),
    decreases text.len() - k,
{
    if k == text.len() {
        assert(text.take(k) =~= text);
    } else {
        lemma_dec_number_grows(text, k + 1);
        assert(text.take(k + 1).drop_last() =~= text.take(k));
        assert(is_dec_digit(text[k]));
        assert(text.take(k + 1).last() == text[k]);
    }
}

/// What converting the digits `digits`, read between `input` and `state`,
/// gives: their number where it is at most `max`, and else a failure that
/// covers the digits.
pub open spec fn number_outcome(
    input_offset: usize,
    end_offset: usize,
    digits: Seq<char>,
    max: nat,
) -> Option<StopBecause> {
    if dec_number(digits) <= max {
        None
    } else {
        Some(
            StopBecause::Custom(
                CustomError {
                    message: "Invalid integer literal",
                    start: input_offset,
                    end: end_offset,
                },
            ),
        )
    }
}

/// Matches a run of decimal digits and gives their number.
pub fn dec_u128<'i>(state: ParseState<'i>) -> (r: ParseResult<'i, u128>)
    requires
        state.wf(),
    ensures
        match r {
            ParseResult::Pending(last, value) => exists|k: int|
                {
                    &&& #[trigger] digit_run(state.text(), k)
                    &&& k > 0
                    &&& value == dec_number(state.text().take(k))
                    &&& last.advanced_by(state, state.text().take(k))
                    &&& last.wf()
                },
            ParseResult::Stop(reason) => exists|k: int|
                {
                    &&& #[trigger] digit_run(state.text(), k)
                    &&& if k == 0 {
                        reason == StopBecause::MissingCharacterSet {
                            expected: "decimal digits",
                            position: state.start_offset,
                        }
                    } else {
                        Some(reason) == number_outcome(
                            state.start_offset,
                            (state.start_offset + utf8_len(state.text().take(k))) as usize,
                            state.text().take(k),
                            u128::MAX as nat,
                        )
                    }
                },
        },
{
    let (last, digits) = match match_dec(state) {
        ParseResult::Pending(s, v) => (s, v),
        ParseResult::Stop(reason) => {
            assert(digit_run(state.text(), 0));
            return ParseResult::Stop(reason);
        },
    };
    assert(digit_run(state.text(), digits@.len() as int));
    match digits_to_u128(digits) {
        Some(value) => last.finish(value),
        None => ParseResult::Stop(
            StopBecause::Custom(
                CustomError {
                    message: "Invalid integer literal",
                    start: state.start_offset,
                    end: last.start_offset,
                },
            ),
        ),
    }
}

/// Matches a run of decimal digits and gives their number.
pub fn dec_usize<'i>(state: ParseState<'i>) -> (r: ParseResult<'i, usize>)
    requires
        state.wf(),
    ensures
        match r {
            ParseResult::Pending(last, value) => exists|k: int|
                {
                    &&& #[trigger] digit_run(state.text(), k)
                    &&& k > 0
                    &&& value == dec_number(state.text().take(k))
                    &&& last.advanced_by(state, state.text().take(k))
                    &&& last.wf()
                },
            ParseResult::Stop(reason) => exists|k: int|
                {
                    &&& #[trigger] digit_run(state.text(), k)
                    &&& if k == 0 {
                        reason == StopBecause::MissingCharacterSet {
                            expected: "decimal digits",
                            position: state.start_offset,
                        }
                    } else {
                        Some(reason) == number_outcome(
                            state.start_offset,
                            (state.start_offset + utf8_len(state.text().take(k))) as usize,
                            state.text().take(k),
                            usize::MAX as nat,
                        )
                    }
                },
        },
{
    let (last, digits) = match match_dec(state) {
        ParseResult::Pending(s, v) => (s, v),
        ParseResult::Stop(reason) => {
            assert(digit_run(state.text(), 0));
            return ParseResult::Stop(reason);
        },
    };
    assert(digit_run(state.text(), digits@.len() as int));
    let failure = ParseResult::Stop(
        StopBecause::Custom(
            CustomError {
                message: "Invalid integer literal",
                start: state.start_offset,
                end: last.start_offset,
            },
        ),
    );
    match digits_to_u128(digits) {
        Some(value) => {
            if value <= usize::MAX as u128 {
                last.finish(value as usize)
            } else {
                failure
            }
        },
        None => failure,
    }
}

} // verus!
