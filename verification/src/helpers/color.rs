//! Colours written as hexadecimal digits.

use crate::results::{CustomError, ParseResult, StopBecause};
use crate::states::ParseState;
use crate::text::{lemma_utf8_len_concat, scan_while, utf8_len};
use vstd::prelude::*;
use vstd::string::*;
use vstd::utf8::*;

verus! {

/// `c` is one of `0`-`9`, `a`-`f`, `A`-`F`.
pub open spec fn is_hex_digit(c: char) -> bool {
    ('0' <= c <= '9') || ('a' <= c <= 'f') || ('A' <= c <= 'F')
}

/// The number that the hexadecimal digit `c` stands for.
pub open spec fn hex_value(c: char) -> int {
    if '0' <= c <= '9' {
        c as int - 0x30
    } else if 'a' <= c <= 'f' {
        c as int - 0x61 + 10
    } else {
        c as int - 0x41 + 10
    }
}

/// The byte written with the two hexadecimal digits `high` and `low`.
pub open spec fn hex_pair(high: char, low: char) -> u8 {
    (hex_value(high) * 16 + hex_value(low)) as u8
}

/// The run of hexadecimal digits at the front of `text` is `k` characters
/// long.
pub open spec fn hex_run(text: Seq<char>, k: int) -> bool {
    &&& 0 <= k <= text.len()
    &&& forall|i: int| 0 <= i < k ==> is_hex_digit(#[trigger] text[i])
    &&& k < text.len() ==> !is_hex_digit(text[k])
}

/// A colour can be written with `n` digits.
pub open spec fn is_color_length(n: int) -> bool {
    n == 1 || n == 2 || n == 3 || n == 4 || n == 6 || n == 8
}

/// The colour, as red, green, blue and alpha, that the digits `d` stand
/// for. One digit or two are a grey; three or four digits are one digit for
/// each channel, written twice; six or eight digits are two for each
/// channel. Where no alpha is written, it is 255.
pub open spec fn color_of(d: Seq<char>) -> (u8, u8, u8, u8) {
    if d.len() == 1 {
        let g = hex_pair(d[0], d[0]);
        (g, g, g, 255u8)
    } else if d.len() == 2 {
        let g = hex_pair(d[0], d[1]);
        (g, g, g, 255u8)
    } else if d.len() == 3 {
        (hex_pair(d[0], d[0]), hex_pair(d[1], d[1]), hex_pair(d[2], d[2]), 255u8)
    } else if d.len() == 4 {
        (hex_pair(d[0], d[0]), hex_pair(d[1], d[1]), hex_pair(d[2], d[2]), hex_pair(d[3], d[3]))
    } else if d.len() == 6 {
        (hex_pair(d[0], d[1]), hex_pair(d[2], d[3]), hex_pair(d[4], d[5]), 255u8)
    } else {
        (hex_pair(d[0], d[1]), hex_pair(d[2], d[3]), hex_pair(d[4], d[5]), hex_pair(d[6], d[7]))
    }
}

/// What `hex_color` makes of `input`, whose text is `prefix` followed by
/// `rest`, where `rest` begins with exactly `k` hexadecimal digits.
pub open spec fn color_outcome<'i>(
    input: ParseState<'i>,
    prefix: Seq<char>,
    rest: Seq<char>,
    k: int,
    r: ParseResult<'i, (u8, u8, u8, u8)>,
) -> bool {
    if is_color_length(k) {
        &&& r matches ParseResult::Pending(state, color)
        &&& color == color_of(rest.take(k))
        &&& state.advanced_by(input, prefix + rest.take(k))
        &&& state.wf()
    } else {
        r == ParseResult::<'i, (u8, u8, u8, u8)>::Stop(
            StopBecause::Custom(
                CustomError {
                    message: "Color format wrong, except 1,2,3,4,6,8",
                    start: (input.start_offset + utf8_len(prefix)) as usize,
                    end: (input.start_offset + utf8_len(prefix) + k) as usize,
                },
            ),
        )
    }
}

/// `r` is what `hex_color` makes of `input`, whose text is `prefix`
/// followed by `rest`.
pub open spec fn color_parsed<'i>(
    input: ParseState<'i>,
    prefix: Seq<char>,
    rest: Seq<char>,
    r: ParseResult<'i, (u8, u8, u8, u8)>,
) -> bool {
    exists|k: int| #[trigger] hex_run(rest, k) && color_outcome(input, prefix, rest, k, r)
}

/// Whether `c` is a hexadecimal digit.
pub fn is_ascii_hex_digit(c: char) -> (b: bool)
    ensures
        b == is_hex_digit(c),
{
    (c >= '0' && c <= '9') || (c >= 'a' && c <= 'f') || (c >= 'A' && c <= 'F')
}

/// The number that the hexadecimal digit with the ASCII code `byte` stands
/// for.
pub fn byte_to_u8(byte: u8) -> (r: u8)
    requires
        is_hex_digit(byte as char),
    ensures
        r == hex_value(byte as char),
        r < 16,
{
    if byte >= 0x30 && byte <= 0x39 {
        byte - 0x30
    } else if byte >= 0x61 && byte <= 0x66 {
        byte - 0x61 + 10
    } else {
        byte - 0x41 + 10
    }
}

/// The byte written with the two hexadecimal digits whose ASCII codes are
/// `high` and `low`.
pub fn byte2_to_u8(high: u8, low: u8) -> (r: u8)
    requires
        is_hex_digit(high as char),
        is_hex_digit(low as char),
    ensures
        r == hex_pair(high as char, low as char),
{
    let h = byte_to_u8(high);
    let l = byte_to_u8(low);
    assert((h << 4 | l) == h * 16 + l) by (bit_vector)
        requires
            h < 16,
            l < 16,
    ;
    h << 4 | l
}

/// Parses a colour: the prefix `start`, unless it is empty, and then as
/// many hexadecimal digits as follow.
pub fn hex_color<'a>(input: ParseState<'a>, start: &'static str) -> (r: ParseResult<
    'a,
    (u8, u8, u8, u8),
>)
    requires
        input.wf(),
    ensures
        match input.match_prefix(start@) {
            Some(rest) => color_parsed(input, start@, rest, r),
            None => r == ParseResult::<'a, (u8, u8, u8, u8)>::Stop(
                StopBecause::MissingString { message: start, position: input.start_offset },
            ),
        },
{
    let state = if start.is_empty() {
        proof {
            assert(input.text() =~= start@ + input.text());
            assert(input.text().skip(0) =~= input.text());
            assert(input.text().take(0) =~= start@);
            assert(utf8_len(start@) == 0);
        }
        input
    } else {
        match input.match_str(start) {
            ParseResult::Pending(state, _) => {
                proof {
                    input.lemma_prefix_bytes(start@);
                    assert((start@ + state.text()).skip(start@.len() as int) =~= state.text());
                }
                state
            },
            ParseResult::Stop(reason) => {
                proof {
                    input.lemma_prefix_bytes(start@);
                }
                return ParseResult::Stop(reason);
            },
        }
    };
    let digit = |c: char| -> (b: bool)
        ensures
            b == is_hex_digit(c),
        { is_ascii_hex_digit(c) };
    let (count, k) = scan_while(state.residual, &digit);
    let ghost rest = state.text();
    let ghost digits = rest.take(k@);
    proof {
        assert forall|i: int| 0 <= i < k@ implies is_hex_digit(#[trigger] rest[i]) by {
            assert(digit.ensures((rest[i],), true));
        }
        if k@ < rest.len() {
            assert(digit.ensures((rest[k@],), false));
        }
        assert(rest =~= digits + rest.skip(k@));
        assert forall|i: int| 0 <= i < digits.len() implies '\0' <= #[trigger] digits[i]
            <= '\u{7f}' by {
            assert(is_hex_digit(rest[i]));
        }
        is_ascii_chars_encode_utf8(digits);
        lemma_utf8_len_concat(digits, rest.skip(k@));
    }
    if !(count == 1 || count == 2 || count == 3 || count == 4 || count == 6 || count == 8) {
        let r = ParseResult::Stop(
            StopBecause::Custom(
                CustomError {
                    message: "Color format wrong, except 1,2,3,4,6,8",
                    start: state.start_offset,
                    end: state.start_offset + count,
                },
            ),
        );
        assert(hex_run(rest, k@) && color_outcome(input, start@, rest, k@, r));
        return r;
    }
    let (last, hex) = state.take_front(count, Ghost(digits), Ghost(rest.skip(k@)));
    let b = hex.as_bytes();
    proof {
        last.lemma_advanced_twice(state, input, start@, digits);
        assert forall|i: int| 0 <= i < k@ implies b@[i] as char == digits[i] by {
            assert(is_hex_digit(digits[i]));
            assert(digits[i] as u8 == b@[i]);
        }
    }
    let color = if count == 1 {
        let c = byte2_to_u8(b[0], b[0]);
        (c, c, c, 255)
    } else if count == 2 {
        let c = byte2_to_u8(b[0], b[1]);
        (c, c, c, 255)
    } else if count == 3 {
        (byte2_to_u8(b[0], b[0]), byte2_to_u8(b[1], b[1]), byte2_to_u8(b[2], b[2]), 255)
    } else if count == 4 {
        (
            byte2_to_u8(b[0], b[0]),
            byte2_to_u8(b[1], b[1]),
            byte2_to_u8(b[2], b[2]),
            byte2_to_u8(b[3], b[3]),
        )
    } else if count == 6 {
        (byte2_to_u8(b[0], b[1]), byte2_to_u8(b[2], b[3]), byte2_to_u8(b[4], b[5]), 255)
    } else {
        (
            byte2_to_u8(b[0], b[1]),
            byte2_to_u8(b[2], b[3]),
            byte2_to_u8(b[4], b[5]),
            byte2_to_u8(b[6], b[7]),
        )
    };
    let r = last.finish(color);
    assert(hex_run(rest, k@) && color_outcome(input, start@, rest, k@, r));
    r
}

} // verus!
