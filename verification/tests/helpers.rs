use pex::helpers::{
    ascii_whitespace, dec_str, dec_u128, dec_usize, hex_color, match_dec, quotation_pair,
    quotation_pair_escaped, quotation_pair_nested, surround_pair, surround_pair_with_escaper,
    unescape_u, unescape_us, whitespace, CommentBlock, CommentLine, UnicodeUnescape,
};
use pex::{
    CustomError, NamedPattern, ParseResult, ParseState, StopBecause, SurroundPairPattern,
};

const COLOR_MESSAGE: &str = "Color format wrong, except 1,2,3,4,6,8";

fn color(text: &str) -> (u8, u8, u8, u8) {
    hex_color(ParseState::new(text), "").as_result().unwrap().1
}

fn color_error(text: &str) -> StopBecause {
    hex_color(ParseState::new(text), "").as_result().unwrap_err()
}

#[test]
fn hex_color_table() {
    assert_eq!(color("A"), (0xAA, 0xAA, 0xAA, 255));
    assert_eq!(color("AB"), (0xAB, 0xAB, 0xAB, 255));
    assert_eq!(color("ABC"), (0xAA, 0xBB, 0xCC, 255));
    assert_eq!(color("ABCD"), (0xAA, 0xBB, 0xCC, 0xDD));
    assert_eq!(color("ABCDEF"), (0xAB, 0xCD, 0xEF, 255));
    assert_eq!(color("ABCDEF01"), (0xAB, 0xCD, 0xEF, 0x01));
    assert_eq!(color("abcdef98"), (0xAB, 0xCD, 0xEF, 0x98));
    assert_eq!(color("0"), (0, 0, 0, 255));
    assert_eq!(color("7f"), (0x7F, 0x7F, 0x7F, 255));
}

#[test]
fn hex_color_stops_at_the_first_other_character() {
    let (state, value) = hex_color(ParseState::new("ABCDEFGH"), "").as_result().unwrap();
    assert_eq!(value, (0xAB, 0xCD, 0xEF, 255));
    assert_eq!(state.residual, "GH");
    assert_eq!(state.start_offset, 6);
}

#[test]
fn hex_color_refuses_other_digit_counts() {
    assert_eq!(
        color_error(""),
        StopBecause::Custom(CustomError { message: COLOR_MESSAGE, start: 0, end: 0 })
    );
    assert_eq!(
        color_error("xyz"),
        StopBecause::Custom(CustomError { message: COLOR_MESSAGE, start: 0, end: 0 })
    );
    assert_eq!(
        color_error("12345"),
        StopBecause::Custom(CustomError { message: COLOR_MESSAGE, start: 0, end: 5 })
    );
    assert_eq!(
        color_error("1234567"),
        StopBecause::Custom(CustomError { message: COLOR_MESSAGE, start: 0, end: 7 })
    );
    assert_eq!(
        color_error("123456789"),
        StopBecause::Custom(CustomError { message: COLOR_MESSAGE, start: 0, end: 9 })
    );
    assert_eq!(
        color_error("0123456789abcdef"),
        StopBecause::Custom(CustomError { message: COLOR_MESSAGE, start: 0, end: 16 })
    );
}

#[test]
fn hex_color_with_a_prefix() {
    let state = ParseState::new("#1a2b3c;").with_start_offset(10);
    let (next, value) = hex_color(state, "#").as_result().unwrap();
    assert_eq!(value, (0x1A, 0x2B, 0x3C, 255));
    assert_eq!(next.residual, ";");
    assert_eq!(next.start_offset, 17);
    assert_eq!(
        hex_color(ParseState::new("1a2b3c"), "#"),
        ParseResult::Stop(StopBecause::MissingString { message: "#", position: 0 })
    );
    assert_eq!(
        hex_color(state, "#").map_inner(|_| ()),
        ParseResult::Pending(next, ())
    );
    assert_eq!(
        hex_color(ParseState::new("#12345").with_start_offset(2), "#"),
        ParseResult::Stop(StopBecause::Custom(CustomError {
            message: COLOR_MESSAGE,
            start: 3,
            end: 8
        }))
    );
}

#[test]
fn surround_pair_with_backticks() {
    let quoted_str = SurroundPairPattern {
        lhs: NamedPattern::new('`', "STRING_LHS"),
        rhs: NamedPattern::new('`', "STRING_RHS"),
    };
    let test =
        surround_pair(ParseState::new(r#"`12{x}34`rest text"#), quoted_str).as_result().unwrap().1;
    assert_eq!(test.head.as_string(), "`");
    assert_eq!(test.body.as_string(), "12{x}34");
    assert_eq!(test.tail.as_string(), "`");
    assert_eq!(test.head.as_range(), 0..1);
    assert_eq!(test.tail.as_range(), 8..9);
}

#[test]
fn surround_pair_with_triple_quotes() {
    let raw_str = SurroundPairPattern::new(
        NamedPattern::new("\"\"\"", "STRING_RAW_LHS"),
        NamedPattern::new("\"\"\"", "STRING_RAW_RHS"),
    );
    let state = ParseState::new(r#""""1234"""rest text"#);
    let (next, paired) = surround_pair(state, raw_str).as_result().unwrap();
    assert_eq!(paired.head.as_string(), "\"\"\"");
    assert_eq!(paired.body.as_string(), "1234");
    assert_eq!(paired.tail.as_string(), "\"\"\"");
    assert_eq!(next.residual, "rest text");
    assert_eq!(next.start_offset, 10);
}

#[test]
fn surround_pair_parts_rebuild_the_consumed_span() {
    let input = "<<héllo wörld>> and more";
    let pattern = SurroundPairPattern::new(
        NamedPattern::new("<<", "OPEN"),
        NamedPattern::new(">>", "CLOSE"),
    );
    let state = ParseState::new(input).with_start_offset(100);
    let (next, pair) = pattern.consume_state(state).as_result().unwrap();
    assert_eq!(pair.head.start_offset(), state.start_offset);
    assert_eq!(pair.head.end_offset(), pair.body.start_offset());
    assert_eq!(pair.body.end_offset(), pair.tail.start_offset());
    assert_eq!(pair.tail.end_offset(), next.start_offset);
    let consumed = &input[..next.start_offset - state.start_offset];
    let rebuilt = format!("{}{}{}", pair.head.as_str(), pair.body.as_str(), pair.tail.as_str());
    assert_eq!(rebuilt, consumed);
    assert_eq!(consumed, "<<héllo wörld>>");
    assert_eq!(next.away_from(state), 100..117);
}

#[test]
fn surround_pair_failures() {
    let pattern = SurroundPairPattern::new(
        NamedPattern::new("<<", "OPEN"),
        NamedPattern::new(">>", "CLOSE"),
    );
    assert_eq!(
        surround_pair(ParseState::new("x<<a>>"), pattern).as_result().unwrap_err(),
        StopBecause::MissingString { message: "OPEN", position: 0 }
    );
    assert_eq!(
        surround_pair(ParseState::new("<<abc>"), pattern).as_result().unwrap_err(),
        StopBecause::MissingString { message: "CLOSE", position: 6 }
    );
}

#[test]
fn escaped_quote_does_not_close_the_string() {
    let state = ParseState::new(r"'it\'s' rest");
    let (next, view) = surround_pair_with_escaper(state, '\'', '\\').as_result().unwrap();
    assert_eq!(view, r"'it\'s'");
    assert_eq!(next.residual, " rest");
    assert_eq!(next.start_offset, 7);
}

#[test]
fn escaper_takes_any_following_character() {
    let (next, view) =
        surround_pair_with_escaper(ParseState::new(r#""a\\"b""#), '"', '\\').as_result().unwrap();
    assert_eq!(view, r#""a\\""#);
    assert_eq!(next.residual, r#"b""#);
    let (_, view) =
        surround_pair_with_escaper(ParseState::new("|a^|b^^|c"), '|', '^').as_result().unwrap();
    assert_eq!(view, "|a^|b^^|");
    let (_, view) = surround_pair_with_escaper(ParseState::new("''"), '\'', '\\').as_result().unwrap();
    assert_eq!(view, "''");
}

#[test]
fn unclosed_quoted_strings_fail_at_the_end() {
    assert_eq!(
        surround_pair_with_escaper(ParseState::new("'abc"), '\'', '\\'),
        ParseResult::Stop(StopBecause::MissingCharacter { expected: '\'', position: 4 })
    );
    assert_eq!(
        surround_pair_with_escaper(ParseState::new(r"'abc\'"), '\'', '\\'),
        ParseResult::Stop(StopBecause::MissingCharacter { expected: '\'', position: 6 })
    );
    assert_eq!(
        surround_pair_with_escaper(ParseState::new(r"'abc\"), '\'', '\\'),
        ParseResult::Stop(StopBecause::MissingCharacter { expected: '\'', position: 5 })
    );
    assert_eq!(
        surround_pair_with_escaper(ParseState::new("abc'"), '\'', '\\'),
        ParseResult::Stop(StopBecause::MissingCharacter { expected: '\'', position: 0 })
    );
    assert_eq!(
        surround_pair_with_escaper(ParseState::new(""), '\'', '\\'),
        ParseResult::Stop(StopBecause::MissingCharacter { expected: '\'', position: 0 })
    );
}

#[test]
fn quotation_pair_escaped_uses_the_backslash() {
    let normal = ParseState::new(r#""hello""#);
    let escape = ParseState::new(r#""hello \" world""#);
    assert!(quotation_pair_escaped(normal, '"').is_success());
    assert_eq!(
        quotation_pair_escaped(escape, '"').as_result().unwrap().1,
        r#""hello \" world""#
    );
}

#[test]
fn quotation_pair_of_two_characters() {
    let (next, pair) =
        quotation_pair(ParseState::new("<<hello>> rest"), '<', '>').as_result().unwrap();
    assert_eq!(pair.head.as_string(), "<<");
    assert_eq!(pair.body.as_string(), "hello");
    assert_eq!(pair.tail.as_string(), ">>");
    assert_eq!(pair.head.as_range(), 0..2);
    assert_eq!(pair.body.as_range(), 2..7);
    assert_eq!(pair.tail.as_range(), 7..9);
    assert_eq!(next.residual, " rest");
    assert!(quotation_pair(ParseState::new("'hello'"), '\'', '\'').is_success());
    assert_eq!(
        quotation_pair(ParseState::new("hello>"), '<', '>'),
        ParseResult::Stop(StopBecause::MissingString { message: "QUOTATION_LHS", position: 0 })
    );
    assert_eq!(
        quotation_pair(ParseState::new("<hello"), '<', '>'),
        ParseResult::Stop(StopBecause::MissingString { message: "QUOTATION_RHS", position: 1 })
    );
}

#[test]
fn fenced_quotation() {
    let (next, pair) =
        quotation_pair_nested(ParseState::new("```a`b``c``` rest"), '`').as_result().unwrap();
    assert_eq!(pair.head.as_string(), "```");
    assert_eq!(pair.body.as_string(), "a`b``c");
    assert_eq!(pair.tail.as_string(), "```");
    assert_eq!(pair.head.as_range(), 0..3);
    assert_eq!(pair.body.as_range(), 3..9);
    assert_eq!(pair.tail.as_range(), 9..12);
    assert_eq!(next.residual, " rest");
    assert_eq!(next.start_offset, 12);
    let (next, pair) = quotation_pair_nested(ParseState::new("'a' b"), '\'').as_result().unwrap();
    assert_eq!(pair.body.as_string(), "a");
    assert_eq!(next.residual, " b");
}

#[test]
fn fence_of_two_is_an_empty_string() {
    let state = ParseState::new("''rest").with_start_offset(4);
    let (next, pair) = quotation_pair_nested(state, '\'').as_result().unwrap();
    assert_eq!(pair.head.as_string(), "''");
    assert_eq!(pair.body.as_string(), "");
    assert_eq!(pair.tail.as_string(), "''");
    assert_eq!(pair.head.start_offset(), 4);
    assert_eq!(pair.body.start_offset(), 5);
    assert_eq!(pair.tail.start_offset(), 5);
    assert_eq!(next.residual, "rest");
    assert_eq!(next.start_offset, 6);
}

#[test]
fn fence_failures() {
    assert_eq!(
        quotation_pair_nested(ParseState::new("abc"), '`'),
        ParseResult::Stop(StopBecause::MissingString { message: "QUOTE", position: 0 })
    );
    assert_eq!(
        quotation_pair_nested(ParseState::new("```abc``"), '`'),
        ParseResult::Stop(StopBecause::MissingCharacter { expected: '`', position: 3 })
    );
}

#[test]
fn comment_line_runs_to_the_end_of_the_line() {
    let test1 = ParseState::new("# comment hash\r text text");
    let test2 = ParseState::new("// comment slash\n 123456");
    let (next, pair) = CommentLine::new("#").call_once(test1).as_result().unwrap();
    assert_eq!(pair.body.as_string(), " comment hash");
    assert_eq!(pair.head.as_string(), "#");
    assert_eq!(pair.tail.as_string(), "");
    assert_eq!(pair.tail.start_offset(), 14);
    assert_eq!(next.residual, "\r text text");
    assert_eq!(
        CommentLine::new("//").call_once(test2).as_result().unwrap().1.body.as_string(),
        " comment slash"
    );
    let (end, pair) = CommentLine::new("#").call_once(ParseState::new("#last")).as_result().unwrap();
    assert_eq!(pair.body.as_string(), "last");
    assert!(end.is_empty());
    assert_eq!(
        CommentLine::new("#").call_once(ParseState::new("x#")),
        ParseResult::Stop(StopBecause::MissingString { message: "#", position: 0 })
    );
}

#[test]
fn comment_block_runs_to_the_first_tail() {
    let test1 = ParseState::new("(*  comment  *) 123456");
    let test2 = ParseState::new("/** comment **/ 123456");
    let block1 = CommentBlock { head: "(*", tail: "*)", nested: false };
    let block2 = CommentBlock { head: "/*", tail: "*/", nested: false };
    let (next, pair) = block1.call_once(test1).as_result().unwrap();
    assert_eq!(pair.body.as_string(), "  comment  ");
    assert_eq!(pair.head.as_range(), 0..2);
    assert_eq!(pair.body.as_range(), 2..13);
    assert_eq!(pair.tail.as_range(), 13..15);
    assert_eq!(next.residual, " 123456");
    assert_eq!(block2.call_once(test2).as_result().unwrap().1.body.as_string(), "* comment *");
    assert_eq!(
        block2.call_once(ParseState::new("/* a /* b */ c */")).as_result().unwrap().1.body.as_string(),
        " a /* b "
    );
    assert_eq!(
        block2.call_once(ParseState::new("/* open")),
        ParseResult::Stop(StopBecause::MissingString { message: "*/", position: 2 })
    );
    assert_eq!(
        block2.call_once(ParseState::new("open */")),
        ParseResult::Stop(StopBecause::MissingString { message: "/*", position: 0 })
    );
}

#[test]
fn comment_matchers_on_the_cursor() {
    let state = ParseState::new("// note\nnext");
    let (next, line) = state.match_comment_line("//").as_result().unwrap();
    assert_eq!(line, "// note");
    assert_eq!(next.residual, "\nnext");
    assert_eq!(
        state.match_comment_line("#"),
        ParseResult::Stop(StopBecause::MissingString { message: "#", position: 0 })
    );
    let block = ParseState::new("/* a */b");
    let (next, _) = block.match_comment_block("/*", "*/").as_result().unwrap();
    assert_eq!(next.residual, "b");
    assert_eq!(next.start_offset, 7);
    assert_eq!(
        block.match_comment_block("/*", "-->"),
        ParseResult::Stop(StopBecause::MissingString { message: "-->", position: 2 })
    );
    assert_eq!(
        block.match_comment_block("<!--", "-->"),
        ParseResult::Stop(StopBecause::MissingString { message: "<!--", position: 0 })
    );
}

#[test]
fn unicode_escape_with_four_digits() {
    let escape = UnicodeUnescape { head: "\\u", brace: false };
    let (next, c) = escape.call_once(ParseState::new("\\u0041 rest")).as_result().unwrap();
    assert_eq!(c, 'A');
    assert_eq!(next.residual, " rest");
    assert_eq!(next.start_offset, 6);
    assert_eq!(unescape_u(ParseState::new("20AC")).as_result().unwrap().1, '€');
    assert_eq!(unescape_u(ParseState::new("00e9x")).as_result().unwrap().1, 'é');
    let invalid = |start: usize| {
        ParseResult::Stop(StopBecause::Custom(CustomError {
            message: "Invalid unicode escape sequence",
            start,
            end: start + 4,
        }))
    };
    assert_eq!(unescape_u(ParseState::new("004")), invalid(0));
    assert_eq!(unescape_u(ParseState::new("00g1")), invalid(0));
    assert_eq!(unescape_u(ParseState::new("D800")), invalid(0));
    assert_eq!(unescape_u(ParseState::new("").with_start_offset(3)), invalid(3));
    assert_eq!(
        escape.call_once(ParseState::new("u0041")),
        ParseResult::Stop(StopBecause::MissingString { message: "\\u", position: 0 })
    );
}

#[test]
fn unicode_escape_in_braces() {
    let escape = UnicodeUnescape { head: "\\u", brace: true };
    let (next, c) = escape.call_once(ParseState::new("\\u{1F600}!")).as_result().unwrap();
    assert_eq!(c, '\u{1F600}');
    assert_eq!(next.residual, "!");
    assert_eq!(next.start_offset, 9);
    assert_eq!(unescape_us(ParseState::new("{}")).as_result().unwrap().1, '\0');
    assert_eq!(unescape_us(ParseState::new("{0}")).as_result().unwrap().1, '\0');
    assert_eq!(unescape_us(ParseState::new("{1234}")).as_result().unwrap().1, '\u{1234}');
    assert_eq!(unescape_us(ParseState::new("{10FFFF}")).as_result().unwrap().1, '\u{10FFFF}');
    assert_eq!(unescape_us(ParseState::new("{ 41 }")).as_result().unwrap().1, 'A');
    assert_eq!(unescape_us(ParseState::new("{\t00e9\n}")).as_result().unwrap().1, 'é');
}

#[test]
fn unicode_escape_in_braces_failures() {
    assert_eq!(
        unescape_us(ParseState::new("{110000}")),
        ParseResult::Stop(StopBecause::Custom(CustomError {
            message: "Characters must not beyond U+10FFFF",
            start: 1,
            end: 7
        }))
    );
    assert_eq!(
        unescape_us(ParseState::new("{D800}")),
        ParseResult::Stop(StopBecause::Custom(CustomError {
            message: "Characters must not beyond U+10FFFF",
            start: 1,
            end: 5
        }))
    );
    assert_eq!(
        unescape_us(ParseState::new("{1234567}")),
        ParseResult::Stop(StopBecause::Custom(CustomError {
            message: "Escape characters must be 0-6 characters",
            start: 1,
            end: 8
        }))
    );
    assert_eq!(
        unescape_us(ParseState::new("{12 34}")),
        ParseResult::Stop(StopBecause::Custom(CustomError {
            message: "Escape characters must in 0-9a-fA-F",
            start: 1,
            end: 6
        }))
    );
    assert_eq!(
        unescape_us(ParseState::new("{xyz}")),
        ParseResult::Stop(StopBecause::Custom(CustomError {
            message: "Escape characters must in 0-9a-fA-F",
            start: 1,
            end: 4
        }))
    );
    assert_eq!(
        unescape_us(ParseState::new("1234}")),
        ParseResult::Stop(StopBecause::MissingString { message: "BRACE", position: 0 })
    );
    assert_eq!(
        unescape_us(ParseState::new("{1234")),
        ParseResult::Stop(StopBecause::MissingString { message: "BRACE", position: 1 })
    );
}

#[test]
fn decimal_literals() {
    let (next, view) = dec_str(ParseState::new("3.14.15")).as_result().unwrap();
    assert_eq!(view, "3.14");
    assert_eq!(next.residual, ".15");
    assert_eq!(dec_str(ParseState::new(".5x")).as_result().unwrap().1, ".5");
    assert_eq!(dec_str(ParseState::new("12.")).as_result().unwrap().1, "12.");
    assert_eq!(dec_str(ParseState::new("42")).as_result().unwrap().1, "42");
    assert_eq!(dec_str(ParseState::new(".")).as_result().unwrap().1, ".");
    assert_eq!(
        dec_str(ParseState::new("x1").with_start_offset(2)),
        ParseResult::Stop(StopBecause::MissingString { message: "DECIMAL_LITERAL", position: 2 })
    );
    assert_eq!(
        dec_str(ParseState::new("")),
        ParseResult::Stop(StopBecause::MissingString { message: "DECIMAL_LITERAL", position: 0 })
    );
}

#[test]
fn decimal_integers() {
    let (next, digits) = match_dec(ParseState::new("0123.4")).as_result().unwrap();
    assert_eq!(digits, "0123");
    assert_eq!(next.residual, ".4");
    assert_eq!(
        match_dec(ParseState::new("x")),
        ParseResult::Stop(StopBecause::MissingCharacterSet {
            expected: "decimal digits",
            position: 0
        })
    );
    let (next, value) = dec_u128(ParseState::new("0123 rest")).as_result().unwrap();
    assert_eq!(value, 123);
    assert_eq!(next.residual, " rest");
    assert_eq!(
        dec_u128(ParseState::new("340282366920938463463374607431768211455")).as_result().unwrap().1,
        u128::MAX
    );
    assert_eq!(
        dec_u128(ParseState::new("340282366920938463463374607431768211456").with_start_offset(1)),
        ParseResult::Stop(StopBecause::Custom(CustomError {
            message: "Invalid integer literal",
            start: 1,
            end: 40
        }))
    );
    assert_eq!(dec_usize(ParseState::new("65535,")).as_result().unwrap().1, 65535);
    assert_eq!(
        dec_usize(ParseState::new(&usize::MAX.to_string())).as_result().unwrap().1,
        usize::MAX
    );
    assert_eq!(
        dec_usize(ParseState::new("99999999999999999999999999")),
        ParseResult::Stop(StopBecause::Custom(CustomError {
            message: "Invalid integer literal",
            start: 0,
            end: 26
        }))
    );
    assert_eq!(
        dec_usize(ParseState::new("-1")),
        ParseResult::Stop(StopBecause::MissingCharacterSet {
            expected: "decimal digits",
            position: 0
        })
    );
}

#[test]
fn whitespace_before_another_character() {
    let state = ParseState::new("  \na");
    let (next, view) = whitespace(state).as_result().unwrap();
    assert_eq!(view, "  \n");
    assert_eq!(next.residual, "a");
    assert_eq!(state.skip(whitespace).residual, "a");
    assert_eq!(state.skip(ascii_whitespace).residual, "a");
    assert_eq!(ascii_whitespace(ParseState::new("a")), ParseResult::Pending(ParseState::new("a"), ""));
    assert_eq!(
        whitespace(ParseState::new("   ")),
        ParseResult::Stop(StopBecause::MissingCharacter { expected: ' ', position: 0 })
    );
    assert_eq!(
        ascii_whitespace(ParseState::new("")),
        ParseResult::Stop(StopBecause::MissingCharacter { expected: ' ', position: 0 })
    );
    let wide = ParseState::new("\u{a0}\u{3000}x");
    assert_eq!(whitespace(wide).as_result().unwrap().0.start_offset, 5);
    assert_eq!(ascii_whitespace(wide).as_result().unwrap().0.start_offset, 0);
    assert_eq!(ascii_whitespace(ParseState::new("\u{b}x")).as_result().unwrap().1, "");
    assert_eq!(whitespace(ParseState::new("\u{b}x")).as_result().unwrap().1, "\u{b}");
}
