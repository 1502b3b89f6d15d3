use pex::{ParseResult, ParseState, StopBecause};

#[test]
fn match_char_takes_the_expected_character() {
    let state = ParseState::new("abc");
    let (next, c) = state.match_char('a').as_result().unwrap();
    assert_eq!(c, 'a');
    assert_eq!(next.residual, "bc");
    assert_eq!(next.start_offset, 1);
}

#[test]
fn match_char_reports_the_missing_character() {
    let state = ParseState::new("abc").with_start_offset(7);
    assert_eq!(
        state.match_char('b'),
        ParseResult::Stop(StopBecause::MissingCharacter { expected: 'b', position: 7 })
    );
    assert_eq!(
        ParseState::new("").match_char('b'),
        ParseResult::Stop(StopBecause::MissingCharacter { expected: 'b', position: 0 })
    );
}

#[test]
fn match_char_counts_bytes_of_wide_characters() {
    let state = ParseState::new("😀!");
    let (next, c) = state.match_char('😀').as_result().unwrap();
    assert_eq!(c, '😀');
    assert_eq!(next.start_offset, 4);
    assert_eq!(next.residual, "!");
}

#[test]
fn match_char_range_is_inclusive() {
    let state = ParseState::new("az{");
    let (s1, a) = state.match_char_range('a', 'z').as_result().unwrap();
    assert_eq!(a, 'a');
    let (s2, z) = s1.match_char_range('a', 'z').as_result().unwrap();
    assert_eq!(z, 'z');
    assert_eq!(
        s2.match_char_range('a', 'z'),
        ParseResult::Stop(StopBecause::MissingCharacterRange { start: 'a', end: 'z', position: 2 })
    );
    assert_eq!(
        ParseState::new("").match_char_range('a', 'z'),
        ParseResult::Stop(StopBecause::MissingCharacterRange { start: 'a', end: 'z', position: 0 })
    );
}

#[test]
fn match_eof_only_at_the_end() {
    let empty = ParseState::new("").with_start_offset(3);
    assert_eq!(empty.match_eof(), ParseResult::Pending(empty, ()));
    assert_eq!(
        ParseState::new("x").match_eof(),
        ParseResult::Stop(StopBecause::ExpectEof { position: 0 })
    );
}

#[test]
fn match_char_any_fails_only_at_the_end() {
    let (next, c) = ParseState::new("é").match_char_any().as_result().unwrap();
    assert_eq!(c, 'é');
    assert!(next.is_empty());
    assert_eq!(next.start_offset, 2);
    assert_eq!(
        next.match_char_any(),
        ParseResult::Stop(StopBecause::MustBe { message: "ANY", position: 2 })
    );
}

#[test]
fn match_char_if_uses_the_predicate() {
    let state = ParseState::new("7x");
    let (next, c) = state.match_char_if(|c| c.is_ascii_digit(), "DIGIT").as_result().unwrap();
    assert_eq!(c, '7');
    assert_eq!(
        next.match_char_if(|c| c.is_ascii_digit(), "DIGIT"),
        ParseResult::Stop(StopBecause::MustBe { message: "DIGIT", position: 1 })
    );
}

#[test]
fn match_str_succeeds_exactly_on_a_prefix() {
    let state = ParseState::new("hello world");
    let (next, view) = state.match_str("hello").as_result().unwrap();
    assert_eq!(view, "hello");
    assert_eq!(next.residual, " world");
    assert_eq!(next.start_offset, 5);
    assert_eq!(
        state.match_str("help"),
        ParseResult::Stop(StopBecause::MissingString { message: "help", position: 0 })
    );
    assert_eq!(
        state.match_str("hello world!"),
        ParseResult::Stop(StopBecause::MissingString { message: "hello world!", position: 0 })
    );
    assert_eq!(
        state.match_str("Hello"),
        ParseResult::Stop(StopBecause::MissingString { message: "Hello", position: 0 })
    );
}

#[test]
fn match_str_with_the_empty_string_consumes_nothing() {
    let state = ParseState::new("abc");
    assert_eq!(state.match_str(""), ParseResult::Pending(state, ""));
}

#[test]
fn match_str_with_wide_characters() {
    let state = ParseState::new("héllo wörld");
    let (next, view) = state.match_str("héllo").as_result().unwrap();
    assert_eq!(view, "héllo");
    assert_eq!(next.start_offset, 6);
    assert_eq!(next.residual, " wörld");
}

#[test]
fn match_str_insensitive_ignores_ascii_case() {
    let state = ParseState::new("SeLeCt *");
    let (next, view) = state.match_str_insensitive("select").as_result().unwrap();
    assert_eq!(view, "SeLeCt");
    assert_eq!(next.residual, " *");
    assert_eq!(
        state.match_str_insensitive("selects"),
        ParseResult::Stop(StopBecause::MissingString { message: "selects", position: 0 })
    );
    assert_eq!(
        ParseState::new("sel").match_str_insensitive("select"),
        ParseResult::Stop(StopBecause::MissingString { message: "select", position: 0 })
    );
}

#[test]
fn match_str_insensitive_keeps_other_characters_exact() {
    let state = ParseState::new("É");
    assert_eq!(
        state.match_str_insensitive("é"),
        ParseResult::Stop(StopBecause::MissingString { message: "é", position: 0 })
    );
    assert_eq!(state.match_str_insensitive("É").as_result().unwrap().1, "É");
}

#[test]
fn match_str_if_takes_the_longest_run() {
    let state = ParseState::new("12345abc");
    let (next, view) = state.match_str_if(|c| c.is_ascii_digit(), "DIGITS").as_result().unwrap();
    assert_eq!(view, "12345");
    assert_eq!(next.residual, "abc");
    assert_eq!(next.start_offset, 5);
    assert_eq!(
        next.match_str_if(|c| c.is_ascii_digit(), "DIGITS"),
        ParseResult::Stop(StopBecause::MissingString { message: "DIGITS", position: 5 })
    );
    let all = ParseState::new("999");
    let (end, view) = all.match_str_if(|c| c.is_ascii_digit(), "DIGITS").as_result().unwrap();
    assert_eq!(view, "999");
    assert!(end.is_empty());
}

#[test]
fn match_str_until_stops_before_the_accepted_character() {
    let state = ParseState::new("key=value");
    let (next, view) = state.match_str_until(|c| c == '=', "EQUALS").as_result().unwrap();
    assert_eq!(view, "key");
    assert_eq!(next.residual, "=value");
    let (same, nothing) = next.match_str_until(|c| c == '=', "EQUALS").as_result().unwrap();
    assert_eq!(nothing, "");
    assert_eq!(same, next);
    assert_eq!(
        ParseState::new("value").match_str_until(|c| c == '=', "EQUALS"),
        ParseResult::Stop(StopBecause::MissingString { message: "EQUALS", position: 0 })
    );
}

#[test]
fn match_str_pattern_needs_a_match_at_the_front() {
    let state = ParseState::new("abcabc");
    let (next, view) = state.match_str_pattern("abc", "ABC").as_result().unwrap();
    assert_eq!(view, "abc");
    assert_eq!(next.start_offset, 3);
    assert_eq!(
        state.match_str_pattern("bc", "BC"),
        ParseResult::Stop(StopBecause::MissingString { message: "BC", position: 0 })
    );
    assert_eq!(
        state.match_str_pattern('b', "B"),
        ParseResult::Stop(StopBecause::MissingString { message: "B", position: 0 })
    );
    let (after, a) = state.match_str_pattern('a', "A").as_result().unwrap();
    assert_eq!(a, "a");
    assert_eq!(after.residual, "bcabc");
    assert_eq!(
        state.match_str_pattern("x", "X"),
        ParseResult::Stop(StopBecause::MissingString { message: "X", position: 0 })
    );
}
