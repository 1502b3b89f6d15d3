use pex::helpers::{char, make_from_str, omit, optional, str};
use pex::{ChoiceHelper, ParseResult, ParseState, StopBecause};

fn digit(state: ParseState) -> ParseResult<char> {
    state.match_char_range('0', '9')
}

fn never(state: ParseState) -> ParseResult<char> {
    ParseResult::Stop(StopBecause::MustBe { message: "NEVER", position: state.start_offset })
}

#[test]
fn match_fn_applies_the_rule() {
    let state = ParseState::new("1");
    assert_eq!(state.match_fn(digit), digit(state));
    assert_eq!(state.match_fn(never), never(state));
}

#[test]
fn optional_gives_some_at_the_rules_cursor() {
    let state = ParseState::new("1a");
    let (next, value) = state.match_optional(digit).as_result().unwrap();
    assert_eq!(value, Some('1'));
    assert_eq!(next.residual, "a");
    assert_eq!(next.start_offset, 1);
}

#[test]
fn optional_gives_none_at_the_cursor_as_it_was() {
    let state = ParseState::new("a1").with_start_offset(5);
    assert_eq!(state.match_optional(digit), ParseResult::Pending(state, None));
    let empty = ParseState::new("");
    assert_eq!(empty.match_optional(digit), ParseResult::Pending(empty, None));
}

#[test]
fn repeats_collects_until_the_rule_fails() {
    let state = ParseState::new("123a");
    let (next, values) = state.match_repeats(digit).as_result().unwrap();
    assert_eq!(values, vec!['1', '2', '3']);
    assert_eq!(next.residual, "a");
    assert_eq!(next.start_offset, 3);
}

#[test]
fn repeats_of_a_failing_rule_is_empty_and_consumes_nothing() {
    let state = ParseState::new("abc").with_start_offset(2);
    assert_eq!(state.match_repeats(never), ParseResult::Pending(state, vec![]));
    assert_eq!(state.match_repeats(digit), ParseResult::Pending(state, vec![]));
}

#[test]
fn repeat_m_n_stops_at_the_maximum() {
    let state = ParseState::new("12345");
    let (next, values) = state.match_repeat_m_n(1, 3, digit).as_result().unwrap();
    assert_eq!(values, vec!['1', '2', '3']);
    assert_eq!(next.residual, "45");
    let (same, none) = state.match_repeat_m_n(0, 0, digit).as_result().unwrap();
    assert_eq!(none, vec![]);
    assert_eq!(same, state);
}

#[test]
fn repeat_m_n_fails_below_the_minimum_at_the_start() {
    let state = ParseState::new("12a").with_start_offset(10);
    assert_eq!(
        state.match_repeat_m_n(3, 5, digit),
        ParseResult::Stop(StopBecause::ExpectRepeats { min: 3, current: 2, position: 10 })
    );
    let (next, values) = state.match_repeat_m_n(2, 5, digit).as_result().unwrap();
    assert_eq!(values, vec!['1', '2']);
    assert_eq!(next.start_offset, 12);
}

#[test]
fn skip_moves_on_or_stays() {
    let state = ParseState::new("1a");
    let next = state.skip(digit);
    assert_eq!(next.residual, "a");
    assert_eq!(next.skip(digit), next);
}

#[test]
fn lookahead_consumes_nothing() {
    let state = ParseState::new("1a").with_start_offset(4);
    assert_eq!(state.match_positive(digit, "DIGIT"), ParseResult::Pending(state, ()));
    assert_eq!(
        state.match_negative(digit, "DIGIT"),
        ParseResult::Stop(StopBecause::ShouldNotBe { message: "DIGIT", position: 4 })
    );
    assert_eq!(
        state.match_positive(never, "NEVER"),
        ParseResult::Stop(StopBecause::MustBe { message: "NEVER", position: 4 })
    );
    assert_eq!(state.match_negative(never, "NEVER"), ParseResult::Pending(state, ()));
}

#[test]
fn choice_takes_the_first_alternative_that_matches() {
    let state = ParseState::new("c");
    let result = state
        .begin_choice()
        .maybe(|s| s.match_char('a'))
        .maybe(|s| s.match_char('b'))
        .maybe(|s| s.match_char('c'))
        .maybe(|s| s.match_char_any())
        .end_choice();
    let (next, value) = result.as_result().unwrap();
    assert_eq!(value, 'c');
    assert!(next.is_empty());
}

#[test]
fn choice_surfaces_the_error_of_the_last_alternative() {
    let state = ParseState::new("c").with_start_offset(9);
    let result = state
        .begin_choice()
        .maybe(|s| s.match_str("aaaa").map_inner(|_| 'a'))
        .maybe(|s| s.match_char('b'))
        .end_choice();
    assert_eq!(
        result,
        ParseResult::Stop(StopBecause::MissingCharacter { expected: 'b', position: 9 })
    );
}

#[test]
fn choice_without_alternatives_is_uninitialized() {
    let helper: ChoiceHelper<char> = ChoiceHelper::new(ParseState::new("x"));
    assert_eq!(helper.end_choice(), ParseResult::Stop(StopBecause::Uninitialized));
}

#[test]
fn choice_does_not_try_alternatives_after_a_match() {
    let state = ParseState::new("ab");
    let mut called = false;
    let result = state
        .begin_choice()
        .maybe(|s| s.match_char('a'))
        .maybe(|s| {
            called = true;
            s.match_char('a')
        })
        .end_choice();
    assert!(result.is_success());
    assert!(!called);
}

#[test]
fn map_inner_dispatch_and_as_result() {
    let state = ParseState::new("hello");
    let result = state.finish(());
    assert_eq!(result.map_inner(|_| 1), ParseResult::Pending(state, 1));
    let stop: ParseResult<()> = ParseResult::Stop(StopBecause::ExpectEof { position: 1 });
    assert_eq!(stop.map_inner(|_| 1), ParseResult::Stop(StopBecause::ExpectEof { position: 1 }));
    assert_eq!(state.finish(()).as_result(), Ok((state, ())));
    let stop: ParseResult<()> = ParseResult::Stop(StopBecause::ExpectEof { position: 1 });
    assert_eq!(stop.as_result(), Err(StopBecause::ExpectEof { position: 1 }));
    let mut seen = None;
    let mut failed = None;
    let back = state.finish(5).dispatch(|ok| seen = Some(ok), |fail| failed = Some(fail));
    assert_eq!(back, ParseResult::Pending(state, 5));
    assert_eq!(seen, Some(state));
    assert_eq!(failed, None);
}

#[test]
fn rule_builders() {
    let state = ParseState::new("  \na");
    assert_eq!(state.skip(str(" ")).residual, " \na");
    assert_eq!(state.skip(char(' ')).residual, " \na");
    assert_eq!(state.skip(omit(char(' '))).residual, " \na");
    assert_eq!(omit(char(' '))(state), ParseResult::Pending(state.advance(1usize), ()));
    assert_eq!(
        omit(char('x'))(state),
        ParseResult::Stop(StopBecause::MissingCharacter { expected: 'x', position: 0 })
    );
    assert_eq!(optional(char('x'))(state), ParseResult::Pending(state, None));
    assert_eq!(optional(char(' '))(state), ParseResult::Pending(state.advance(1usize), Some(' ')));
}

#[test]
fn make_from_str_needs_the_whole_input() {
    assert_eq!(make_from_str(ParseState::new("7"), digit), Ok('7'));
    assert_eq!(
        make_from_str(ParseState::new("78"), digit),
        Err(StopBecause::ExpectEof { position: 1 })
    );
    assert_eq!(
        make_from_str(ParseState::new("x"), digit),
        Err(StopBecause::MissingCharacterRange { start: '0', end: '9', position: 0 })
    );
}
