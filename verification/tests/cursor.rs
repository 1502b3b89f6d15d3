use pex::{ParseAdvance, ParseResult, ParseState, StopBecause};

#[test]
fn new_cursor_starts_at_zero() {
    let state = ParseState::new("hello");
    assert_eq!(state.residual, "hello");
    assert_eq!(state.start_offset, 0);
    assert_eq!(state.stop_reason, None);
    assert_eq!(state.end_offset(), 5);
    assert!(!state.is_empty());
    assert!(ParseState::new("").is_empty());
}

#[test]
fn with_start_offset_moves_the_origin() {
    let state = ParseState::new("abc").with_start_offset(10);
    assert_eq!(state.start_offset, 10);
    assert_eq!(state.end_offset(), 13);
    assert_eq!(state.residual, "abc");
}

#[test]
fn advance_by_bytes_adds_to_the_offset() {
    let state = ParseState::new("hello world");
    let next = state.advance(6usize);
    assert_eq!(next.start_offset, 6);
    assert_eq!(next.residual, "world");
    let last = next.advance(5usize);
    assert_eq!(last.start_offset, 11);
    assert_eq!(last.residual, "");
    assert_eq!(state.advance(0usize), state);
}

#[test]
fn advance_by_character_and_by_string() {
    let state = ParseState::new("äbc-rest");
    let next = state.advance('ä');
    assert_eq!(next.start_offset, 2);
    assert_eq!(next.residual, "bc-rest");
    let last = next.advance("bc-");
    assert_eq!(last.start_offset, 5);
    assert_eq!(last.residual, "rest");
}

#[test]
fn advance_step_offsets() {
    assert_eq!(ParseAdvance::from(7usize).offset(), 7);
    assert_eq!(ParseAdvance::from('a').offset(), 1);
    assert_eq!(ParseAdvance::from('é').offset(), 2);
    assert_eq!(ParseAdvance::from('€').offset(), 3);
    assert_eq!(ParseAdvance::from('😀').offset(), 4);
    assert_eq!(ParseAdvance::from("héllo").offset(), 6);
}

#[test]
fn advance_view_hands_back_what_was_passed() {
    let state = ParseState::new("hello world").with_start_offset(3);
    let (next, view) = state.advance_view(5).as_result().unwrap();
    assert_eq!(view, "hello");
    assert_eq!(next.residual, " world");
    assert_eq!(next.start_offset, 8);
    let (same, nothing) = state.advance_split(0);
    assert_eq!(same, state);
    assert_eq!(nothing, "");
}

#[test]
fn advance_span_takes_two_steps() {
    let state = ParseState::new("ab[cd]ef");
    let (mid, before, last, inside) = state.advance_span(2, 6);
    assert_eq!(before, "ab");
    assert_eq!(inside, "[cd]");
    assert_eq!(mid.start_offset, 2);
    assert_eq!(last.start_offset, 6);
    assert_eq!(last.residual, "ef");
}

#[test]
fn finish_wraps_a_value() {
    let state = ParseState::new("x");
    assert_eq!(state.finish(7), ParseResult::Pending(state, 7));
}

#[test]
fn error_slot() {
    let mut state = ParseState::new("x");
    assert_eq!(state.get_error(), StopBecause::Uninitialized);
    state.set_error(StopBecause::ExpectEof { position: 4 });
    assert_eq!(state.get_error(), StopBecause::ExpectEof { position: 4 });
    assert_eq!(state.residual, "x");
}

#[test]
fn get_string_and_character() {
    let state = ParseState::new("aé€z");
    assert_eq!(state.get_string(0..1), Some("a"));
    assert_eq!(state.get_string(1..3), Some("é"));
    assert_eq!(state.get_string(1..6), Some("é€"));
    assert_eq!(state.get_string(0..7), Some("aé€z"));
    assert_eq!(state.get_string(3..3), Some(""));
    assert_eq!(state.get_string(1..2), None);
    assert_eq!(state.get_string(2..3), None);
    assert_eq!(state.get_string(0..8), None);
    assert_eq!(state.get_string(3..1), None);
    assert_eq!(state.get_character(0), Some('a'));
    assert_eq!(state.get_character(1), Some('é'));
    assert_eq!(state.get_character(2), Some('€'));
    assert_eq!(state.get_character(3), Some('z'));
    assert_eq!(state.get_character(4), None);
    assert_eq!(ParseState::new("").get_character(0), None);
}

#[test]
fn away_from_is_the_consumed_range() {
    let start = ParseState::new("hello world").with_start_offset(4);
    let end = start.advance(5usize);
    assert_eq!(end.away_from(start), 4..9);
    assert_eq!(start.away_from(start), 4..4);
}

#[test]
fn take_char_passes_one_character() {
    let state = ParseState::new("€uro");
    let next = state.take_char('€');
    assert_eq!(next.residual, "uro");
    assert_eq!(next.start_offset, 3);
}
