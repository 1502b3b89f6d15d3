use pex::{
    CharacterSet, CompiledRegex, InvalidPattern, ParseResult, ParseState, RegexMatch, StopBecause,
};
use regex_automata::dfa::regex::Regex;
use ucd_trie::TrieSetOwned;

#[test]
fn test_regex() {
    let re = Regex::new("[0-9]{4}-[0-9]{2}-[0-9]{2}").unwrap();
    let (fwd_bytes, fwd_pad) = re.forward().to_bytes_little_endian();
    let (rev_bytes, rev_pad) = re.reverse().to_bytes_little_endian();
    println!("{}: {:?}", fwd_pad, &fwd_bytes[fwd_pad..].len());
    println!("{}: {:?}", rev_pad, &rev_bytes[rev_pad..].len());
    let re = CompiledRegex::new("[0-9]{4}-[0-9]{2}-[0-9]{2}").unwrap();
    assert_eq!(re.as_str(), "[0-9]{4}-[0-9]{2}-[0-9]{2}");
    let state = ParseState::new("2024-01-31 rest");
    let (next, found) = state.match_regex(&re, "DATE").as_result().unwrap();
    assert_eq!(found, RegexMatch { pattern: 0, start: 0, end: 10 });
    assert_eq!(next.residual, " rest");
    assert_eq!(next.start_offset, 10);
}

#[test]
fn match_regex_moves_to_the_end_of_the_leftmost_match() {
    let re = CompiledRegex::new("[a-z]+").unwrap();
    let state = ParseState::new("12 abc 34").with_start_offset(5);
    let (next, found) = state.match_regex(&re, "WORD").as_result().unwrap();
    assert_eq!(found, RegexMatch { pattern: 0, start: 3, end: 6 });
    assert_eq!(next.residual, " 34");
    assert_eq!(next.start_offset, 11);
    assert_eq!(
        ParseState::new("12 34").with_start_offset(5).match_regex(&re, "WORD"),
        ParseResult::Stop(StopBecause::MustBe { message: "WORD", position: 5 })
    );
}

#[test]
fn match_found_checks_the_end_of_the_match() {
    let state = ParseState::new("aé!");
    let good = RegexMatch { pattern: 0, start: 1, end: 3 };
    let (next, found) = state.match_found(Some(good), "M").as_result().unwrap();
    assert_eq!(found, good);
    assert_eq!(next.residual, "!");
    let inside = RegexMatch { pattern: 0, start: 0, end: 2 };
    assert_eq!(
        state.match_found(Some(inside), "M"),
        ParseResult::Stop(StopBecause::MustBe { message: "M", position: 0 })
    );
    let beyond = RegexMatch { pattern: 0, start: 0, end: 9 };
    assert_eq!(
        state.match_found(Some(beyond), "M"),
        ParseResult::Stop(StopBecause::MustBe { message: "M", position: 0 })
    );
    assert_eq!(
        state.match_found(None, "M"),
        ParseResult::Stop(StopBecause::MustBe { message: "M", position: 0 })
    );
}

#[test]
fn match_char_set_asks_the_trie() {
    let owned = TrieSetOwned::from_scalars(['a', 'e', 'é', '€', '😀'].iter()).unwrap();
    let slice = owned.as_slice();
    let set = CharacterSet::new(
        slice.tree1_level1,
        slice.tree2_level1,
        slice.tree2_level2,
        slice.tree3_level1,
        slice.tree3_level2,
        slice.tree3_level3,
    )
    .unwrap();
    for c in ['a', 'e', 'é', '€', '😀'] {
        assert!(set.contains_char(c));
    }
    for c in ['b', 'E', 'è', '$', '😁', '\0', '\u{10FFFF}'] {
        assert!(!set.contains_char(c));
    }
    let state = ParseState::new("é€b");
    let (s1, c1) = state.match_char_set(set, "VOWEL").as_result().unwrap();
    assert_eq!(c1, 'é');
    let (s2, c2) = s1.match_char_set(set, "VOWEL").as_result().unwrap();
    assert_eq!(c2, '€');
    assert_eq!(
        s2.match_char_set(set, "VOWEL"),
        ParseResult::Stop(StopBecause::MustBe { message: "VOWEL", position: 5 })
    );
}

#[test]
fn character_set_refuses_unsound_tables() {
    let short = [0u64; 31];
    assert!(CharacterSet::new(&short, &[], &[], &[], &[], &[]).is_none());
    let first = [0u64; 32];
    assert!(CharacterSet::new(&first, &[], &[], &[], &[], &[]).is_some());
    assert!(CharacterSet::new(&first, &[1], &[0], &[], &[], &[]).is_none());
    assert!(CharacterSet::new(&first, &[0], &[0], &[], &[], &[]).is_some());
    let level2 = [0u8; 64];
    assert!(CharacterSet::new(&first, &[], &[], &[0], &level2, &[0]).is_some());
    assert!(CharacterSet::new(&first, &[], &[], &[1], &level2, &[0]).is_none());
    assert!(CharacterSet::new(&first, &[], &[], &[0], &level2[..63], &[0]).is_none());
    assert!(CharacterSet::new(&first, &[], &[], &[0], &level2, &[]).is_none());
}

#[test]
fn ready() {
    println!("it works!")
}

#[test]
fn compiled_matchers_are_patterns() {
    use_patterns();
}

fn use_patterns() {
    let owned = TrieSetOwned::from_scalars(['x', 'é'].iter()).unwrap();
    let slice = owned.as_slice();
    let set = CharacterSet::new(
        slice.tree1_level1,
        slice.tree2_level1,
        slice.tree2_level2,
        slice.tree3_level1,
        slice.tree3_level2,
        slice.tree3_level3,
    )
    .unwrap();
    assert_eq!(pex::Pattern::find_in(&set, "abéx"), Some((2, 4)));
    assert_eq!(pex::Pattern::find_in(&set, "xé"), Some((0, 1)));
    assert_eq!(pex::Pattern::find_in(&set, "abc"), None);
    let re = CompiledRegex::new("[0-9]+").unwrap();
    assert_eq!(pex::Pattern::find_in(&re, "ab 123 c"), Some((3, 6)));
    assert_eq!(pex::Pattern::find_in(&re, "abc"), None);
    let state = ParseState::new("42 is the answer");
    let (next, view) = state.match_str_pattern(re, "NUMBER").as_result().unwrap();
    assert_eq!(view, "42");
    assert_eq!(next.residual, " is the answer");
    let named = pex::NamedPattern::new(set, "LETTER");
    assert_eq!(named.consume(ParseState::new("éa")).as_result().unwrap().1.as_range(), 0..2);
}

#[test]
fn answers_become_spans_of_whole_characters() {
    let hay = "aé!";
    let inside = |start, end| Some(RegexMatch { pattern: 0, start, end });
    assert_eq!(pex::third_party::span_of_answer(hay, inside(1, 3)), Some((1, 3)));
    assert_eq!(pex::third_party::span_of_answer(hay, inside(0, 4)), Some((0, 4)));
    assert_eq!(pex::third_party::span_of_answer(hay, inside(2, 2)), None);
    assert_eq!(pex::third_party::span_of_answer(hay, inside(1, 2)), None);
    assert_eq!(pex::third_party::span_of_answer(hay, inside(3, 1)), None);
    assert_eq!(pex::third_party::span_of_answer(hay, inside(0, 5)), None);
    assert_eq!(pex::third_party::span_of_answer(hay, None), None);
}

#[test]
fn tables_are_a_set_exactly_where_they_are_sound() {
    let empty = pex::TrieTables {
        tree1_level1: vec![0; 32],
        tree2_level1: vec![],
        tree2_level2: vec![],
        tree3_level1: vec![],
        tree3_level2: vec![],
        tree3_level3: vec![],
    };
    assert!(empty.as_set().is_some());
    assert!(!empty.as_set().unwrap().contains_char('a'));
    let short = pex::TrieTables { tree1_level1: vec![0; 31], ..empty.clone() };
    assert!(short.as_set().is_none());
    let dangling = pex::TrieTables { tree2_level1: vec![3], tree2_level2: vec![0; 3], ..empty };
    assert!(dangling.as_set().is_none());
}

#[test]
fn patterns_that_do_not_compile_are_refused() {
    assert_eq!(CompiledRegex::new("[a-").err(), Some(InvalidPattern));
    assert_eq!(CompiledRegex::new("(").err(), Some(InvalidPattern));
    assert!(CompiledRegex::new("").is_ok());
    let empty = CompiledRegex::new("").unwrap();
    let state = ParseState::new("abc");
    let (same, found) = state.match_regex(&empty, "EMPTY").as_result().unwrap();
    assert_eq!(found, RegexMatch { pattern: 0, start: 0, end: 0 });
    assert_eq!(same, state);
}

#[test]
fn matches_are_found_after_wide_characters() {
    let re = CompiledRegex::new("b+").unwrap();
    let state = ParseState::new("éabb!");
    let (next, found) = state.match_regex(&re, "B").as_result().unwrap();
    assert_eq!(found, RegexMatch { pattern: 0, start: 3, end: 5 });
    assert_eq!(next.residual, "!");
    assert_eq!(pex::Pattern::find_in(&re, "éabb!"), Some((3, 5)));
}
