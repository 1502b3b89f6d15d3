use pex::helpers::{dec_usize, whitespace};
use pex::patterns::zero_base_byte::{is_digit_of, parse_byte_base};
use pex::{
    BracketPattern, NamedPattern, ParseResult, ParseState, Pattern, StopBecause, StringView,
    ZeroBytePattern,
};

#[test]
fn patterns_locate_the_leftmost_match() {
    assert_eq!('c'.find_in("abcabc"), Some((2, 3)));
    assert_eq!('é'.find_in("aébé"), Some((1, 3)));
    assert_eq!('b'.find_in("aébé"), Some((3, 4)));
    assert_eq!('x'.find_in("abc"), None);
    assert_eq!('x'.find_in(""), None);
    assert_eq!("bc".find_in("abcabc"), Some((1, 3)));
    assert_eq!("abc".find_in("abcabc"), Some((0, 3)));
    assert_eq!("".find_in("abc"), Some((0, 0)));
    assert_eq!("".find_in(""), Some((0, 0)));
    assert_eq!("abcd".find_in("abc"), None);
    assert_eq!("é".find_in("aébé"), Some((1, 3)));
    assert_eq!("aab".find_in("aaab"), Some((1, 4)));
}

#[test]
fn named_pattern_consumes_at_the_front() {
    let pattern = NamedPattern::new("let", "KEYWORD_LET");
    let state = ParseState::new("let x").with_start_offset(20);
    let (next, view) = pattern.consume(state).as_result().unwrap();
    assert_eq!(view.as_string(), "let");
    assert_eq!(view.as_range(), 20..23);
    assert_eq!(next.residual, " x");
    assert_eq!(
        pattern.consume(ParseState::new("a let").with_start_offset(1)).as_result().unwrap_err(),
        StopBecause::MissingString { message: "KEYWORD_LET", position: 1 }
    );
}

#[test]
fn string_view_offsets() {
    let view = StringView::new("héllo", 10);
    assert_eq!(view.start_offset(), 10);
    assert_eq!(view.end_offset(), 16);
    assert_eq!(view.as_range(), 10..16);
    assert_eq!(view.as_string(), "héllo");
    assert_eq!(view.as_str(), "héllo");
}

fn list<'i>(pattern: BracketPattern, text: &'i str) -> ParseResult<'i, (Vec<usize>, &'i str)> {
    pattern.consume(ParseState::new(text), whitespace, dec_usize).map_inner(|pair| {
        (pair.body, "")
    })
}

#[test]
fn bracket_list_empty() {
    let pattern = BracketPattern::new("[", "]");
    let (next, pair) = pattern
        .consume(ParseState::new("[  ] rest"), whitespace, dec_usize)
        .as_result()
        .unwrap();
    assert_eq!(pair.body, Vec::<usize>::new());
    assert_eq!(pair.lhs.as_range(), 0..1);
    assert_eq!(pair.rhs.as_range(), 3..4);
    assert_eq!(next.residual, " rest");
    assert!(list(pattern, "[]").is_success());
}

#[test]
fn bracket_list_with_terms() {
    let pattern = BracketPattern::new("[", "]");
    let (next, pair) = pattern
        .consume(ParseState::new("[ 1 , 22,333 ]!"), whitespace, dec_usize)
        .as_result()
        .unwrap();
    assert_eq!(pair.body, vec![1, 22, 333]);
    assert_eq!(pair.lhs.as_string(), "[");
    assert_eq!(pair.rhs.as_string(), "]");
    assert_eq!(pair.rhs.as_range(), 13..14);
    assert_eq!(next.residual, "!");
    assert_eq!(list(pattern, "[7]").as_result().unwrap().1 .0, vec![7]);
}

#[test]
fn bracket_list_dangling_delimiter() {
    let free = BracketPattern::new("[", "]");
    assert_eq!(list(free, "[1, 2, ]").as_result().unwrap().1 .0, vec![1, 2]);
    assert_eq!(list(free, "[1, 2]").as_result().unwrap().1 .0, vec![1, 2]);
    let always = free.with_dangling(true);
    assert_eq!(list(always, "[1, 2,]").as_result().unwrap().1 .0, vec![1, 2]);
    assert_eq!(
        list(always, "[1, 2]"),
        ParseResult::Stop(StopBecause::MissingString { message: ",", position: 5 })
    );
    let never = free.with_dangling(false);
    assert_eq!(list(never, "[1, 2]").as_result().unwrap().1 .0, vec![1, 2]);
    assert_eq!(
        list(never, "[1, 2,]"),
        ParseResult::Stop(StopBecause::MissingString { message: "]", position: 5 })
    );
}

#[test]
fn bracket_list_with_other_marks() {
    let pattern = BracketPattern::new("<|", "|>").with_delimiter(";");
    let (next, pair) = pattern
        .consume(ParseState::new("<| 1; 2 ;3 |> tail"), whitespace, dec_usize)
        .as_result()
        .unwrap();
    assert_eq!(pair.body, vec![1, 2, 3]);
    assert_eq!(pair.lhs.as_range(), 0..2);
    assert_eq!(pair.rhs.as_range(), 11..13);
    assert_eq!(next.residual, " tail");
    assert_eq!(pattern.delimiter, ";");
    assert_eq!(pattern.dangling, None);
}

#[test]
fn bracket_list_failures() {
    let pattern = BracketPattern::new("[", "]");
    assert_eq!(
        list(pattern, "(1)"),
        ParseResult::Stop(StopBecause::MissingString { message: "[", position: 0 })
    );
    assert_eq!(
        list(pattern, "[1 2]"),
        ParseResult::Stop(StopBecause::MissingString { message: "]", position: 3 })
    );
    assert_eq!(
        list(pattern, "[x]"),
        ParseResult::Stop(StopBecause::MissingCharacterSet {
            expected: "decimal digits",
            position: 1
        })
    );
    assert_eq!(
        list(pattern, "[1, 2"),
        ParseResult::Stop(StopBecause::MissingString { message: "]", position: 5 })
    );
}

#[test]
fn bracket_list_steps() {
    let pattern = BracketPattern::new("[", "]");
    let (next, term) = pattern
        .delimiter_term(ParseState::new(" , 42]"), &whitespace, &dec_usize)
        .as_result()
        .unwrap();
    assert_eq!(term, 42);
    assert_eq!(next.residual, "]");
    assert_eq!(
        pattern.delimiter_term(ParseState::new(" 42]"), &whitespace, &dec_usize),
        ParseResult::Stop(StopBecause::MissingString { message: ",", position: 1 })
    );
    let empty = pattern.maybe_empty::<_, usize, _>(ParseState::new("[ ]"), &whitespace);
    assert!(empty.is_success());
    let many = pattern.maybe_many(ParseState::new("[ ]"), &whitespace, &dec_usize);
    assert_eq!(
        many.map_inner(|pair| pair.body),
        ParseResult::Stop(StopBecause::MissingCharacterSet {
            expected: "decimal digits",
            position: 2
        })
    );
}

#[test]
fn based_numbers() {
    const MARKS: &[(char, u32)] = &[('x', 16), ('o', 8), ('b', 2)];
    let pattern = ZeroBytePattern::new('0', MARKS, "BASE_MARK");
    let (next, (mark, digits)) =
        pattern.match_pattern(ParseState::new("0x1Fg")).as_result().unwrap();
    assert_eq!(mark, 'x');
    assert_eq!(digits, "1F");
    assert_eq!(next.residual, "g");
    assert_eq!(next.start_offset, 4);
    assert_eq!(pattern.match_pattern(ParseState::new("0b1012")).as_result().unwrap().1, ('b', "101"));
    assert_eq!(pattern.match_pattern(ParseState::new("0o777")).as_result().unwrap().1, ('o', "777"));
    assert_eq!(
        pattern.match_pattern(ParseState::new("0q1")),
        ParseResult::Stop(StopBecause::MissingCharacterSet { expected: "BASE_MARK", position: 1 })
    );
    assert_eq!(
        pattern.match_pattern(ParseState::new("0b2")),
        ParseResult::Stop(StopBecause::MissingCharacterSet { expected: "BASE_MARK", position: 1 })
    );
    assert_eq!(
        pattern.match_pattern(ParseState::new("1x1")),
        ParseResult::Stop(StopBecause::MissingCharacter { expected: '0', position: 0 })
    );
}

#[test]
fn based_number_steps() {
    assert_eq!(
        parse_byte_base(ParseState::new("xff "), 'x', 16).as_result().unwrap().1,
        ('x', "ff")
    );
    assert_eq!(
        parse_byte_base(ParseState::new("yff"), 'x', 16),
        ParseResult::Stop(StopBecause::MissingCharacter { expected: 'x', position: 0 })
    );
    assert_eq!(
        parse_byte_base(ParseState::new("xg"), 'x', 16),
        ParseResult::Stop(StopBecause::MissingString { message: "BASE", position: 1 })
    );
    for base in 2..=36u32 {
        for c in ['0', '1', '7', '9', 'a', 'f', 'z', 'A', 'F', 'Z', ' ', 'é', '/'] {
            assert_eq!(is_digit_of(c, base), c.is_digit(base));
        }
    }
}

#[test]
fn bracket_list_with_an_empty_delimiter() {
    let pattern = BracketPattern::new("(", ")").with_delimiter("");
    let (next, pair) = pattern
        .consume(ParseState::new("( 1 22  3 ) rest"), whitespace, dec_usize)
        .as_result()
        .unwrap();
    assert_eq!(pair.body, vec![1, 22, 3]);
    assert_eq!(next.residual, " rest");
}
