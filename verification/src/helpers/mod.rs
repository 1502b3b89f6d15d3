//! Ready-made rules built from the primitive matchers and combinators.

use crate::results::{ParseResult, StopBecause};
use crate::states::combine::optional_outcome;
use crate::states::ParseState;
use crate::text::{
    is_ascii_whitespace, is_whitespace, lemma_take_len, occurs_at, scan_while,
    spec_is_ascii_whitespace, spec_is_whitespace,
};
use vstd::prelude::*;
use vstd::string::*;

pub mod color;
pub mod comment;
pub mod number;
pub mod string;
pub mod unicode;

pub use self::color::hex_color;
pub use self::comment::{CommentBlock, CommentLine};
pub use self::number::{dec_str, dec_u128, dec_usize, match_dec};
pub use self::string::{
    quotation_pair, quotation_pair_escaped, quotation_pair_nested, surround_pair,
    surround_pair_with_escaper,
};
pub use self::unicode::{unescape_u, unescape_us, UnicodeUnescape};

verus! {

/// The first `k` characters of `text` are whitespace, as many as there are:
/// ASCII whitespace where `ascii` is set, any whitespace otherwise.
pub open spec fn space_run(text: Seq<char>, k: int, ascii: bool) -> bool {
    &&& 0 <= k <= text.len()
    &&& forall|i: int| 0 <= i < k ==> is_space(#[trigger] text[i], ascii)
    &&& k < text.len() ==> !is_space(text[k], ascii)
}

/// `c` is whitespace: ASCII whitespace where `ascii` is set, any whitespace
/// otherwise.
pub open spec fn is_space(c: char, ascii: bool) -> bool {
    if ascii {
        spec_is_ascii_whitespace(c)
    } else {
        spec_is_whitespace(c)
    }
}

/// What matching whitespace makes of `state`, whose text begins with `k`
/// whitespace characters, as many as there are: the match needs another
/// character after them.
pub open spec fn space_outcome<'i>(
    state: ParseState<'i>,
    k: int,
    r: ParseResult<'i, &'i str>,
) -> bool {
    if k < state.text().len() {
        &&& r matches ParseResult::Pending(last, view)
        &&& view@ == state.text().take(k)
        &&& last.advanced_by(state, view@)
        &&& last.wf()
    } else {
        r == ParseResult::<'i, &'i str>::Stop(
            StopBecause::MissingCharacter { expected: ' ', position: state.start_offset },
        )
    }
}

/// `r` is what matching whitespace makes of `state`.
pub open spec fn space_parsed<'i>(
    state: ParseState<'i>,
    ascii: bool,
    r: ParseResult<'i, &'i str>,
) -> bool {
    exists|k: int| #[trigger] space_run(state.text(), k, ascii) && space_outcome(state, k, r)
}

/// Matches the ASCII whitespace that stands before the first character of
/// another kind, which may be none. Fails where no such character follows.
pub fn ascii_whitespace<'i>(state: ParseState<'i>) -> (r: ParseResult<'i, &'i str>)
    requires
        state.wf(),
    ensures
        space_parsed(state, true, r),
{
    let ghost text = state.text();
    let space = |c: char| -> (b: bool)
        ensures
            b == spec_is_ascii_whitespace(c),
        { is_ascii_whitespace(c) };
    let (offset, k) = scan_while(state.residual, &space);
    proof {
        assert forall|i: int| 0 <= i < k@ implies is_space(#[trigger] text[i], true) by {
            assert(space.ensures((text[i],), true));
        }
        if k@ < text.len() {
            assert(space.ensures((text[k@],), false));
        }
        assert(space_run(text, k@, true));
        lemma_take_len(text, k@);
        assert(text =~= text.take(k@) + text.skip(k@));
    }
    let r = if offset == crate::text::byte_len(state.residual) {
        ParseResult::Stop(
            StopBecause::MissingCharacter { expected: ' ', position: state.start_offset },
        )
    } else {
        let ghost head = text.take(k@);
        let ghost tail = text.skip(k@);
        let (last, view) = state.take_front(offset, Ghost(head), Ghost(tail));
        last.finish(view)
    };
    proof {
        assert(space_outcome(state, k@, r));
    }
    r
}

/// Matches the whitespace that stands before the first character of
/// another kind, which may be none. Fails where no such character follows.
pub fn whitespace<'i>(state: ParseState<'i>) -> (r: ParseResult<'i, &'i str>)
    requires
        state.wf(),
    ensures
        space_parsed(state, false, r),
{
    let ghost text = state.text();
    let space = |c: char| -> (b: bool)
        ensures
            b == spec_is_whitespace(c),
        { is_whitespace(c) };
    let (offset, k) = scan_while(state.residual, &space);
    proof {
        assert forall|i: int| 0 <= i < k@ implies is_space(#[trigger] text[i], false) by {
            assert(space.ensures((text[i],), true));
        }
        if k@ < text.len() {
            assert(space.ensures((text[k@],), false));
        }
        assert(space_run(text, k@, false));
        lemma_take_len(text, k@);
        assert(text =~= text.take(k@) + text.skip(k@));
    }
    let r = if offset == crate::text::byte_len(state.residual) {
        ParseResult::Stop(
            StopBecause::MissingCharacter { expected: ' ', position: state.start_offset },
        )
    } else {
        let ghost head = text.take(k@);
        let ghost tail = text.skip(k@);
        let (last, view) = state.take_front(offset, Ghost(head), Ghost(tail));
        last.finish(view)
    };
    proof {
        assert(space_outcome(state, k@, r));
    }
    r
}

/// The rule that matches the string `s`.
pub fn str<'i>(s: &'static str) -> (f: impl Fn(ParseState<'i>) -> ParseResult<'i, &'i str>)
    ensures
        forall|input: ParseState<'i>| input.wf() ==> #[trigger] f.requires((input,)),
        forall|input: ParseState<'i>, r: ParseResult<'i, &'i str>| #[trigger]
            f.ensures((input,), r) ==> match r {
                ParseResult::Pending(state, view) => {
                    &&& occurs_at(input.bytes(), s.spec_bytes(), 0)
                    &&& view@ == s@
                    &&& state.advanced_by(input, s@)
                    &&& state.wf()
                },
                ParseResult::Stop(reason) => {
                    &&& !occurs_at(input.bytes(), s.spec_bytes(), 0)
                    &&& reason == StopBecause::MissingString {
                        message: s,
                        position: input.start_offset,
                    }
                },
            },
{
    move |input: ParseState<'i>| -> (r: ParseResult<'i, &'i str>)
        requires
            input.wf(),
        ensures
            match r {
                ParseResult::Pending(state, view) => {
                    &&& occurs_at(input.bytes(), s.spec_bytes(), 0)
                    &&& view@ == s@
                    &&& state.advanced_by(input, s@)
                    &&& state.wf()
                },
                ParseResult::Stop(reason) => {
                    &&& !occurs_at(input.bytes(), s.spec_bytes(), 0)
                    &&& reason == StopBecause::MissingString {
                        message: s,
                        position: input.start_offset,
                    }
                },
            },
        { input.match_str(s) }
}

/// The rule that matches the character `c`.
pub fn char<'i>(c: char) -> (f: impl Fn(ParseState<'i>) -> ParseResult<'i, char>)
    ensures
        forall|input: ParseState<'i>| input.wf() ==> #[trigger] f.requires((input,)),
        forall|input: ParseState<'i>, r: ParseResult<'i, char>| #[trigger]
            f.ensures((input,), r) ==> match r {
                ParseResult::Pending(state, found) => {
                    &&& input.text().len() > 0
                    &&& input.text()[0] == c
                    &&& found == c
                    &&& state.advanced_by(input, seq![c])
                    &&& state.wf()
                },
                ParseResult::Stop(reason) => {
                    &&& input.text().len() == 0 || input.text()[0] != c
                    &&& reason == StopBecause::MissingCharacter {
                        expected: c,
                        position: input.start_offset,
                    }
                },
            },
{
    move |input: ParseState<'i>| -> (r: ParseResult<'i, char>)
        requires
            input.wf(),
        ensures
            match r {
                ParseResult::Pending(state, found) => {
                    &&& input.text().len() > 0
                    &&& input.text()[0] == c
                    &&& found == c
                    &&& state.advanced_by(input, seq![c])
                    &&& state.wf()
                },
                ParseResult::Stop(reason) => {
                    &&& input.text().len() == 0 || input.text()[0] != c
                    &&& reason == StopBecause::MissingCharacter {
                        expected: c,
                        position: input.start_offset,
                    }
                },
            },
        { input.match_char(c) }
}

/// What `omit` makes of the outcome `found` of its rule: the same cursor or
/// the same failure, without the value.
pub open spec fn omit_outcome<'i, T>(found: ParseResult<'i, T>) -> ParseResult<'i, ()> {
    match found {
        ParseResult::Pending(state, _) => ParseResult::Pending(state, ()),
        ParseResult::Stop(reason) => ParseResult::Stop(reason),
    }
}

/// The rule that matches what `parse` matches and drops its value.
pub fn omit<'i, T, F>(parse: F) -> (f: impl Fn(ParseState<'i>) -> ParseResult<'i, ()>) where
    F: Fn(ParseState<'i>) -> ParseResult<'i, T>,

    ensures
        forall|input: ParseState<'i>|
            parse.requires((input,)) ==> #[trigger] f.requires((input,)),
        forall|input: ParseState<'i>, r: ParseResult<'i, ()>| #[trigger]
            f.ensures((input,), r) ==> exists|found: ParseResult<'i, T>| #[trigger]
                parse.ensures((input,), found) && r == omit_outcome(found),
{
    move |input: ParseState<'i>| -> (r: ParseResult<'i, ()>)
        requires
            parse.requires((input,)),
        ensures
            exists|found: ParseResult<'i, T>| #[trigger]
                parse.ensures((input,), found) && r == omit_outcome(found),
        {
            let found = parse(input);
            let ghost seen = found;
            let r = match found {
                ParseResult::Pending(state, _) => ParseResult::Pending(state, ()),
                ParseResult::Stop(reason) => ParseResult::Stop(reason),
            };
            assert(parse.ensures((input,), seen) && r == omit_outcome(seen));
            r
        }
}

/// The rule that tries `parse` once: a match gives its value, a failure
/// gives `None` and leaves the cursor as it was.
pub fn optional<'i, T, F>(parse: F) -> (f: impl Fn(ParseState<'i>) -> ParseResult<
    'i,
    Option<T>,
>) where F: Fn(ParseState<'i>) -> ParseResult<'i, T>
    ensures
        forall|input: ParseState<'i>|
            parse.requires((input,)) ==> #[trigger] f.requires((input,)),
        forall|input: ParseState<'i>, r: ParseResult<'i, Option<T>>| #[trigger]
            f.ensures((input,), r) ==> exists|found: ParseResult<'i, T>| #[trigger]
                parse.ensures((input,), found) && r == optional_outcome(input, found),
{
    move |input: ParseState<'i>| -> (r: ParseResult<'i, Option<T>>)
        requires
            parse.requires((input,)),
        ensures
            exists|found: ParseResult<'i, T>| #[trigger]
                parse.ensures((input,), found) && r == optional_outcome(input, found),
        {
            let found = parse(input);
            let ghost seen = found;
            let r = match found {
                ParseResult::Pending(state, value) => state.finish(Some(value)),
                ParseResult::Stop(_) => input.finish(None),
            };
            assert(parse.ensures((input,), seen) && r == optional_outcome(input, seen));
            r
        }
}

/// What `make_from_str` makes of the outcome `found` of its rule: the value
/// of a match that used up the input, and else the reason why not.
pub open spec fn from_str_outcome<'i, T>(found: ParseResult<'i, T>) -> Result<T, StopBecause> {
    match found {
        ParseResult::Pending(state, value) => if state.text().len() == 0 {
            Ok(value)
        } else {
            Err(StopBecause::ExpectEof { position: state.start_offset })
        },
        ParseResult::Stop(reason) => Err(reason),
    }
}

/// Parses the whole of `state` with `parser`: the rule has to match and to
/// leave nothing unread.
pub fn make_from_str<'i, T, F>(state: ParseState<'i>, parser: F) -> (r: Result<
    T,
    StopBecause,
>) where F: FnOnce(ParseState<'i>) -> ParseResult<'i, T>
    requires
        parser.requires((state,)),
    ensures
        exists|found: ParseResult<'i, T>| #[trigger]
            parser.ensures((state,), found) && r == from_str_outcome(found),
{
    let found = parser(state);
    let ghost seen = found;
    let r = match found {
        ParseResult::Pending(last, value) => {
            if last.is_empty() {
                Ok(value)
            } else {
                Err(StopBecause::ExpectEof { position: last.start_offset })
            }
        },
        ParseResult::Stop(reason) => Err(reason),
    };
    assert(parser.ensures((state,), seen) && r == from_str_outcome(seen));
    r
}

} // verus!
