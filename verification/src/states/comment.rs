//! Comments as matchers on the cursor.

use super::ParseState;
use crate::helpers::comment::{
    block_outcome, block_split, line_outcome, line_rest, CommentBlock, CommentLine,
};
use crate::results::{ParseResult, StopBecause};
use crate::text::{slice_of, utf8_len};
use vstd::prelude::*;
use vstd::string::*;
use vstd::utf8::*;

verus! {

/// `r` is what `match_comment_line` makes of `input`, whose text is `head`
/// followed by `rest`: the line, head included.
pub open spec fn line_matched<'i>(
    input: ParseState<'i>,
    head: Seq<char>,
    rest: Seq<char>,
    r: ParseResult<'i, &'i str>,
) -> bool {
    exists|k: int| #[trigger]
        line_rest(rest, k) && {
            &&& r matches ParseResult::Pending(state, view)
            &&& view@ == head + rest.take(k)
            &&& state.advanced_by(input, view@)
            &&& state.wf()
        }
}

/// `r` is what `match_comment_block` makes of `input`, whose text is the
/// marker `head` followed by `rest`.
pub open spec fn block_matched<'i>(
    input: ParseState<'i>,
    head: Seq<char>,
    rest: Seq<char>,
    tail: &'static str,
    r: ParseResult<'i, ()>,
) -> bool {
    exists|found: Option<int>| #[trigger]
        block_split(rest, tail@, found) && match found {
            Some(at) => {
                &&& r matches ParseResult::Pending(state, _)
                &&& state.advanced_by(input, head + slice_of(rest, 0, at) + tail@)
                &&& state.wf()
            },
            None => r == ParseResult::<'i, ()>::Stop(
                StopBecause::MissingString {
                    message: tail,
                    position: (input.start_offset + utf8_len(head)) as usize,
                },
            ),
        }
}

impl<'i> ParseState<'i> {
    /// Matches a comment that begins with `head` and runs to the end of the
    /// line or of the input. What ends the line is left in the input.
    pub fn match_comment_line(self, head: &'static str) -> (r: ParseResult<'i, &'i str>)
        requires
            self.wf(),
        ensures
            match self.match_prefix(head@) {
                Some(rest) => line_matched(self, head@, rest, r),
                None => r == ParseResult::<'i, &'i str>::Stop(
                    StopBecause::MissingString { message: head, position: self.start_offset },
                ),
            },
    {
        match CommentLine::new(head).call_once(self) {
            ParseResult::Pending(state, pair) => {
                let ghost rest = self.match_prefix(head@).unwrap();
                let ghost k = choose|k: int| #[trigger]
                    line_rest(rest, k) && line_outcome(self, head@, rest, k, ParseResult::Pending(state, pair));
                let ghost line = pair.head@ + pair.body@;
                proof {
                    assert(line + pair.tail@ =~= line);
                    pair.lemma_parts_rebuild_span(self, state);
                }
                let length = state.start_offset - self.start_offset;
                let (last, view) = self.take_front(length, Ghost(line), Ghost(state.text()));
                let r = last.finish(view);
                proof {
                    assert(line_rest(rest, k));
                }
                r
            },
            ParseResult::Stop(reason) => ParseResult::Stop(reason),
        }
    }

    /// Matches a comment that begins with the marker `head` and ends with
    /// the first marker `tail` after it.
    pub fn match_comment_block(self, head: &'static str, tail: &'static str) -> (r: ParseResult<
        'i,
        (),
    >)
        requires
            self.wf(),
        ensures
            match self.match_prefix(head@) {
                Some(rest) => block_matched(self, head@, rest, tail, r),
                None => r == ParseResult::<'i, ()>::Stop(
                    StopBecause::MissingString { message: head, position: self.start_offset },
                ),
            },
    {
        let found = CommentBlock { head, tail, nested: false }.call_once(self);
        let ghost seen = found;
        let r = match found {
            ParseResult::Pending(state, _) => state.finish(()),
            ParseResult::Stop(reason) => ParseResult::Stop(reason),
        };
        proof {
            if self.match_prefix(head@).is_some() {
                let rest = self.match_prefix(head@).unwrap();
                let at = choose|at: Option<int>| #[trigger]
                    block_split(rest, tail@, at) && block_outcome(self, head@, rest, tail, at, seen);
                assert(block_split(rest, tail@, at));
            }
        }
        r
    }
}

} // verus!
