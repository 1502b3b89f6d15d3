//! Comments: to the end of the line, or between two markers.

use crate::patterns::surround_pair::SurroundPair;
use crate::patterns::{Pattern, StringView};
use crate::results::{ParseResult, StopBecause};
use crate::states::ParseState;
use crate::text::{
    first_occurrence, lemma_same_bytes_same_text, lemma_utf8_len_concat,
    lemma_view_is_decoding, never_occurs, scan_run, slice_of, utf8_len,
};
use vstd::prelude::*;
use vstd::string::*;
use vstd::utf8::*;

verus! {

/// `c` is a carriage return or a line feed.
pub open spec fn is_line_end(c: char) -> bool {
    c == '\r' || c == '\n'
}

/// The first `k` characters of `text` are what is left of its first line:
/// none of them ends a line, and the next one, if there is one, does.
pub open spec fn line_rest(text: Seq<char>, k: int) -> bool {
    &&& 0 <= k <= text.len()
    &&& forall|i: int| 0 <= i < k ==> !is_line_end(#[trigger] text[i])
    &&& k < text.len() ==> is_line_end(text[k])
}

/// What a line comment makes of `input`, whose text is `head` followed by
/// `rest`, of which the first `k` characters belong to the line.
pub open spec fn line_outcome<'i>(
    input: ParseState<'i>,
    head: Seq<char>,
    rest: Seq<char>,
    k: int,
    r: ParseResult<'i, SurroundPair<'i>>,
) -> bool {
    &&& r matches ParseResult::Pending(state, pair)
    &&& pair.head@ == head
    &&& pair.body@ == rest.take(k)
    &&& pair.tail@.len() == 0
    &&& pair.covers(input, state)
    &&& state.wf()
}

/// `r` is what a line comment makes of `input`, whose text is `head`
/// followed by `rest`.
pub open spec fn line_parsed<'i>(
    input: ParseState<'i>,
    head: Seq<char>,
    rest: Seq<char>,
    r: ParseResult<'i, SurroundPair<'i>>,
) -> bool {
    exists|k: int| #[trigger] line_rest(rest, k) && line_outcome(input, head, rest, k, r)
}

/// A comment that runs from `head` to the end of the line.
#[derive(Clone, Copy, Debug)]
pub struct CommentLine {
    /// What introduces the comment.
    pub head: &'static str,
}

impl CommentLine {
    /// The line comment introduced by `head`.
    pub fn new(head: &'static str) -> (r: Self)
        ensures
            r.head == head,
    {
        Self { head }
    }

    /// Matches the head and then everything up to the end of the line or
    /// of the input. What ends the line is left in the input; the tail of
    /// the pair is empty.
    pub fn call_once<'i>(self, input: ParseState<'i>) -> (r: ParseResult<'i, SurroundPair<'i>>)
        requires
            input.wf(),
        ensures
            match input.match_prefix(self.head@) {
                Some(rest) => line_parsed(input, self.head@, rest, r),
                None => r == ParseResult::<'i, SurroundPair<'i>>::Stop(
                    StopBecause::MissingString {
                        message: self.head,
                        position: input.start_offset,
                    },
                ),
            },
    {
        proof {
            input.lemma_prefix_bytes(self.head@);
        }
        let (state, head) = match input.match_str(self.head) {
            ParseResult::Pending(s, v) => (s, v),
            ParseResult::Stop(reason) => {
                return ParseResult::Stop(reason);
            },
        };
        let ghost rest = state.text();
        proof {
            assert((self.head@ + rest).skip(self.head@.len() as int) =~= rest);
        }
        let line_end = |c: char| -> (b: bool)
            ensures
                b == is_line_end(c),
            { c == '\r' || c == '\n' };
        let (offset, k) = scan_run(state.residual, &line_end, false);
        proof {
            assert forall|i: int| 0 <= i < k@ implies !is_line_end(#[trigger] rest[i]) by {
                assert(line_end.ensures((rest[i],), false));
            }
            if k@ < rest.len() {
                assert(line_end.ensures((rest[k@],), true));
            }
            assert(line_rest(rest, k@));
            assert(rest =~= rest.take(k@) + rest.skip(k@));
        }
        let ghost line = rest.take(k@);
        let ghost after = rest.skip(k@);
        let (last, body) = state.take_front(offset, Ghost(line), Ghost(after));
        proof {
            assert(after =~= Seq::<char>::empty() + after);
            assert(utf8_len(Seq::<char>::empty()) == 0);
        }
        let (_, empty) = last.take_front(0, Ghost(Seq::<char>::empty()), Ghost(after));
        proof {
            last.lemma_advanced_twice(state, input, head@, body@);
            lemma_utf8_len_concat(head@, body@);
            assert(head@ + body@ + empty@ =~= head@ + body@);
        }
        let r = last.finish(
            SurroundPair {
                head: StringView::new(head, input.start_offset),
                body: StringView::new(body, state.start_offset),
                tail: StringView::new(empty, last.start_offset),
            },
        );
        proof {
            assert(line_outcome(input, self.head@, rest, k@, r));
        }
        r
    }
}

/// The closing marker `tail` occurs in `rest` first at byte `found`, or
/// nowhere.
pub open spec fn block_split(rest: Seq<char>, tail: Seq<char>, found: Option<int>) -> bool {
    match found {
        Some(at) => first_occurrence(encode_utf8(rest), encode_utf8(tail), at),
        None => never_occurs(encode_utf8(rest), encode_utf8(tail)),
    }
}

/// What a block comment makes of `input`, whose text is the marker `head`
/// followed by `rest`, in which the marker `tail` occurs as `found` says.
pub open spec fn block_outcome<'i>(
    input: ParseState<'i>,
    head: Seq<char>,
    rest: Seq<char>,
    tail: &'static str,
    found: Option<int>,
    r: ParseResult<'i, SurroundPair<'i>>,
) -> bool {
    match found {
        Some(at) => {
            &&& r matches ParseResult::Pending(state, pair)
            &&& pair.head@ == head
            &&& pair.body@ == slice_of(rest, 0, at)
            &&& pair.tail@ == tail@
            &&& pair.covers(input, state)
            &&& state.wf()
        },
        None => r == ParseResult::<'i, SurroundPair<'i>>::Stop(
            StopBecause::MissingString {
                message: tail,
                position: (input.start_offset + utf8_len(head)) as usize,
            },
        ),
    }
}

/// `r` is what a block comment makes of `input`, whose text is the marker
/// `head` followed by `rest`.
pub open spec fn block_parsed<'i>(
    input: ParseState<'i>,
    head: Seq<char>,
    rest: Seq<char>,
    tail: &'static str,
    r: ParseResult<'i, SurroundPair<'i>>,
) -> bool {
    exists|found: Option<int>| #[trigger]
        block_split(rest, tail@, found) && block_outcome(input, head, rest, tail, found, r)
}

/// A comment that runs from the marker `head` to the marker `tail`.
#[derive(Clone, Copy, Debug)]
pub struct CommentBlock {
    /// The opening marker.
    pub head: &'static str,
    /// The closing marker.
    pub tail: &'static str,
    /// Whether comments may stand inside comments. Only comments that do
    /// not nest can be parsed.
    pub nested: bool,
}

impl CommentBlock {
    /// Matches the opening marker, then everything up to the first closing
    /// marker, then that marker.
    pub fn call_once<'i>(self, input: ParseState<'i>) -> (r: ParseResult<'i, SurroundPair<'i>>)
        requires
            input.wf(),
            !self.nested,
        ensures
            match input.match_prefix(self.head@) {
                Some(rest) => block_parsed(input, self.head@, rest, self.tail, r),
                None => r == ParseResult::<'i, SurroundPair<'i>>::Stop(
                    StopBecause::MissingString {
                        message: self.head,
                        position: input.start_offset,
                    },
                ),
            },
    {
        proof {
            input.lemma_prefix_bytes(self.head@);
        }
        let (state, head) = match input.match_str(self.head) {
            ParseResult::Pending(s, v) => (s, v),
            ParseResult::Stop(reason) => {
                return ParseResult::Stop(reason);
            },
        };
        let ghost rest = state.text();
        proof {
            assert((self.head@ + rest).skip(self.head@.len() as int) =~= rest);
        }
        match self.tail.find_in(state.residual) {
            Some((at, end)) => {
                let (s_tail, body, last, tail) = state.advance_span(at, end);
                proof {
                    lemma_view_is_decoding(state.residual);
                    lemma_view_is_decoding(tail);
                    lemma_view_is_decoding(self.tail);
                    decode_utf8_encode_utf8(self.tail.spec_bytes());
                    assert(state.bytes().subrange(at as int, end as int)
                        == self.tail.spec_bytes());
                    lemma_same_bytes_same_text(tail@, self.tail@);
                    s_tail.lemma_advanced_twice(state, input, head@, body@);
                    last.lemma_advanced_twice(s_tail, input, head@ + body@, tail@);
                    lemma_utf8_len_concat(head@, body@);
                }
                let r = last.finish(
                    SurroundPair {
                        head: StringView::new(head, input.start_offset),
                        body: StringView::new(body, state.start_offset),
                        tail: StringView::new(tail, s_tail.start_offset),
                    },
                );
                proof {
                    assert(block_split(rest, self.tail@, Some(at as int)));
                    assert(block_outcome(
                        input,
                        self.head@,
                        rest,
                        self.tail,
                        Some(at as int),
                        r,
                    ));
                }
                r
            },
            None => {
                let r = ParseResult::Stop(
                    StopBecause::MissingString {
                        message: self.tail,
                        position: state.start_offset,
                    },
                );
                proof {
                    assert(block_split(rest, self.tail@, None));
                    assert(block_outcome(input, self.head@, rest, self.tail, None, r));
                }
                r
            },
        }
    }
}

} // verus!
