//! Three-part matches: an opening delimiter, a body and a closing
//! delimiter, each with its own place in the input.

use super::{NamedPattern, Pattern, StringView};
use crate::results::{ParseResult, StopBecause};
use crate::states::ParseState;
use crate::text::{
    lemma_boundary_unshift, lemma_utf8_len_concat, lemma_view_is_decoding, slice_of, utf8_len,
};
use vstd::prelude::*;
use vstd::string::*;
use vstd::utf8::*;

verus! {

/// A match in three parts.
#[derive(Copy, Clone, Debug, PartialEq, Eq)]
pub struct SurroundPair<'i> {
    /// The opening delimiter.
    pub head: StringView<'i>,
    /// What stands between the delimiters.
    pub body: StringView<'i>,
    /// The closing delimiter.
    pub tail: StringView<'i>,
}

impl<'i> SurroundPair<'i> {
    /// The three parts follow one another without gap or overlap, start
    /// where `origin` stands and end where `end` stands, and together they
    /// are the text that lies between the two cursors.
    pub open spec fn covers(self, origin: ParseState<'i>, end: ParseState<'i>) -> bool {
        &&& self.head.spec_start() == origin.start_offset
        &&& self.body.spec_start() == self.head.spec_end()
        &&& self.tail.spec_start() == self.body.spec_end()
        &&& end.start_offset == self.tail.spec_end()
        &&& end.advanced_by(origin, self.head@ + self.body@ + self.tail@)
    }

    /// Read one after the other by their byte ranges, the three parts of a
    /// pair give back exactly the bytes that its parser consumed.
    pub proof fn lemma_parts_rebuild_span(self, origin: ParseState<'i>, end: ParseState<'i>)
        requires
            self.covers(origin, end),
        ensures
            self.head.spec_start() == origin.start_offset,
            self.head.spec_end() == self.body.spec_start(),
            self.body.spec_end() == self.tail.spec_start(),
            self.tail.spec_end() == end.start_offset,
            end.start_offset - origin.start_offset <= origin.bytes().len(),
            origin.bytes().subrange(0, end.start_offset - origin.start_offset) == encode_utf8(
                self.head@,
            ) + encode_utf8(self.body@) + encode_utf8(self.tail@),
    {
        let consumed = self.head@ + self.body@ + self.tail@;
        lemma_utf8_len_concat(self.head@, self.body@);
        lemma_utf8_len_concat(self.head@ + self.body@, self.tail@);
        crate::text::lemma_encode_concat(self.head@, self.body@);
        crate::text::lemma_encode_concat(self.head@ + self.body@, self.tail@);
        crate::text::lemma_concat_boundary(consumed, end.text());
        lemma_utf8_len_concat(consumed, end.text());
    }
}

/// A pattern for three-part matches: `lhs` opens, and the leftmost match of
/// `rhs` after it closes. Nothing is escaped.
#[derive(Copy, Clone, Debug)]
pub struct SurroundPairPattern<S, E> {
    /// The opening delimiter.
    pub lhs: NamedPattern<S>,
    /// The closing delimiter.
    pub rhs: NamedPattern<E>,
}

/// What a three-part match makes of `state`, where the opening pattern
/// answered `opened` and the closing pattern, asked about what follows the
/// opening, answered `closed`.
pub open spec fn pair_outcome<'i>(
    state: ParseState<'i>,
    opened: Option<(usize, usize)>,
    closed: Option<(usize, usize)>,
    lhs_message: &'static str,
    rhs_message: &'static str,
    r: ParseResult<'i, SurroundPair<'i>>,
) -> bool {
    match opened {
        Some((at, open_end)) if at == 0 => match closed {
            Some((start, end)) => {
                &&& r matches ParseResult::Pending(last, pair)
                &&& pair.head@ == state.front(open_end as nat)
                &&& pair.body@ == slice_of(state.back(open_end as nat), 0, start as int)
                &&& pair.tail@ == slice_of(state.back(open_end as nat), start as int, end as int)
                &&& pair.covers(state, last)
                &&& last.wf()
            },
            None => r == ParseResult::<'i, SurroundPair<'i>>::Stop(
                StopBecause::MissingString {
                    message: rhs_message,
                    position: (state.start_offset + utf8_len(state.text())) as usize,
                },
            ),
        },
        _ => r == ParseResult::<'i, SurroundPair<'i>>::Stop(
            StopBecause::MissingString { message: lhs_message, position: state.start_offset },
        ),
    }
}

impl<S: Pattern, E: Pattern> SurroundPairPattern<S, E> {
    /// The pattern that opens with `start` and closes with `end`.
    pub fn new(start: NamedPattern<S>, end: NamedPattern<E>) -> (r: Self)
        ensures
            r.lhs == start,
            r.rhs == end,
    {
        Self { lhs: start, rhs: end }
    }

    /// `opened` is an answer of the opening pattern for the text of
    /// `state`, and, where it is a match at the very front, `closed` is an
    /// answer of the closing pattern for the text that follows that match.
    pub open spec fn answers<'i>(
        self,
        state: ParseState<'i>,
        opened: Option<(usize, usize)>,
        closed: Option<(usize, usize)>,
    ) -> bool {
        &&& self.lhs.pattern.locates(state.text(), opened)
        &&& match opened {
            Some((at, open_end)) if at == 0 => self.rhs.pattern.locates(
                state.back(open_end as nat),
                closed,
            ),
            _ => closed.is_none(),
        }
    }

    /// Matches the opening delimiter at the front of `state`, then the body
    /// up to the leftmost closing delimiter, then that delimiter.
    pub fn consume_state<'i>(self, state: ParseState<'i>) -> (r: ParseResult<
        'i,
        SurroundPair<'i>,
    >)
        requires
            state.wf(),
        ensures
            exists|opened: Option<(usize, usize)>, closed: Option<(usize, usize)>| #[trigger]
                self.answers(state, opened, closed) && pair_outcome(
                    state,
                    opened,
                    closed,
                    self.lhs.message,
                    self.rhs.message,
                    r,
                ),
    {
        let opened = self.lhs.pattern.find_in(state.residual);
        match opened {
            Some((at, open_end)) if at == 0 => {
                let (body_state, head) = state.advance_split(open_end);
                proof {
                    body_state.lemma_text_after(state, open_end as nat);
                }
                let closed = self.rhs.pattern.find_in(body_state.residual);
                let r = match closed {
                    Some((start, end)) => {
                        proof {
                            lemma_view_is_decoding(body_state.residual);
                            lemma_boundary_unshift(body_state.bytes(), start as int, end as int);
                        }
                        let (tail_state, body) = body_state.advance_split(start);
                        let (last, tail) = tail_state.advance_split(end - start);
                        proof {
                            assert(body_state.bytes().subrange(start as int, end as int)
                                =~= tail_state.bytes().subrange(0, end - start));
                            tail_state.lemma_advanced_twice(body_state, state, head@, body@);
                            last.lemma_advanced_twice(tail_state, state, head@ + body@, tail@);
                            lemma_utf8_len_concat(head@, body@);
                        }
                        last.finish(
                            SurroundPair {
                                head: StringView::new(head, state.start_offset),
                                body: StringView::new(body, body_state.start_offset),
                                tail: StringView::new(tail, tail_state.start_offset),
                            },
                        )
                    },
                    None => ParseResult::Stop(
                        StopBecause::MissingString {
                            message: self.rhs.message,
                            position: body_state.end_offset(),
                        },
                    ),
                };
                proof {
                    crate::text::lemma_utf8_len_concat(head@, body_state.text());
                    assert(self.answers(state, opened, closed));
                    assert(pair_outcome(
                        state,
                        opened,
                        closed,
                        self.lhs.message,
                        self.rhs.message,
                        r,
                    ));
                }
                r
            },
            _ => {
                let r = ParseResult::Stop(
                    StopBecause::MissingString {
                        message: self.lhs.message,
                        position: state.start_offset,
                    },
                );
                proof {
                    assert(self.answers(state, opened, None));
                    assert(pair_outcome(
                        state,
                        opened,
                        None,
                        self.lhs.message,
                        self.rhs.message,
                        r,
                    ));
                }
                r
            },
        }
    }
}

} // verus!
