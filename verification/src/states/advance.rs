//! Moving a cursor forward.

use super::ParseState;
use crate::results::ParseResult;
use crate::text::{
    byte_len, char_width, lemma_boundary_range, lemma_concat_boundary,
    is_span, lemma_same_bytes_same_text, lemma_utf8_len_concat, lemma_view_is_decoding,
    slice_of, spec_char_width, split_str, utf8_len,
};
use vstd::prelude::*;
use vstd::std_specs::convert::{FromSpecImpl, IntoSpec};
use vstd::string::*;
use vstd::utf8::*;

verus! {

/// How far to move a cursor.
#[derive(Copy, Clone, Debug)]
pub enum ParseAdvance {
    /// By a number of bytes.
    Offset(usize),
    /// By the width of a character.
    Character(char),
    /// By the length of a string.
    String(&'static str),
}

impl From<usize> for ParseAdvance {
    fn from(v: usize) -> (r: Self) {
        ParseAdvance::Offset(v)
    }
}

impl FromSpecImpl<usize> for ParseAdvance {
    open spec fn obeys_from_spec() -> bool {
        true
    }

    open spec fn from_spec(v: usize) -> Self {
        ParseAdvance::Offset(v)
    }
}

impl From<char> for ParseAdvance {
    fn from(c: char) -> (r: Self) {
        ParseAdvance::Character(c)
    }
}

impl FromSpecImpl<char> for ParseAdvance {
    open spec fn obeys_from_spec() -> bool {
        true
    }

    open spec fn from_spec(c: char) -> Self {
        ParseAdvance::Character(c)
    }
}

impl From<&'static str> for ParseAdvance {
    fn from(s: &'static str) -> (r: Self) {
        ParseAdvance::String(s)
    }
}

impl FromSpecImpl<&'static str> for ParseAdvance {
    open spec fn obeys_from_spec() -> bool {
        true
    }

    open spec fn from_spec(s: &'static str) -> Self {
        ParseAdvance::String(s)
    }
}

impl ParseAdvance {
    /// The number of bytes that the step stands for.
    pub open spec fn spec_offset(self) -> nat {
        match self {
            ParseAdvance::Offset(v) => v as nat,
            ParseAdvance::Character(c) => spec_char_width(c),
            ParseAdvance::String(s) => utf8_len(s@),
        }
    }

    /// The number of bytes that the step stands for.
    pub fn offset(self) -> (n: usize)
        ensures
            n == self.spec_offset(),
    {
        match self {
            ParseAdvance::Offset(v) => v,
            ParseAdvance::Character(c) => char_width(c),
            ParseAdvance::String(s) => byte_len(s),
        }
    }
}

impl<'i> ParseState<'i> {
    /// The cursor is well formed and `n` bytes into its text is a character
    /// boundary.
    pub open spec fn can_advance(self, n: nat) -> bool {
        &&& self.wf()
        &&& is_char_boundary(self.bytes(), n as int)
    }

    /// The characters held by the first `n` bytes of the text.
    pub open spec fn front(self, n: nat) -> Seq<char> {
        decode_utf8(self.bytes().subrange(0, n as int))
    }

    /// The characters held by the text after its first `n` bytes.
    pub open spec fn back(self, n: nat) -> Seq<char> {
        decode_utf8(self.bytes().subrange(n as int, self.bytes().len() as int))
    }

    /// `self` is `origin` moved forward by `n` bytes: the offset grows by
    /// `n`, the text loses its first `n` bytes, and nothing else changes.
    pub open spec fn is_advance_of(self, origin: ParseState<'i>, n: nat) -> bool {
        &&& self.start_offset == origin.start_offset + n
        &&& self.bytes() == origin.bytes().subrange(n as int, origin.bytes().len() as int)
        &&& self.advanced_by(origin, origin.front(n))
        &&& self.wf()
    }

    /// A text that starts with `a` can be advanced over `a`, and what is
    /// passed over is `a`.
    pub proof fn lemma_front(self, a: Seq<char>, b: Seq<char>)
        requires
            self.text() == a + b,
        ensures
            is_char_boundary(self.bytes(), utf8_len(a) as int),
            self.front(utf8_len(a)) == a,
            self.bytes().subrange(utf8_len(a) as int, self.bytes().len() as int) == encode_utf8(b),
    {
        lemma_concat_boundary(a, b);
        encode_utf8_decode_utf8(a);
    }

    /// An advance by `n` bytes adds exactly `n` to the offset and takes
    /// exactly `n` bytes from the text; the end of the input stays where it
    /// was.
    pub proof fn lemma_advance_moves_by(self, origin: ParseState<'i>, n: nat)
        requires
            origin.can_advance(n),
            self.is_advance_of(origin, n),
        ensures
            self.start_offset == origin.start_offset + n,
            utf8_len(self.text()) + n == utf8_len(origin.text()),
            self.start_offset + utf8_len(self.text()) == origin.start_offset + utf8_len(
                origin.text(),
            ),
            self.bytes() == origin.bytes().skip(n as int),
    {
        lemma_view_is_decoding(origin.residual);
        lemma_boundary_range(origin.bytes(), n as int);
    }

    /// Two advances in a row make one advance over both texts.
    pub proof fn lemma_advanced_twice(
        self,
        mid: ParseState<'i>,
        origin: ParseState<'i>,
        a: Seq<char>,
        b: Seq<char>,
    )
        requires
            mid.advanced_by(origin, a),
            self.advanced_by(mid, b),
        ensures
            self.advanced_by(origin, a + b),
    {
        lemma_utf8_len_concat(a, b);
        assert(origin.text() =~= (a + b) + self.text());
    }

    /// After an advance by `n` bytes, the text is what followed them.
    pub proof fn lemma_text_after(self, origin: ParseState<'i>, n: nat)
        requires
            self.is_advance_of(origin, n),
        ensures
            self.text() == origin.back(n),
    {
        lemma_view_is_decoding(self.residual);
    }

    /// After an advance over `a`, the text is what followed `a`.
    pub proof fn lemma_rest(self, origin: ParseState<'i>, a: Seq<char>, b: Seq<char>)
        requires
            origin.text() == a + b,
            self.is_advance_of(origin, utf8_len(a)),
        ensures
            self.text() == b,
            self.advanced_by(origin, a),
    {
        origin.lemma_front(a, b);
        lemma_same_bytes_same_text(self.text(), b);
    }

    /// Moves the cursor forward by `term`: a number of bytes, the width of a
    /// character, or the length of a string.
    pub fn advance<T>(self, term: T) -> (r: ParseState<'i>) where T: Into<ParseAdvance>
        requires
            <T as IntoSpec<ParseAdvance>>::obeys_into_spec(),
            self.can_advance(term.into_spec().spec_offset()),
        ensures
            r.is_advance_of(self, term.into_spec().spec_offset()),
    {
        let step: ParseAdvance = term.into();
        self.advance_split(step.offset()).0
    }

    /// Moves the cursor forward by `offset` bytes and hands back the text
    /// that was passed over.
    pub fn advance_view(self, offset: usize) -> (r: ParseResult<'i, &'i str>)
        requires
            self.can_advance(offset as nat),
        ensures
            r matches ParseResult::Pending(state, view) && state.is_advance_of(self, offset as nat)
                && view@ == self.front(offset as nat),
    {
        let (state, view) = self.advance_split(offset);
        state.finish(view)
    }

    /// Passes over the first `end` bytes of the text in two steps: the bytes
    /// before `start`, then those from `start` to `end`. The result holds the
    /// cursor and the text passed over after the first step, then after the
    /// second.
    pub fn advance_span(self, start: usize, end: usize) -> (r: (
        ParseState<'i>,
        &'i str,
        ParseState<'i>,
        &'i str,
    ))
        requires
            self.wf(),
            is_span(self.bytes(), start as int, end as int),
        ensures
            r.0.advanced_by(self, r.1@),
            r.2.advanced_by(r.0, r.3@),
            r.2.advanced_by(self, r.1@ + r.3@),
            r.0.wf(),
            r.2.wf(),
            r.1@ == slice_of(self.text(), 0, start as int),
            r.3@ == slice_of(self.text(), start as int, end as int),
            r.0.start_offset == self.start_offset + start,
            r.2.start_offset == self.start_offset + end,
    {
        proof {
            lemma_view_is_decoding(self.residual);
            crate::text::lemma_boundary_unshift(self.bytes(), start as int, end as int);
        }
        let (mid, before) = self.advance_split(start);
        let (last, inside) = mid.advance_split(end - start);
        proof {
            assert(self.bytes().subrange(start as int, end as int) =~= mid.bytes().subrange(
                0,
                end - start,
            ));
            last.lemma_advanced_twice(mid, self, before@, inside@);
        }
        (mid, before, last, inside)
    }

    /// Moves the cursor forward by `offset` bytes; the second component is
    /// the text that was passed over.
    pub fn advance_split(self, offset: usize) -> (r: (ParseState<'i>, &'i str))
        requires
            self.can_advance(offset as nat),
        ensures
            r.0.is_advance_of(self, offset as nat),
            r.1@ == self.front(offset as nat),
    {
        let (view, rest) = split_str(self.residual, offset);
        proof {
            lemma_view_is_decoding(view);
            lemma_view_is_decoding(self.residual);
            lemma_boundary_range(self.bytes(), offset as int);
            lemma_utf8_len_concat(view@, rest@);
        }
        let state = ParseState {
            residual: rest,
            start_offset: self.start_offset + offset,
            stop_reason: self.stop_reason,
        };
        (state, view)
    }
}

} // verus!
