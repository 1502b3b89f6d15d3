//! The cursor: what is left of the input, and how far into it we are.

use crate::results::{ParseResult, StopBecause};
use crate::text::{
    byte_len, is_span, lemma_boundary_range, lemma_boundary_unshift, lemma_concat_boundary,
    lemma_prefix_boundary, lemma_utf8_len_concat, lemma_view_is_decoding, occurs_at, slice_of,
    split_str, utf8_len,
};
use core::ops::Range;
use vstd::prelude::*;
use vstd::std_specs::iter::IteratorSpec;
use vstd::string::*;
use vstd::utf8::*;

pub mod advance;
pub mod builtin;
pub mod choice;
pub mod combine;
pub mod comment;

verus! {

/// A cursor together with the value parsed so far.
pub type Parsed<'i, T> = (ParseState<'i>, T);

/// A position in the input: the text still to be read, the number of bytes
/// already consumed, and the last reason an alternative failed.
#[derive(Copy, Clone, Debug, Eq, PartialEq)]
pub struct ParseState<'i> {
    /// The unread rest of the input.
    pub residual: &'i str,
    /// Number of bytes of the input that lie before `residual`.
    pub start_offset: usize,
    /// The failure of the alternative attempted last, if any.
    pub stop_reason: Option<StopBecause>,
}

impl<'i> ParseState<'i> {
    /// The unread characters.
    pub open spec fn text(self) -> Seq<char> {
        self.residual@
    }

    /// The unread bytes.
    pub open spec fn bytes(self) -> Seq<u8> {
        self.residual.spec_bytes()
    }

    /// The offset of the end of the input can be represented.
    pub open spec fn wf(self) -> bool {
        self.start_offset + utf8_len(self.text()) <= usize::MAX
    }

    /// `self` is `origin` after the characters `taken` have been consumed
    /// from its front.
    pub open spec fn advanced_by(self, origin: ParseState<'i>, taken: Seq<char>) -> bool {
        &&& origin.text() == taken + self.text()
        &&& self.start_offset == origin.start_offset + utf8_len(taken)
        &&& self.stop_reason == origin.stop_reason
    }

    /// What is left of the text once the characters `prefix` are taken from
    /// its front, or `None` where the text does not start with them.
    pub open spec fn match_prefix(self, prefix: Seq<char>) -> Option<Seq<char>> {
        if prefix.len() <= self.text().len() && self.text().take(prefix.len() as int) == prefix {
            Some(self.text().skip(prefix.len() as int))
        } else {
            None
        }
    }

    /// The text starts with the characters `prefix` exactly when its bytes
    /// start with the bytes of `prefix`.
    pub proof fn lemma_prefix_bytes(self, prefix: Seq<char>)
        ensures
            self.match_prefix(prefix).is_some() <==> occurs_at(
                self.bytes(),
                encode_utf8(prefix),
                0,
            ),
    {
        let text = self.text();
        let n = prefix.len() as int;
        if self.match_prefix(prefix).is_some() {
            assert(text =~= prefix + text.skip(n));
            lemma_concat_boundary(prefix, text.skip(n));
            lemma_utf8_len_concat(prefix, text.skip(n));
        }
        if occurs_at(self.bytes(), encode_utf8(prefix), 0) {
            let m = utf8_len(prefix) as int;
            encode_utf8_valid_utf8(prefix);
            encode_utf8_valid_utf8(text);
            lemma_prefix_boundary(encode_utf8(prefix), self.bytes());
            decode_utf8_split(self.bytes(), m);
            encode_utf8_decode_utf8(prefix);
            encode_utf8_decode_utf8(text);
            let rest = decode_utf8(self.bytes().subrange(m, self.bytes().len() as int));
            assert(text =~= prefix + rest);
            assert(text.take(n) =~= prefix);
        }
    }

    /// A cursor at the start of `input`.
    pub fn new(input: &'i str) -> (r: Self)
        ensures
            r.residual == input,
            r.start_offset == 0,
            r.stop_reason.is_none(),
            r.wf(),
    {
        let _ = byte_len(input);
        ParseState { residual: input, start_offset: 0, stop_reason: None }
    }

    /// The same cursor, counting its position from `offset`.
    pub fn with_start_offset(self, offset: usize) -> (r: Self)
        ensures
            r.residual == self.residual,
            r.start_offset == offset,
            r.stop_reason == self.stop_reason,
    {
        let mut state = self;
        state.start_offset = offset;
        state
    }

    /// The offset of the end of the input.
    pub fn end_offset(&self) -> (r: usize)
        requires
            self.wf(),
        ensures
            r == self.start_offset + utf8_len(self.text()),
    {
        self.start_offset + byte_len(self.residual)
    }

    /// A match that ends at this cursor and carries `value`.
    pub fn finish<T>(self, value: T) -> (r: ParseResult<'i, T>)
        ensures
            r == ParseResult::Pending(self, value),
    {
        ParseResult::Pending(self, value)
    }

    /// Whether the input is used up.
    pub fn is_empty(&self) -> (b: bool)
        ensures
            b == (self.text().len() == 0),
    {
        self.residual.is_empty()
    }

    /// The failure recorded in the cursor, or `Uninitialized` if there is
    /// none.
    pub fn get_error(self) -> (r: StopBecause)
        ensures
            r == (match self.stop_reason {
                Some(s) => s,
                None => StopBecause::Uninitialized,
            }),
    {
        match self.stop_reason {
            Some(s) => s,
            None => StopBecause::Uninitialized,
        }
    }

    /// Records `error` in the cursor.
    pub fn set_error(&mut self, error: StopBecause)
        ensures
            final(self).stop_reason == Some(error),
            final(self).residual == old(self).residual,
            final(self).start_offset == old(self).start_offset,
    {
        self.stop_reason = Some(error);
    }

    /// The text that the bytes of `range` hold, counted from the cursor.
    /// `None` where the range does not lie within the text or cuts a
    /// character in two.
    pub fn get_string(&self, range: Range<usize>) -> (r: Option<&'i str>)
        ensures
            r.is_some() <==> is_span(self.bytes(), range.start as int, range.end as int),
            r matches Some(view) ==> view@ == slice_of(
                self.text(),
                range.start as int,
                range.end as int,
            ),
    {
        let s = self.residual;
        let start = range.start;
        let end = range.end;
        proof {
            lemma_view_is_decoding(s);
            if is_char_boundary(s.spec_bytes(), start as int) {
                lemma_boundary_range(s.spec_bytes(), start as int);
            }
            if is_char_boundary(s.spec_bytes(), end as int) {
                lemma_boundary_range(s.spec_bytes(), end as int);
            }
        }
        if start <= end && s.is_char_boundary(start) && s.is_char_boundary(end) {
            proof {
                lemma_boundary_unshift(s.spec_bytes(), start as int, end as int);
            }
            let (_, rest) = split_str(s, start);
            let (view, _) = split_str(rest, end - start);
            proof {
                lemma_view_is_decoding(view);
                assert(s.spec_bytes().subrange(start as int, end as int)
                    =~= rest.spec_bytes().subrange(0, end - start));
            }
            Some(view)
        } else {
            None
        }
    }

    /// The character number `nth` of the text, counted from zero.
    pub fn get_character(&self, nth: usize) -> (r: Option<char>)
        ensures
            r == (if nth < self.text().len() {
                Some(self.text()[nth as int])
            } else {
                None
            }),
    {
        broadcast use vstd::string::group_string_axioms;

        let ghost text = self.text();
        let mut it = self.residual.chars();
        let mut i: usize = 0;
        proof {
            assert(text.skip(0) =~= text);
        }
        loop
            invariant
                text == self.text(),
                i <= nth,
                i <= text.len(),
                it.remaining() == text.skip(i as int),
            decreases nth - i,
        {
            match it.next() {
                Some(c) => {
                    proof {
                        assert(c == text[i as int]);
                        assert(text.skip(i as int).drop_first() =~= text.skip(i + 1));
                    }
                    if i == nth {
                        return Some(c);
                    }
                    i += 1;
                },
                None => {
                    return None;
                },
            }
        }
    }

    /// The byte range of the input that lies between `start` and this
    /// cursor.
    pub fn away_from(&self, start: ParseState) -> (r: Range<usize>)
        ensures
            r.start == start.start_offset,
            r.end == self.start_offset,
    {
        start.start_offset..self.start_offset
    }
}

} // verus!
