//! Patterns: anything that can locate a match of itself in a text, be it a
//! character, a string or a compiled matcher; a pattern with a name for
//! diagnostics; and a slice of the input that remembers where it came from.

use crate::results::{ParseResult, StopBecause};
use crate::states::ParseState;
use crate::text::{
    byte_len, char_width, find_bytes, first_char_at, first_occurrence, is_span,
    lemma_concat_boundary, lemma_occurrence_boundaries, lemma_utf8_len_concat,
    lemma_utf8_len_zero, lemma_view_is_decoding, never_occurs, occurs_at, scan_while,
    spec_char_width,
    utf8_len,
};
use core::ops::Range;
use vstd::prelude::*;
use vstd::string::*;
use vstd::utf8::*;

pub mod bracket_pair;
pub mod surround_pair;
pub mod zero_base_byte;

verus! {

/// Something that can locate a match of itself in a text.
pub trait Pattern {
    /// `found` is an answer that the pattern can give for the text `hay`:
    /// the byte offsets at which its leftmost match starts and ends, or
    /// `None` where it matches nowhere.
    spec fn locates(&self, hay: Seq<char>, found: Option<(usize, usize)>) -> bool;

    /// Looks for the leftmost match of the pattern in `hay`.
    fn find_in(&self, hay: &str) -> (found: Option<(usize, usize)>)
        ensures
            self.locates(hay@, found),
            found matches Some((start, end)) ==> is_span(
                encode_utf8(hay@),
                start as int,
                end as int,
            ),
    ;
}

impl Pattern for char {
    open spec fn locates(&self, hay: Seq<char>, found: Option<(usize, usize)>) -> bool {
        match found {
            Some((start, end)) => exists|k: int| #[trigger]
                first_char_at(hay, *self, k) && start == utf8_len(hay.take(k)) && end == start
                    + spec_char_width(*self),
            None => forall|k: int| 0 <= k < hay.len() ==> hay[k] != *self,
        }
    }

    fn find_in(&self, hay: &str) -> (found: Option<(usize, usize)>) {
        let wanted = *self;
        let other = |c: char| -> (b: bool)
            ensures
                b == (c != wanted),
            { c != wanted };
        let (offset, k) = scan_while(hay, &other);
        proof {
            assert(hay@ =~= hay@.take(k@) + hay@.skip(k@));
            lemma_utf8_len_concat(hay@.take(k@), hay@.skip(k@));
            lemma_concat_boundary(hay@.take(k@), hay@.skip(k@));
        }
        if offset == byte_len(hay) {
            proof {
                lemma_utf8_len_zero(hay@.skip(k@));
            }
            None
        } else {
            proof {
                let rest = hay@.skip(k@);
                assert(rest =~= seq![wanted] + rest.drop_first());
                assert(utf8_len(seq![wanted]) == spec_char_width(wanted)) by {
                    assert(seq![wanted].drop_first() =~= Seq::<char>::empty());
                    reveal_with_fuel(encode_utf8, 2);
                }
                lemma_utf8_len_concat(seq![wanted], rest.drop_first());
                assert(hay@.take(k@ + 1) =~= hay@.take(k@) + seq![wanted]);
                assert(hay@ =~= hay@.take(k@ + 1) + hay@.skip(k@ + 1));
                lemma_utf8_len_concat(hay@.take(k@), seq![wanted]);
                lemma_concat_boundary(hay@.take(k@ + 1), hay@.skip(k@ + 1));
                assert(first_char_at(hay@, wanted, k@));
            }
            Some((offset, offset + char_width(wanted)))
        }
    }
}

impl<'p> Pattern for &'p str {
    open spec fn locates(&self, hay: Seq<char>, found: Option<(usize, usize)>) -> bool {
        match found {
            Some((start, end)) => {
                &&& first_occurrence(encode_utf8(hay), self.spec_bytes(), start as int)
                &&& end == start + utf8_len(self@)
            },
            None => never_occurs(encode_utf8(hay), self.spec_bytes()),
        }
    }

    fn find_in(&self, hay: &str) -> (found: Option<(usize, usize)>) {
        let _ = byte_len(hay);
        match find_bytes(hay.as_bytes(), self.as_bytes()) {
            Some(at) => {
                proof {
                    lemma_view_is_decoding(hay);
                    lemma_view_is_decoding(*self);
                    if self.spec_bytes().len() == 0 {
                        assert(hay.spec_bytes().subrange(0, 0) =~= self.spec_bytes());
                        assert(occurs_at(hay.spec_bytes(), self.spec_bytes(), 0));
                        assert(at == 0);
                    }
                    lemma_occurrence_boundaries(hay.spec_bytes(), self.spec_bytes(), at as int);
                }
                Some((at, at + byte_len(self)))
            },
            None => None,
        }
    }
}

/// A pattern together with the name under which its absence is reported.
#[derive(Copy, Clone, Debug)]
pub struct NamedPattern<P> {
    /// The pattern to match.
    pub pattern: P,
    /// The name reported where the pattern does not match.
    pub message: &'static str,
}

/// A slice of the input together with the byte offset at which it starts.
#[derive(Copy, Clone, Debug, PartialEq, Eq)]
pub struct StringView<'i> {
    start_offset: usize,
    string: &'i str,
}

impl<'i> View for StringView<'i> {
    type V = Seq<char>;

    closed spec fn view(&self) -> Seq<char> {
        self.string@
    }
}

impl<'i> StringView<'i> {
    /// The byte offset at which the slice starts in the input.
    pub closed spec fn spec_start(self) -> nat {
        self.start_offset as nat
    }

    /// The byte offset at which the slice ends in the input.
    pub open spec fn spec_end(self) -> nat {
        self.spec_start() + utf8_len(self@)
    }

    /// The slice `string`, which starts at byte `start_offset` of the input.
    pub fn new(string: &'i str, start_offset: usize) -> (r: Self)
        ensures
            r@ == string@,
            r.spec_start() == start_offset,
    {
        Self { start_offset, string }
    }

    /// The byte offset at which the slice starts.
    pub fn start_offset(&self) -> (r: usize)
        ensures
            r == self.spec_start(),
    {
        self.start_offset
    }

    /// The byte offset at which the slice ends.
    pub fn end_offset(&self) -> (r: usize)
        requires
            self.spec_end() <= usize::MAX,
        ensures
            r == self.spec_end(),
    {
        self.start_offset + byte_len(self.string)
    }

    /// The byte range that the slice covers in the input.
    pub fn as_range(&self) -> (r: Range<usize>)
        requires
            self.spec_end() <= usize::MAX,
        ensures
            r.start == self.spec_start(),
            r.end == self.spec_end(),
    {
        self.start_offset..self.end_offset()
    }

    /// The text of the slice.
    pub fn as_str(&self) -> (r: &'i str)
        ensures
            r@ == self@,
    {
        self.string
    }

    /// A copy of the text of the slice.
    pub fn as_string(&self) -> (r: String)
        ensures
            r@ == self@,
    {
        self.string.to_owned()
    }
}

/// What matching a pattern at the front of `input` gives, where the pattern
/// answered `found`: the match must start at the very front.
pub open spec fn prefix_outcome<'i>(
    input: ParseState<'i>,
    found: Option<(usize, usize)>,
    message: &'static str,
    r: ParseResult<'i, StringView<'i>>,
) -> bool {
    match found {
        Some((start, end)) if start == 0 => {
            &&& r matches ParseResult::Pending(state, view)
            &&& state.is_advance_of(input, end as nat)
            &&& view@ == input.front(end as nat)
            &&& view.spec_start() == input.start_offset
        },
        _ => r == ParseResult::<'i, StringView<'i>>::Stop(
            StopBecause::MissingString { message, position: input.start_offset },
        ),
    }
}

impl<P: Pattern> NamedPattern<P> {
    /// The pattern `pattern`, reported as `message`.
    pub fn new(pattern: P, message: &'static str) -> (r: Self)
        ensures
            r.pattern == pattern,
            r.message == message,
    {
        Self { pattern, message }
    }

    /// Matches the pattern at the front of `input`.
    pub fn consume<'i>(&self, input: ParseState<'i>) -> (r: ParseResult<'i, StringView<'i>>)
        requires
            input.wf(),
        ensures
            exists|found: Option<(usize, usize)>| #[trigger]
                self.pattern.locates(input.text(), found) && prefix_outcome(
                    input,
                    found,
                    self.message,
                    r,
                ),
    {
        let found = self.pattern.find_in(input.residual);
        let r = match found {
            Some((start, end)) if start == 0 => {
                let (state, rest) = input.advance_split(end);
                state.finish(StringView::new(rest, input.start_offset))
            },
            _ => ParseResult::Stop(
                StopBecause::MissingString { message: self.message, position: input.start_offset },
            ),
        };
        assert(self.pattern.locates(input.text(), found) && prefix_outcome(
            input,
            found,
            self.message,
            r,
        ));
        r
    }
}

} // verus!
