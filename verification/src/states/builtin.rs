//! The primitive matchers: single characters, literal strings and runs of
//! characters.

use super::ParseState;
use crate::patterns::Pattern;
use crate::results::{ParseResult, StopBecause};
use crate::text::{
    byte_len, bytes_start_with, char_width, first_char, is_run, lemma_prefix_boundary,
    lemma_view_is_decoding, occurs_at, scan_run, scan_while, spec_char_width, utf8_len,
};
use vstd::prelude::*;
use vstd::string::*;
use vstd::utf8::*;

verus! {

/// `c` lies between `start` and `end`, both included.
pub open spec fn in_char_range(c: char, start: char, end: char) -> bool {
    start as u32 <= c as u32 <= end as u32
}

/// `b` with an ASCII capital letter replaced by its small letter.
pub open spec fn ascii_fold(b: u8) -> u8 {
    if 0x41 <= b <= 0x5a {
        (b + 0x20) as u8
    } else {
        b
    }
}

/// `hay` begins with bytes that equal `needle` once ASCII letters are
/// compared without regard to case.
pub open spec fn folded_prefix(hay: Seq<u8>, needle: Seq<u8>) -> bool {
    &&& needle.len() <= hay.len()
    &&& forall|i: int| 0 <= i < needle.len() ==> ascii_fold(hay[i]) == ascii_fold(#[trigger] needle[i])
}

fn fold_byte(b: u8) -> (r: u8)
    ensures
        r == ascii_fold(b),
{
    if 0x41 <= b && b <= 0x5a {
        b + 0x20
    } else {
        b
    }
}

fn bytes_start_with_folded(hay: &[u8], needle: &[u8]) -> (b: bool)
    ensures
        b == folded_prefix(hay@, needle@),
{
    let n: usize = needle.len();
    if n > hay.len() {
        return false;
    }
    let mut i: usize = 0;
    while i < n
        invariant
            n == needle@.len(),
            n <= hay@.len(),
            i <= n,
            forall|k: int| 0 <= k < i ==> ascii_fold(hay@[k]) == ascii_fold(#[trigger] needle@[k]),
        decreases n - i,
    {
        if fold_byte(hay[i]) != fold_byte(needle[i]) {
            return false;
        }
        i += 1;
    }
    true
}

impl<'i> ParseState<'i> {
    /// Passes over the characters `a` at the front of the text, which take
    /// `n` bytes and are followed by `b`.
    pub(crate) fn take_front(self, n: usize, Ghost(a): Ghost<Seq<char>>, Ghost(b): Ghost<
        Seq<char>,
    >) -> (r: (ParseState<'i>, &'i str))
        requires
            self.wf(),
            self.text() == a + b,
            n == utf8_len(a),
        ensures
            r.0.advanced_by(self, a),
            r.0.is_advance_of(self, n as nat),
            r.0.text() == b,
            r.0.wf(),
            r.1@ == a,
    {
        proof {
            self.lemma_front(a, b);
        }
        let r = self.advance_split(n);
        proof {
            r.0.lemma_rest(self, a, b);
        }
        r
    }

    /// Passes over the first character of the text, which is `c`.
    pub fn take_char(self, c: char) -> (r: ParseState<'i>)
        requires
            self.wf(),
            self.text().len() > 0,
            self.text()[0] == c,
        ensures
            r.advanced_by(self, seq![c]),
            r.text() == self.text().drop_first(),
            r.start_offset == self.start_offset + spec_char_width(c),
            r.wf(),
    {
        proof {
            assert(self.text() =~= seq![c] + self.text().drop_first());
            assert(utf8_len(seq![c]) == spec_char_width(c)) by {
                assert(seq![c].drop_first() =~= Seq::<char>::empty());
                reveal_with_fuel(encode_utf8, 2);
            }
        }
        let ghost head = seq![c];
        let ghost tail = self.text().drop_first();
        let r = self.take_front(char_width(c), Ghost(head), Ghost(tail));
        r.0
    }

    /// Matches the character `target`.
    pub fn match_char(self, target: char) -> (r: ParseResult<'i, char>)
        requires
            self.wf(),
        ensures
            match r {
                ParseResult::Pending(state, c) => {
                    &&& self.text().len() > 0
                    &&& self.text()[0] == target
                    &&& c == target
                    &&& state.advanced_by(self, seq![target])
                    &&& state.wf()
                },
                ParseResult::Stop(reason) => {
                    &&& self.text().len() == 0 || self.text()[0] != target
                    &&& reason == StopBecause::MissingCharacter {
                        expected: target,
                        position: self.start_offset,
                    }
                },
            },
    {
        match first_char(self.residual) {
            Some(c) if c == target => self.take_char(target).finish(target),
            _ => ParseResult::Stop(
                StopBecause::MissingCharacter { expected: target, position: self.start_offset },
            ),
        }
    }

    /// Matches one character between `start` and `end`, both included.
    pub fn match_char_range(self, start: char, end: char) -> (r: ParseResult<'i, char>)
        requires
            self.wf(),
        ensures
            match r {
                ParseResult::Pending(state, c) => {
                    &&& self.text().len() > 0
                    &&& self.text()[0] == c
                    &&& in_char_range(c, start, end)
                    &&& state.advanced_by(self, seq![c])
                    &&& state.wf()
                },
                ParseResult::Stop(reason) => {
                    &&& self.text().len() == 0 || !in_char_range(self.text()[0], start, end)
                    &&& reason == StopBecause::MissingCharacterRange {
                        start,
                        end,
                        position: self.start_offset,
                    }
                },
            },
    {
        match first_char(self.residual) {
            Some(c) if c as u32 <= end as u32 && c as u32 >= start as u32 => self.take_char(
                c,
            ).finish(c),
            _ => ParseResult::Stop(
                StopBecause::MissingCharacterRange { start, end, position: self.start_offset },
            ),
        }
    }

    /// Matches the end of the input, consuming nothing.
    pub fn match_eof(self) -> (r: ParseResult<'i, ()>)
        ensures
            self.text().len() == 0 ==> r == ParseResult::Pending(self, ()),
            self.text().len() > 0 ==> r == ParseResult::<'i, ()>::Stop(
                StopBecause::ExpectEof { position: self.start_offset },
            ),
    {
        match first_char(self.residual) {
            Some(_) => ParseResult::Stop(StopBecause::ExpectEof { position: self.start_offset }),
            None => self.finish(()),
        }
    }

    /// Matches any one character; fails only at the end of the input.
    pub fn match_char_any(self) -> (r: ParseResult<'i, char>)
        requires
            self.wf(),
        ensures
            match r {
                ParseResult::Pending(state, c) => {
                    &&& self.text().len() > 0
                    &&& self.text()[0] == c
                    &&& state.advanced_by(self, seq![c])
                    &&& state.wf()
                },
                ParseResult::Stop(reason) => {
                    &&& self.text().len() == 0
                    &&& reason == StopBecause::MustBe {
                        message: "ANY",
                        position: self.start_offset,
                    }
                },
            },
    {
        let any = |c: char| -> (b: bool)
            ensures
                b,
            { true };
        self.match_char_if(any, "ANY")
    }

    /// Matches one character that `predicate` accepts.
    pub fn match_char_if<F>(self, predicate: F, message: &'static str) -> (r: ParseResult<
        'i,
        char,
    >) where F: Fn(char) -> bool
        requires
            self.wf(),
            self.text().len() > 0 ==> predicate.requires((self.text()[0],)),
        ensures
            match r {
                ParseResult::Pending(state, c) => {
                    &&& self.text().len() > 0
                    &&& self.text()[0] == c
                    &&& predicate.ensures((c,), true)
                    &&& state.advanced_by(self, seq![c])
                    &&& state.wf()
                },
                ParseResult::Stop(reason) => {
                    &&& self.text().len() == 0 || predicate.ensures((self.text()[0],), false)
                    &&& reason == StopBecause::MustBe { message, position: self.start_offset }
                },
            },
    {
        match first_char(self.residual) {
            Some(c) => {
                if predicate(c) {
                    self.take_char(c).finish(c)
                } else {
                    ParseResult::Stop(
                        StopBecause::MustBe { message, position: self.start_offset },
                    )
                }
            },
            None => ParseResult::Stop(StopBecause::MustBe { message, position: self.start_offset }),
        }
    }

    /// Matches the pattern `target` at the front of the text.
    pub fn match_str_pattern<P: Pattern>(self, target: P, message: &'static str) -> (r:
        ParseResult<'i, &'i str>)
        requires
            self.wf(),
        ensures
            exists|found: Option<(usize, usize)>| #[trigger]
                target.locates(self.text(), found) && match found {
                    Some((start, end)) if start == 0 => {
                        &&& r matches ParseResult::Pending(state, view)
                        &&& state.is_advance_of(self, end as nat)
                        &&& view@ == self.front(end as nat)
                    },
                    _ => r == ParseResult::<'i, &'i str>::Stop(
                        StopBecause::MissingString { message, position: self.start_offset },
                    ),
                },
    {
        let found = target.find_in(self.residual);
        let r = match found {
            Some((start, end)) if start == 0 => self.advance_view(end),
            _ => ParseResult::Stop(
                StopBecause::MissingString { message, position: self.start_offset },
            ),
        };
        assert(target.locates(self.text(), found));
        r
    }

    /// Matches the string `target`, byte for byte.
    pub fn match_str(self, target: &'static str) -> (r: ParseResult<'i, &'i str>)
        requires
            self.wf(),
        ensures
            match r {
                ParseResult::Pending(state, view) => {
                    &&& occurs_at(self.bytes(), target.spec_bytes(), 0)
                    &&& view@ == target@
                    &&& state.advanced_by(self, target@)
                    &&& state.wf()
                },
                ParseResult::Stop(reason) => {
                    &&& !occurs_at(self.bytes(), target.spec_bytes(), 0)
                    &&& reason == StopBecause::MissingString {
                        message: target,
                        position: self.start_offset,
                    }
                },
            },
    {
        if bytes_start_with(self.residual.as_bytes(), target.as_bytes()) {
            let n = byte_len(target);
            proof {
                lemma_view_is_decoding(self.residual);
                lemma_view_is_decoding(target);
                lemma_prefix_boundary(target.spec_bytes(), self.bytes());
            }
            let (state, view) = self.advance_split(n);
            state.finish(view)
        } else {
            ParseResult::Stop(
                StopBecause::MissingString { message: target, position: self.start_offset },
            )
        }
    }

    /// Matches the string `target` without regard to the case of ASCII
    /// letters; the value is the text as it stands in the input.
    pub fn match_str_insensitive(self, target: &'static str) -> (r: ParseResult<'i, &'i str>)
        requires
            self.wf(),
        ensures
            match r {
                ParseResult::Pending(state, view) => {
                    &&& folded_prefix(self.bytes(), target.spec_bytes())
                    &&& is_char_boundary(self.bytes(), utf8_len(target@) as int)
                    &&& view@ == self.front(utf8_len(target@))
                    &&& state.is_advance_of(self, utf8_len(target@))
                },
                ParseResult::Stop(reason) => {
                    &&& !(folded_prefix(self.bytes(), target.spec_bytes()) && is_char_boundary(
                        self.bytes(),
                        utf8_len(target@) as int,
                    ))
                    &&& reason == StopBecause::MissingString {
                        message: target,
                        position: self.start_offset,
                    }
                },
            },
    {
        let n = byte_len(target);
        if self.residual.is_char_boundary(n) && bytes_start_with_folded(
            self.residual.as_bytes(),
            target.as_bytes(),
        ) {
            let (state, view) = self.advance_split(n);
            state.finish(view)
        } else {
            ParseResult::Stop(
                StopBecause::MissingString { message: target, position: self.start_offset },
            )
        }
    }

    /// Matches the characters that stand before the first one that
    /// `predicate` accepts, which may be none. Fails where `predicate`
    /// accepts no character of the text.
    pub fn match_str_until<F>(self, predicate: F, message: &'static str) -> (r: ParseResult<
        'i,
        &'i str,
    >) where F: Fn(char) -> bool
        requires
            self.wf(),
            forall|c: char| predicate.requires((c,)),
        ensures
            match r {
                ParseResult::Pending(state, view) => {
                    &&& view@.len() < self.text().len()
                    &&& forall|i: int|
                        0 <= i < view@.len() ==> predicate.ensures(
                            (#[trigger] self.text()[i],),
                            false,
                        )
                    &&& predicate.ensures((self.text()[view@.len() as int],), true)
                    &&& view@ == self.text().take(view@.len() as int)
                    &&& state.advanced_by(self, view@)
                    &&& state.wf()
                },
                ParseResult::Stop(reason) => {
                    &&& forall|i: int|
                        0 <= i < self.text().len() ==> predicate.ensures(
                            (#[trigger] self.text()[i],),
                            false,
                        )
                    &&& reason == StopBecause::MissingString {
                        message,
                        position: self.start_offset,
                    }
                },
            },
    {
        let (offset, k) = scan_run(self.residual, &predicate, false);
        proof {
            crate::text::lemma_take_len(self.text(), k@);
        }
        if offset == byte_len(self.residual) {
            return ParseResult::Stop(
                StopBecause::MissingString { message, position: self.start_offset },
            );
        }
        proof {
            assert(self.text() =~= self.text().take(k@) + self.text().skip(k@));
        }
        let ghost head = self.text().take(k@);
        let ghost tail = self.text().skip(k@);
        let (state, view) = self.take_front(offset, Ghost(head), Ghost(tail));
        state.finish(view)
    }

    /// Matches the longest run of characters that `predicate` accepts; the
    /// run must not be empty.
    pub fn match_str_if<F>(self, predicate: F, message: &'static str) -> (r: ParseResult<
        'i,
        &'i str,
    >) where F: Fn(char) -> bool
        requires
            self.wf(),
            forall|c: char| predicate.requires((c,)),
        ensures
            match r {
                ParseResult::Pending(state, view) => {
                    &&& view@.len() > 0
                    &&& is_run(predicate, self.text(), view@.len() as int)
                    &&& view@ == self.text().take(view@.len() as int)
                    &&& state.advanced_by(self, view@)
                    &&& state.wf()
                },
                ParseResult::Stop(reason) => {
                    &&& is_run(predicate, self.text(), 0)
                    &&& reason == StopBecause::MissingString {
                        message,
                        position: self.start_offset,
                    }
                },
            },
    {
        let (offset, k) = scan_while(self.residual, &predicate);
        if offset == 0 {
            proof {
                crate::text::lemma_utf8_len_bounds(self.text().take(k@));
            }
            return ParseResult::Stop(
                StopBecause::MissingString { message, position: self.start_offset },
            );
        }
        proof {
            assert(self.text() =~= self.text().take(k@) + self.text().skip(k@));
        }
        let ghost head = self.text().take(k@);
        let ghost tail = self.text().skip(k@);
        let (state, view) = self.take_front(offset, Ghost(head), Ghost(tail));
        state.finish(view)
    }
}

} // verus!
