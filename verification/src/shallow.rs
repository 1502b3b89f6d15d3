//! Shortening long strings for display: the middle of a string that is too
//! wide is replaced by a placeholder.

use crate::text::{
    byte_len, lemma_boundary_range, lemma_view_is_decoding, slice_of, split_str, utf8_len,
};
use std::borrow::Cow;
use vstd::prelude::*;
use vstd::string::*;
use vstd::utf8::*;

verus! {

/// A string that may have been shortened.
#[derive(Debug)]
pub struct ShallowString<'a> {
    /// The text: the string itself, or what was made of it.
    pub raw: Cow<'a, str>,
}

impl<'a> ShallowString<'a> {
    /// The text.
    pub fn as_ref(&self) -> (r: &str)
        ensures
            r@ == self.raw@,
    {
        match &self.raw {
            Cow::Borrowed(text) => text,
            Cow::Owned(text) => text.as_str(),
        }
    }
}

/// Shortening by whole words.
#[derive(Copy, Clone, Debug, Eq, PartialEq, Hash)]
pub struct WordShallow {}

/// How the width of a text is counted.
#[derive(Copy, Clone, Debug, Eq, PartialEq, Hash)]
pub enum CounterMode {
    /// In bytes.
    Bytes,
    /// In characters.
    Characters,
}

/// What stands in place of the text that was left out.
#[derive(Debug, Eq, PartialEq, Hash)]
pub enum ShallowMode {
    /// A fixed text.
    PlaceHolder {
        /// The text.
        text: Cow<'static, str>,
    },
    /// A filling between two fixed texts.
    Counter {
        /// The text before the filling.
        lhs: Cow<'static, str>,
        /// The text after the filling.
        rhs: Cow<'static, str>,
    },
}

/// A copy of `text`: borrowed where `text` is borrowed.
fn cow_clone(text: &Cow<'static, str>) -> (r: Cow<'static, str>)
    ensures
        r@ == text@,
{
    match text {
        Cow::Borrowed(borrowed) => Cow::Borrowed(borrowed),
        Cow::Owned(owned) => Cow::Owned(owned.clone()),
    }
}

impl Clone for ShallowMode {
    fn clone(&self) -> (r: Self)
        ensures
            forall|fill: Seq<char>| r.spec_string(fill) == self.spec_string(fill),
            forall|counter: CounterMode, fill: Seq<char>|
                r.spec_size(counter, fill) == self.spec_size(counter, fill),
    {
        match self {
            ShallowMode::PlaceHolder { text } => ShallowMode::PlaceHolder {
                text: cow_clone(text),
            },
            ShallowMode::Counter { lhs, rhs } => ShallowMode::Counter {
                lhs: cow_clone(lhs),
                rhs: cow_clone(rhs),
            },
        }
    }
}

/// The text behind `text`.
fn cow_str<'a>(text: &'a Cow<'static, str>) -> (r: &'a str)
    ensures
        r@ == text@,
{
    match text {
        Cow::Borrowed(borrowed) => borrowed,
        Cow::Owned(owned) => owned.as_str(),
    }
}

impl CounterMode {
    /// The width of `raw` in this mode.
    pub open spec fn spec_count(self, raw: Seq<char>) -> nat {
        match self {
            CounterMode::Bytes => utf8_len(raw),
            CounterMode::Characters => raw.len(),
        }
    }

    /// The width of `raw`: its bytes or its characters.
    pub fn count(&self, raw: &str) -> (n: usize)
        ensures
            n == self.spec_count(raw@),
    {
        match self {
            CounterMode::Bytes => byte_len(raw),
            CounterMode::Characters => {
                proof {
                    crate::text::lemma_utf8_len_bounds(raw@);
                }
                let _ = byte_len(raw);
                raw.unicode_len()
            },
        }
    }
}

impl ShallowMode {
    /// The text that stands in place of what was left out, with `fill` as
    /// the filling.
    pub open spec fn spec_string(self, fill: Seq<char>) -> Seq<char> {
        match self {
            ShallowMode::PlaceHolder { text } => text@,
            ShallowMode::Counter { lhs, rhs } => lhs@ + fill + rhs@,
        }
    }

    /// The width of that text, counted as `counter` says.
    pub open spec fn spec_size(self, counter: CounterMode, fill: Seq<char>) -> nat {
        match self {
            ShallowMode::PlaceHolder { text } => counter.spec_count(text@),
            ShallowMode::Counter { lhs, rhs } => counter.spec_count(lhs@) + counter.spec_count(
                fill,
            ) + counter.spec_count(rhs@),
        }
    }

    /// The width of the text that stands in place of what was left out,
    /// with `fill` as the filling, counted as `counter` says.
    pub fn size_hint(&self, counter: CounterMode, fill: &str) -> (n: usize)
        requires
            self.spec_size(counter, fill@) <= usize::MAX,
        ensures
            n == self.spec_size(counter, fill@),
    {
        match self {
            ShallowMode::PlaceHolder { text } => counter.count(cow_str(text)),
            ShallowMode::Counter { lhs, rhs } => {
                let start = counter.count(cow_str(lhs));
                let middle = counter.count(fill);
                let end = counter.count(cow_str(rhs));
                start + middle + end
            },
        }
    }

    /// The text that stands in place of what was left out, with `fill` as
    /// the filling.
    pub fn make_string(&self, fill: &str) -> (r: String)
        ensures
            r@ == self.spec_string(fill@),
    {
        match self {
            ShallowMode::PlaceHolder { text } => cow_str(text).to_owned(),
            ShallowMode::Counter { lhs, rhs } => {
                let mut made = cow_str(lhs).to_owned();
                made.append(fill);
                made.append(cow_str(rhs));
                made
            },
        }
    }
}

/// How to shorten a string to a width: how wide it may be, how much of its
/// end is kept, and what stands in place of the middle.
#[derive(Debug, Eq, PartialEq, Hash)]
pub struct CharacterShallow {
    /// The greatest width of the result, in bytes.
    pub max_width: usize,
    /// The number of bytes kept from the end of the string.
    pub end_reserved: usize,
    /// What stands in place of the middle.
    pub shallow: ShallowMode,
    /// How the width of the placeholder is counted.
    pub counter: CounterMode,
}

impl Clone for CharacterShallow {
    fn clone(&self) -> (r: Self)
        ensures
            r.max_width == self.max_width,
            r.end_reserved == self.end_reserved,
            r.counter == self.counter,
            forall|raw: Seq<char>| r.spec_build(raw) == self.spec_build(raw),
    {
        Self {
            max_width: self.max_width,
            end_reserved: self.end_reserved,
            shallow: self.shallow.clone(),
            counter: self.counter,
        }
    }
}

impl Default for CharacterShallow {
    fn default() -> (r: Self)
        ensures
            r.max_width == 144,
            r.end_reserved == 42,
            r.shallow == (ShallowMode::PlaceHolder { text: Cow::Borrowed(" <...> ") }),
            r.counter == CounterMode::Bytes,
    {
        Self {
            max_width: 144,
            end_reserved: 42,
            shallow: ShallowMode::PlaceHolder { text: Cow::Borrowed(" <...> ") },
            counter: CounterMode::Bytes,
        }
    }
}

/// `width` changed by `delta`, but neither below zero nor above the
/// greatest number.
pub open spec fn shifted_width(width: usize, delta: isize) -> usize {
    if width + delta < 0 {
        0
    } else if width + delta > usize::MAX {
        usize::MAX
    } else {
        (width + delta) as usize
    }
}

impl CharacterShallow {
    /// The width of the placeholder.
    pub open spec fn spec_gap(self) -> nat {
        self.shallow.spec_size(self.counter, "fill"@)
    }

    /// The number of bytes kept from the front of a string that is
    /// shortened.
    pub open spec fn spec_front(self) -> int {
        self.max_width - self.end_reserved - self.spec_gap()
    }

    /// The string `raw` can be shortened: the front, the placeholder and
    /// the end fit in the width, and neither cut goes through a character.
    pub open spec fn can_shorten(self, raw: Seq<char>) -> bool {
        &&& self.spec_front() >= 0
        &&& is_char_boundary(encode_utf8(raw), self.spec_front())
        &&& is_char_boundary(encode_utf8(raw), utf8_len(raw) - self.end_reserved)
    }

    /// What `raw` is shortened to: the string itself where it fits in the
    /// width, and else its front, the placeholder and its end.
    pub open spec fn spec_build(self, raw: Seq<char>) -> Seq<char> {
        if utf8_len(raw) <= self.max_width {
            raw
        } else {
            slice_of(raw, 0, self.spec_front()) + self.shallow.spec_string("0"@) + slice_of(
                raw,
                utf8_len(raw) - self.end_reserved,
                utf8_len(raw) as int,
            )
        }
    }

    /// Shortening to `width` bytes, of which the last `reversed` are taken
    /// from the end of the string.
    pub fn new(width: usize, reversed: usize) -> (r: Self)
        ensures
            r.max_width == width,
            r.end_reserved == reversed,
            r.shallow == (ShallowMode::PlaceHolder { text: Cow::Borrowed(" <...> ") }),
            r.counter == CounterMode::Bytes,
    {
        let mut made = Self::default();
        made.max_width = width;
        made.end_reserved = reversed;
        made
    }

    /// The same, with the width `width`.
    pub fn with_width(self, width: usize) -> (r: Self)
        ensures
            r.max_width == width,
            r.end_reserved == self.end_reserved,
            r.shallow == self.shallow,
            r.counter == self.counter,
    {
        let mut made = self;
        made.max_width = width;
        made
    }

    /// Changes the width by `delta`; it stays within what a width can be.
    pub fn set_delta_width(&mut self, delta: isize)
        ensures
            final(self).max_width == shifted_width(old(self).max_width, delta),
            final(self).end_reserved == old(self).end_reserved,
            final(self).shallow == old(self).shallow,
            final(self).counter == old(self).counter,
    {
        let new = if delta >= 0 {
            self.max_width.saturating_add(delta as usize)
        } else {
            let less: usize = (-(delta + 1)) as usize + 1;
            self.max_width.saturating_sub(less)
        };
        self.max_width = new;
    }

    /// The same, with the width changed by `delta`.
    pub fn with_delta_width(self, delta: isize) -> (r: Self)
        ensures
            r.max_width == shifted_width(self.max_width, delta),
            r.end_reserved == self.end_reserved,
            r.shallow == self.shallow,
            r.counter == self.counter,
    {
        let mut made = self;
        made.set_delta_width(delta);
        made
    }

    /// The same, with `text` in place of the middle.
    pub fn with_shallow_text(self, text: &'static str) -> (r: Self)
        ensures
            r.max_width == self.max_width,
            r.end_reserved == self.end_reserved,
            r.shallow == (ShallowMode::PlaceHolder { text: Cow::Borrowed(text) }),
            r.counter == self.counter,
    {
        let mut made = self;
        made.shallow = ShallowMode::PlaceHolder { text: Cow::Borrowed(text) };
        made
    }

    /// The same, with the last `width` bytes taken from the end of the
    /// string.
    pub fn with_end_reserved(self, width: usize) -> (r: Self)
        ensures
            r.max_width == self.max_width,
            r.end_reserved == width,
            r.shallow == self.shallow,
            r.counter == self.counter,
    {
        let mut made = self;
        made.end_reserved = width;
        made
    }

    /// Shortens `raw`: a string that fits in the width is handed back as it
    /// is, borrowed; of a longer one the front and the end are kept, with
    /// the placeholder between them.
    pub fn build<'s>(&self, raw: &'s str) -> (r: ShallowString<'s>)
        requires
            self.spec_gap() <= usize::MAX,
            utf8_len(raw@) > self.max_width ==> self.can_shorten(raw@),
        ensures
            r.raw@ == self.spec_build(raw@),
            utf8_len(raw@) <= self.max_width ==> r.raw == Cow::<'s, str>::Borrowed(raw),
    {
        let length = byte_len(raw);
        if length <= self.max_width {
            return ShallowString { raw: Cow::Borrowed(raw) };
        }
        let start_len = self.max_width - self.end_reserved - self.shallow.size_hint(
            self.counter,
            "fill",
        );
        proof {
            lemma_view_is_decoding(raw);
            lemma_boundary_range(raw.spec_bytes(), length - self.end_reserved);
        }
        let (start, _) = split_str(raw, start_len);
        let (_, end) = split_str(raw, length - self.end_reserved);
        let middle = self.shallow.make_string("0");
        let mut string = String::new();
        string.append(start);
        string.append(middle.as_str());
        string.append(end);
        proof {
            lemma_view_is_decoding(start);
            lemma_view_is_decoding(end);
            assert(string@ =~= start@ + middle@ + end@);
        }
        ShallowString { raw: Cow::Owned(string) }
    }

    /// Shortens `raw` as `build` does and hands out the text.
    pub fn build_cow<'s>(&self, raw: &'s str) -> (r: Cow<'s, str>)
        requires
            self.spec_gap() <= usize::MAX,
            utf8_len(raw@) > self.max_width ==> self.can_shorten(raw@),
        ensures
            r@ == self.spec_build(raw@),
            utf8_len(raw@) <= self.max_width ==> r == Cow::<'s, str>::Borrowed(raw),
    {
        self.build(raw).raw
    }
}

} // verus!
