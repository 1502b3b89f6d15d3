//! Constructors for the stop reasons, and the byte range each one covers.

use super::{CustomError, StopBecause};
use crate::text::{byte_len, char_width, spec_char_width, utf8_len};
use core::ops::Range;
use vstd::prelude::*;

verus! {

impl Default for StopBecause {
    fn default() -> (r: Self)
        ensures
            r == StopBecause::Uninitialized,
    {
        StopBecause::Uninitialized
    }
}

impl StopBecause {
    /// Number of bytes that the reason covers, counted from where it
    /// starts. A custom failure names its end itself.
    pub open spec fn spec_width(self) -> nat {
        match self {
            StopBecause::Uninitialized => 0,
            StopBecause::MissingCharacter { expected, .. } => spec_char_width(expected),
            StopBecause::MissingString { message, .. } => utf8_len(message@),
            StopBecause::Custom(_) => 0,
            _ => 1,
        }
    }

    /// First byte that the reason covers.
    pub open spec fn spec_position(self) -> nat {
        match self {
            StopBecause::Uninitialized => 0,
            StopBecause::ExpectEof { position } => position as nat,
            StopBecause::ExpectRepeats { position, .. } => position as nat,
            StopBecause::MissingCharacter { position, .. } => position as nat,
            StopBecause::MissingCharacterRange { position, .. } => position as nat,
            StopBecause::MissingCharacterSet { position, .. } => position as nat,
            StopBecause::MissingString { position, .. } => position as nat,
            StopBecause::MustBe { position, .. } => position as nat,
            StopBecause::ShouldNotBe { position, .. } => position as nat,
            StopBecause::Custom(e) => e.start as nat,
        }
    }

    /// One past the last byte that the reason covers.
    pub open spec fn spec_end(self) -> nat {
        match self {
            StopBecause::Custom(e) => e.end as nat,
            _ => self.spec_position() + self.spec_width(),
        }
    }

    /// The name or message that the reason carries, if it carries one.
    pub fn label(&self) -> (r: Option<&'static str>)
        ensures
            r == (match *self {
                StopBecause::MissingCharacterSet { expected, .. } => Some(expected),
                StopBecause::MissingString { message, .. } => Some(message),
                StopBecause::MustBe { message, .. } => Some(message),
                StopBecause::ShouldNotBe { message, .. } => Some(message),
                StopBecause::Custom(e) => Some(e.message),
                _ => None,
            }),
    {
        match *self {
            StopBecause::MissingCharacterSet { expected, .. } => Some(expected),
            StopBecause::MissingString { message, .. } => Some(message),
            StopBecause::MustBe { message, .. } => Some(message),
            StopBecause::ShouldNotBe { message, .. } => Some(message),
            StopBecause::Custom(e) => Some(e.message),
            _ => None,
        }
    }

    /// A failed lookahead or predicate named `message` at `position`.
    pub fn must_be<T>(message: &'static str, position: usize) -> (r: Result<T, StopBecause>)
        ensures
            r == Err::<T, StopBecause>(StopBecause::MustBe { message, position }),
    {
        Err(StopBecause::MustBe { message, position })
    }

    /// Input that goes on at `position`, where it should have ended.
    pub fn expect_eof<T>(position: usize) -> (r: Result<T, StopBecause>)
        ensures
            r == Err::<T, StopBecause>(StopBecause::ExpectEof { position }),
    {
        Err(StopBecause::ExpectEof { position })
    }

    /// The character `expected` missing at `position`.
    pub fn missing_character<T>(expected: char, position: usize) -> (r: Result<T, StopBecause>)
        ensures
            r == Err::<T, StopBecause>(StopBecause::MissingCharacter { expected, position }),
    {
        Err(StopBecause::MissingCharacter { expected, position })
    }

    /// A character between `start` and `end` missing at `position`.
    pub fn missing_character_range<T>(start: char, end: char, position: usize) -> (r: Result<
        T,
        StopBecause,
    >)
        ensures
            r == Err::<T, StopBecause>(
                StopBecause::MissingCharacterRange { start, end, position },
            ),
    {
        Err(StopBecause::MissingCharacterRange { start, end, position })
    }

    /// A character of the set named `expected` missing at `position`.
    pub fn missing_character_set<T>(expected: &'static str, position: usize) -> (r: Result<
        T,
        StopBecause,
    >)
        ensures
            r == Err::<T, StopBecause>(StopBecause::MissingCharacterSet { expected, position }),
    {
        Err(StopBecause::MissingCharacterSet { expected, position })
    }

    /// The string named `message` missing at `position`.
    pub fn missing_string<T>(message: &'static str, position: usize) -> (r: Result<T, StopBecause>)
        ensures
            r == Err::<T, StopBecause>(StopBecause::MissingString { message, position }),
    {
        Err(StopBecause::MissingString { message, position })
    }

    /// A failure with its own `message`, covering the bytes from `start` to
    /// `end`.
    pub fn custom_error<T>(message: &'static str, start: usize, end: usize) -> (r: Result<
        T,
        StopBecause,
    >)
        ensures
            r == Err::<T, StopBecause>(StopBecause::Custom(CustomError { message, start, end })),
    {
        Err(StopBecause::Custom(CustomError { message, start, end }))
    }

    /// The half-open byte range that the reason covers.
    pub fn range(&self) -> (r: Range<usize>)
        requires
            self.spec_end() <= usize::MAX,
        ensures
            r.start == self.spec_position(),
            r.end == self.spec_end(),
    {
        match *self {
            StopBecause::Uninitialized => 0..0,
            StopBecause::ExpectEof { position } => position..position + 1,
            StopBecause::ExpectRepeats { min: _, current: _, position } => position..position + 1,
            StopBecause::MissingCharacter { expected, position } => position..position
                + char_width(expected),
            StopBecause::MissingCharacterRange { start: _, end: _, position } => position..position
                + 1,
            StopBecause::MissingCharacterSet { expected: _, position } => position..position + 1,
            StopBecause::MissingString { message, position } => position..position + byte_len(
                message,
            ),
            StopBecause::MustBe { message: _, position } => position..position + 1,
            StopBecause::ShouldNotBe { message: _, position } => position..position + 1,
            StopBecause::Custom(CustomError { start, end, .. }) => start..end,
        }
    }
}

} // verus!
