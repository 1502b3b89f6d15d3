//! What a parser hands back: either the cursor after the match together with
//! a value, or the reason it stopped.

use crate::states::ParseState;
use vstd::prelude::*;

pub mod from_std;
pub mod message;
pub mod methods;
pub mod reason;

verus! {

/// The outcome of one parsing step.
#[derive(Debug, Eq, PartialEq)]
pub enum ParseResult<'i, T> {
    /// The step matched: the cursor after it, and the value it produced.
    Pending(ParseState<'i>, T),
    /// The step did not match, and why.
    Stop(StopBecause),
}

/// Why a parser stopped. Every reason carries the byte position, in the
/// whole input, at which it was raised.
#[allow(inconsistent_fields)]
#[derive(Copy, Clone, Debug, Eq, PartialEq, Hash)]
pub enum StopBecause {
    /// No alternative has been attempted yet.
    Uninitialized,
    /// The input should have ended here.
    ExpectEof {
        /// Where the unexpected input begins.
        position: usize,
    },
    /// A repetition matched too few times.
    ExpectRepeats {
        /// The least number of repetitions asked for.
        min: usize,
        /// The number of repetitions found.
        current: usize,
        /// Where the repetition began.
        position: usize,
    },
    /// One particular character was expected.
    MissingCharacter {
        /// The expected character.
        expected: char,
        /// Where it was expected.
        position: usize,
    },
    /// A character of an inclusive range was expected.
    MissingCharacterRange {
        /// The lowest accepted character.
        start: char,
        /// The highest accepted character.
        end: char,
        /// Where it was expected.
        position: usize,
    },
    /// A character of a named set was expected.
    MissingCharacterSet {
        /// The name of the set.
        expected: &'static str,
        /// Where it was expected.
        position: usize,
    },
    /// A string was expected.
    MissingString {
        /// The string, or the name of what was expected.
        message: &'static str,
        /// Where it was expected.
        position: usize,
    },
    /// A positive lookahead or a predicate failed.
    MustBe {
        /// The name of what had to follow.
        message: &'static str,
        /// Where it had to follow.
        position: usize,
    },
    /// A negative lookahead failed.
    ShouldNotBe {
        /// The name of what must not follow.
        message: &'static str,
        /// Where it followed.
        position: usize,
    },
    /// Any other failure, with its own message and byte range.
    Custom(CustomError),
}

/// A failure described by a message and a half-open byte range.
#[derive(Copy, Clone, Debug, Eq, PartialEq, Hash)]
pub struct CustomError {
    /// What went wrong.
    pub message: &'static str,
    /// First byte of the offending range.
    pub start: usize,
    /// One past the last byte of the offending range.
    pub end: usize,
}

} // verus!
