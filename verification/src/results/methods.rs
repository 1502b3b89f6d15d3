//! Operations on a parse result.

use super::{ParseResult, StopBecause};
use crate::states::{ParseState, Parsed};
use vstd::prelude::*;

verus! {

impl<'i, T> ParseResult<'i, T> {
    /// Whether the step matched.
    pub fn is_success(&self) -> (b: bool)
        ensures
            b == (*self is Pending),
    {
        match self {
            ParseResult::Pending(_, _) => true,
            ParseResult::Stop(_) => false,
        }
    }

    /// Applies `f` to the value of a match and leaves the cursor as it is; a
    /// failure passes through unchanged.
    pub fn map_inner<F, U>(self, f: F) -> (r: ParseResult<'i, U>) where F: FnOnce(T) -> U
        requires
            self matches ParseResult::Pending(_, v) ==> f.requires((v,)),
        ensures
            match self {
                ParseResult::Pending(state, value) => r matches ParseResult::Pending(s, u)
                    && s == state && f.ensures((value,), u),
                ParseResult::Stop(reason) => r == ParseResult::<'i, U>::Stop(reason),
            },
    {
        match self {
            ParseResult::Pending(state, value) => ParseResult::Pending(state, f(value)),
            ParseResult::Stop(reason) => ParseResult::Stop(reason),
        }
    }

    /// Calls `ok` with the cursor of a match, or `fail` with the reason of a
    /// failure, and hands the result back unchanged.
    pub fn dispatch<F, G>(self, ok: F, fail: G) -> (r: Self) where
        F: FnOnce(ParseState<'i>),
        G: FnOnce(StopBecause),

        requires
            self matches ParseResult::Pending(state, _) ==> ok.requires((state,)),
            self matches ParseResult::Stop(reason) ==> fail.requires((reason,)),
        ensures
            r == self,
            self matches ParseResult::Pending(state, _) ==> ok.ensures((state,), ()),
            self matches ParseResult::Stop(reason) ==> fail.ensures((reason,), ()),
    {
        match &self {
            ParseResult::Pending(state, _) => ok(*state),
            ParseResult::Stop(reason) => fail(*reason),
        }
        self
    }

    /// The same outcome as a plain `Result`.
    pub fn as_result(self) -> (r: Result<Parsed<'i, T>, StopBecause>)
        ensures
            match self {
                ParseResult::Pending(state, value) => r == Ok::<Parsed<'i, T>, StopBecause>(
                    (state, value),
                ),
                ParseResult::Stop(reason) => r == Err::<Parsed<'i, T>, StopBecause>(reason),
            },
    {
        match self {
            ParseResult::Pending(state, value) => Ok((state, value)),
            ParseResult::Stop(reason) => Err(reason),
        }
    }
}

} // verus!
