//! Ordered choice: the alternatives are tried one after the other from the
//! same cursor, and the first that matches wins.

use super::{ParseState, Parsed};
use crate::results::{ParseResult, StopBecause};
use vstd::prelude::*;

verus! {

/// The state of a choice between alternatives: the cursor where every
/// alternative starts, which also keeps the failure of the alternative
/// tried last, and the match of the first alternative that succeeded.
#[derive(Debug, Clone)]
pub struct ChoiceHelper<'a, T> {
    state: ParseState<'a>,
    result: Option<Parsed<'a, T>>,
}

impl<'i> ParseState<'i> {
    /// Starts a choice at this cursor.
    pub fn begin_choice<T>(self) -> (r: ChoiceHelper<'i, T>)
        ensures
            r.origin() == self,
            r.recorded().is_none(),
    {
        ChoiceHelper { state: self, result: None }
    }
}

impl<'a, T> ChoiceHelper<'a, T> {
    /// The cursor that the alternatives start from. Its `stop_reason` holds
    /// the failure of the alternative tried last.
    pub closed spec fn origin(self) -> ParseState<'a> {
        self.state
    }

    /// The match of the first alternative that succeeded, if any did.
    pub closed spec fn recorded(self) -> Option<Parsed<'a, T>> {
        self.result
    }

    /// The choice after an alternative whose outcome was `found`.
    pub open spec fn after(self, found: ParseResult<'a, T>, next: Self) -> bool {
        match found {
            ParseResult::Pending(state, value) => {
                &&& next.origin() == self.origin()
                &&& next.recorded() == Some((state, value))
            },
            ParseResult::Stop(reason) => {
                &&& next.origin().residual == self.origin().residual
                &&& next.origin().start_offset == self.origin().start_offset
                &&& next.origin().stop_reason == Some(reason)
                &&& next.recorded().is_none()
            },
        }
    }

    /// The outcome of the choice as it stands: the recorded match, or else
    /// the failure of the alternative tried last.
    pub open spec fn outcome(self) -> ParseResult<'a, T> {
        match self.recorded() {
            Some(ok) => ParseResult::Pending(ok.0, ok.1),
            None => ParseResult::Stop(
                match self.origin().stop_reason {
                    Some(reason) => reason,
                    None => StopBecause::Uninitialized,
                },
            ),
        }
    }

    /// The first alternative that matches decides the choice: whatever is
    /// tried after it, the outcome stays its match.
    pub proof fn lemma_first_match_wins(
        self,
        next: Self,
        last: Self,
        state: ParseState<'a>,
        value: T,
        later: ParseResult<'a, T>,
    )
        requires
            self.recorded().is_none(),
            self.after(ParseResult::Pending(state, value), next),
            last == next || (next.recorded().is_none() && next.after(later, last)),
        ensures
            last.outcome() == ParseResult::Pending(state, value),
    {
    }

    /// Where no alternative matches, the failure of the one tried last is
    /// the outcome, whatever failed before it.
    pub proof fn lemma_last_failure_wins(self, next: Self, reason: StopBecause)
        requires
            self.recorded().is_none(),
            self.after(ParseResult::Stop(reason), next),
        ensures
            next.outcome() == ParseResult::<'a, T>::Stop(reason),
            next.recorded().is_none(),
            next.origin().residual == self.origin().residual,
            next.origin().start_offset == self.origin().start_offset,
    {
    }

    /// Starts a choice at `state`.
    pub fn new(state: ParseState<'a>) -> (r: Self)
        ensures
            r.origin() == state,
            r.recorded().is_none(),
    {
        Self { state, result: None }
    }

    /// Tries the alternative `parse_fn`, unless an earlier one has matched
    /// already. A match is recorded; a failure replaces the failure kept so
    /// far.
    pub fn maybe<F>(self, parse_fn: F) -> (r: Self) where
        F: FnOnce(ParseState<'a>) -> ParseResult<'a, T>,

        requires
            self.recorded().is_none() ==> parse_fn.requires((self.origin(),)),
        ensures
            self.recorded().is_some() ==> r == self,
            self.recorded().is_none() ==> exists|found: ParseResult<'a, T>| #[trigger]
                parse_fn.ensures((self.origin(),), found) && self.after(found, r),
    {
        let mut choice = self;
        if choice.result.is_none() {
            let found = parse_fn(choice.state);
            let ghost seen = found;
            match found {
                ParseResult::Pending(s, v) => {
                    choice.result = Some((s, v));
                },
                ParseResult::Stop(err) => {
                    choice.state.set_error(err);
                },
            }
            assert(parse_fn.ensures((self.origin(),), seen) && self.after(seen, choice));
        }
        choice
    }

    /// The outcome of the choice: the recorded match, or else the failure of
    /// the alternative tried last.
    pub fn end_choice(self) -> (r: ParseResult<'a, T>)
        ensures
            r == self.outcome(),
    {
        match self.result {
            Some(ok) => ParseResult::Pending(ok.0, ok.1),
            None => ParseResult::Stop(self.state.get_error()),
        }
    }
}

} // verus!
