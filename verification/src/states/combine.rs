//! The combinators: repetition, option, skipping and lookahead over any
//! rule, that is any function from a cursor to a parse result.

use super::ParseState;
use crate::results::{ParseResult, StopBecause};
use vstd::prelude::*;

verus! {

/// `parse` can be called on every well-formed cursor, and every match it
/// reports ends at a well-formed cursor with no more text left than there
/// was.
pub open spec fn is_rule<'i, T, F: Fn(ParseState<'i>) -> ParseResult<'i, T>>(parse: F) -> bool {
    &&& forall|s: ParseState<'i>| s.wf() ==> #[trigger] parse.requires((s,))
    &&& forall|s: ParseState<'i>, s2: ParseState<'i>, v: T|
        s.wf() && #[trigger] parse.ensures((s,), ParseResult::Pending(s2, v)) ==> s2.wf()
            && s2.text().len() <= s.text().len()
}

/// Every match that `parse` reports consumes at least one character.
pub open spec fn is_productive<'i, T, F: Fn(ParseState<'i>) -> ParseResult<'i, T>>(
    parse: F,
) -> bool {
    forall|s: ParseState<'i>, s2: ParseState<'i>, v: T|
        s.wf() && #[trigger] parse.ensures((s,), ParseResult::Pending(s2, v)) ==> s2.text().len()
            < s.text().len()
}

/// `states` and `values` record successive matches of `parse` that begin at
/// `origin`: the match number `i` leads from `states[i]` to `states[i + 1]`
/// and produces `values[i]`.
pub open spec fn is_trace<'i, T, F: Fn(ParseState<'i>) -> ParseResult<'i, T>>(
    parse: F,
    origin: ParseState<'i>,
    states: Seq<ParseState<'i>>,
    values: Seq<T>,
) -> bool {
    &&& states.len() == values.len() + 1
    &&& states[0] == origin
    &&& forall|i: int|
        0 <= i < values.len() ==> parse.ensures(
            (states[i],),
            ParseResult::Pending(states[i + 1], #[trigger] values[i]),
        )
}

/// Successive matches of `parse` lead from `origin` to `last` and produce
/// `values`, in this order.
pub open spec fn repeats_from<'i, T, F: Fn(ParseState<'i>) -> ParseResult<'i, T>>(
    parse: F,
    origin: ParseState<'i>,
    last: ParseState<'i>,
    values: Seq<T>,
) -> bool {
    exists|states: Seq<ParseState<'i>>| #[trigger]
        is_trace(parse, origin, states, values) && states.last() == last
}

/// What a bounded repetition makes of the matches `values` of `parse`, which
/// lead from `origin` to `last`: there are at most `max` of them, and fewer
/// only where `parse` fails at `last`; fewer than `min` are a failure at
/// `origin`.
pub open spec fn bounded_outcome<'i, T, F: Fn(ParseState<'i>) -> ParseResult<'i, T>>(
    parse: F,
    origin: ParseState<'i>,
    last: ParseState<'i>,
    values: Seq<T>,
    min: usize,
    max: usize,
    r: ParseResult<'i, Vec<T>>,
) -> bool {
    &&& values.len() <= max
    &&& values.len() == max || may_fail(parse, last)
    &&& if values.len() < min {
        r == ParseResult::<'i, Vec<T>>::Stop(
            StopBecause::ExpectRepeats {
                min,
                current: values.len() as usize,
                position: origin.start_offset,
            },
        )
    } else {
        r matches ParseResult::Pending(state, found) && state == last && found@ == values
    }
}

/// `parse` can fail at `state`.
pub open spec fn may_fail<'i, T, F: Fn(ParseState<'i>) -> ParseResult<'i, T>>(
    parse: F,
    state: ParseState<'i>,
) -> bool {
    exists|reason: StopBecause| #[trigger]
        parse.ensures((state,), ParseResult::<'i, T>::Stop(reason))
}

/// `parse` never matches at `state`.
pub open spec fn always_fails<'i, T, F: Fn(ParseState<'i>) -> ParseResult<'i, T>>(
    parse: F,
    state: ParseState<'i>,
) -> bool {
    forall|found: ParseResult<'i, T>| #[trigger] parse.ensures((state,), found) ==> found is Stop
}

/// What an optional match makes of the outcome `found` of its rule at
/// `origin`.
pub open spec fn optional_outcome<'i, T>(
    origin: ParseState<'i>,
    found: ParseResult<'i, T>,
) -> ParseResult<'i, Option<T>> {
    match found {
        ParseResult::Pending(state, value) => ParseResult::Pending(state, Some(value)),
        ParseResult::Stop(_) => ParseResult::Pending(origin, None),
    }
}

/// Where a skip ends, given the outcome `found` of its rule at `origin`.
pub open spec fn skip_outcome<'i, T>(
    origin: ParseState<'i>,
    found: ParseResult<'i, T>,
) -> ParseState<'i> {
    match found {
        ParseResult::Pending(state, _) => state,
        ParseResult::Stop(_) => origin,
    }
}

/// What a positive lookahead makes of the outcome `found` of its rule at
/// `origin`.
pub open spec fn positive_outcome<'i, T>(
    origin: ParseState<'i>,
    found: ParseResult<'i, T>,
    message: &'static str,
) -> ParseResult<'i, ()> {
    match found {
        ParseResult::Pending(_, _) => ParseResult::Pending(origin, ()),
        ParseResult::Stop(_) => ParseResult::Stop(
            StopBecause::MustBe { message, position: origin.start_offset },
        ),
    }
}

/// What a negative lookahead makes of the outcome `found` of its rule at
/// `origin`.
pub open spec fn negative_outcome<'i, T>(
    origin: ParseState<'i>,
    found: ParseResult<'i, T>,
    message: &'static str,
) -> ParseResult<'i, ()> {
    match found {
        ParseResult::Pending(_, _) => ParseResult::Stop(
            StopBecause::ShouldNotBe { message, position: origin.start_offset },
        ),
        ParseResult::Stop(_) => ParseResult::Pending(origin, ()),
    }
}

/// A trace followed by one more match of `parse`, from its last cursor to
/// `next` with the value `value`, is a trace again.
pub proof fn lemma_trace_grows<'i, T, F: Fn(ParseState<'i>) -> ParseResult<'i, T>>(
    parse: F,
    origin: ParseState<'i>,
    states: Seq<ParseState<'i>>,
    values: Seq<T>,
    next: ParseState<'i>,
    value: T,
)
    requires
        is_trace(parse, origin, states, values),
        parse.ensures((states.last(),), ParseResult::Pending(next, value)),
    ensures
        is_trace(parse, origin, states.push(next), values.push(value)),
{
    let longer = states.push(next);
    assert forall|i: int| 0 <= i < values.len() + 1 implies parse.ensures(
        (longer[i],),
        ParseResult::Pending(longer[i + 1], #[trigger] values.push(value)[i]),
    ) by {
        if i < values.len() {
            assert(longer[i] == states[i]);
            assert(longer[i + 1] == states[i + 1]);
            assert(values.push(value)[i] == values[i]);
        }
    }
}

/// An optional match never fails: it ends where its rule ended, with the
/// value of the rule, or where it began, with nothing.
pub proof fn lemma_optional_never_fails<'i, T>(origin: ParseState<'i>, found: ParseResult<'i, T>)
    ensures
        optional_outcome(origin, found) is Pending,
        found matches ParseResult::Pending(state, value) ==> optional_outcome(origin, found)
            == ParseResult::Pending(state, Some(value)),
        found is Stop ==> optional_outcome(origin, found) == ParseResult::Pending(
            origin,
            None::<T>,
        ),
{
}

/// A repetition of a rule that never matches where it begins collects
/// nothing and ends where it began.
pub proof fn lemma_repeats_of_failing_rule<'i, T, F: Fn(ParseState<'i>) -> ParseResult<'i, T>>(
    parse: F,
    origin: ParseState<'i>,
    last: ParseState<'i>,
    values: Seq<T>,
)
    requires
        always_fails(parse, origin),
        repeats_from(parse, origin, last, values),
    ensures
        last == origin,
        values.len() == 0,
{
    let states = choose|states: Seq<ParseState<'i>>| #[trigger]
        is_trace(parse, origin, states, values) && states.last() == last;
    if values.len() > 0 {
        assert(parse.ensures((states[0],), ParseResult::Pending(states[1], values[0])));
    }
}

impl<'i> ParseState<'i> {
    /// Applies `parse` to the cursor.
    pub fn match_fn<T, F>(self, parse: F) -> (r: ParseResult<'i, T>) where
        F: Fn(ParseState<'i>) -> ParseResult<'i, T>,

        requires
            parse.requires((self,)),
        ensures
            parse.ensures((self,), r),
    {
        parse(self)
    }

    /// Applies `parse` again and again, each time where the last match
    /// ended, until it fails. The matches are collected in order; the failure
    /// that ends the run is discarded.
    pub fn match_repeats<T, F>(self, parse: F) -> (r: ParseResult<'i, Vec<T>>) where
        F: Fn(ParseState<'i>) -> ParseResult<'i, T>,

        requires
            self.wf(),
            is_rule(parse),
            is_productive(parse),
        ensures
            r is Pending,
            r matches ParseResult::Pending(last, values) ==> last.wf() && may_fail(parse, last),
            r matches ParseResult::Pending(last, values) ==> repeats_from(
                parse,
                self,
                last,
                values@,
            ),
            always_fails(parse, self) ==> (r matches ParseResult::Pending(last, values) && last
                == self && values@.len() == 0),
    {
        let mut result: Vec<T> = Vec::new();
        let mut state = self;
        let ghost mut states: Seq<ParseState<'i>> = seq![self];
        loop
            invariant
                is_rule(parse),
                is_productive(parse),
                state.wf(),
                is_trace(parse, self, states, result@),
                states.last() == state,
            ensures
                may_fail(parse, state),
            decreases state.text().len(),
        {
            let found = parse(state);
            match found {
                ParseResult::Pending(new, value) => {
                    proof {
                        lemma_trace_grows(parse, self, states, result@, new, value);
                        states = states.push(new);
                    }
                    state = new;
                    result.push(value);
                },
                ParseResult::Stop(reason) => {
                    assert(parse.ensures((state,), ParseResult::<'i, T>::Stop(reason)));
                    break ;
                },
            }
        }
        proof {
            assert(is_trace(parse, self, states, result@) && states.last() == state);
            if always_fails(parse, self) && result@.len() > 0 {
                assert(parse.ensures((states[0],), ParseResult::Pending(states[1], result@[0])));
            }
        }
        state.finish(result)
    }

    /// Applies `parse` as `match_repeats` does, but at most `max` times. With
    /// fewer than `min` matches the whole repetition fails, at the place
    /// where it began.
    pub fn match_repeat_m_n<T, F>(self, min: usize, max: usize, parse: F) -> (r: ParseResult<
        'i,
        Vec<T>,
    >) where F: Fn(ParseState<'i>) -> ParseResult<'i, T>
        requires
            self.wf(),
            is_rule(parse),
        ensures
            exists|last: ParseState<'i>, values: Seq<T>| #[trigger]
                repeats_from(parse, self, last, values) && bounded_outcome(
                    parse,
                    self,
                    last,
                    values,
                    min,
                    max,
                    r,
                ),
    {
        let mut result: Vec<T> = Vec::new();
        let mut count: usize = 0;
        let position = self.start_offset;
        let mut state = self;
        let ghost mut states: Seq<ParseState<'i>> = seq![self];
        while count < max
            invariant
                is_rule(parse),
                state.wf(),
                is_trace(parse, self, states, result@),
                states.last() == state,
                count == result@.len(),
                count <= max,
            ensures
                count == max || may_fail(parse, state),
            decreases max - count,
        {
            let found = parse(state);
            match found {
                ParseResult::Pending(new, value) => {
                    proof {
                        lemma_trace_grows(parse, self, states, result@, new, value);
                        states = states.push(new);
                    }
                    state = new;
                    result.push(value);
                    count += 1;
                },
                ParseResult::Stop(reason) => {
                    assert(parse.ensures((state,), ParseResult::<'i, T>::Stop(reason)));
                    break ;
                },
            }
        }
        let ghost values = result@;
        let r = if count < min {
            ParseResult::Stop(StopBecause::ExpectRepeats { min, current: count, position })
        } else {
            state.finish(result)
        };
        proof {
            assert(is_trace(parse, self, states, values) && states.last() == state);
            assert(repeats_from(parse, self, state, values) && bounded_outcome(
                parse,
                self,
                state,
                values,
                min,
                max,
                r,
            ));
        }
        r
    }

    /// Tries `parse` once. A match gives its value at the cursor where it
    /// ended; a failure gives `None` at the cursor as it was.
    pub fn match_optional<T, F>(self, parse: F) -> (r: ParseResult<'i, Option<T>>) where
        F: Fn(ParseState<'i>) -> ParseResult<'i, T>,

        requires
            parse.requires((self,)),
        ensures
            r is Pending,
            exists|found: ParseResult<'i, T>| #[trigger]
                parse.ensures((self,), found) && r == optional_outcome(self, found),
    {
        let found = parse(self);
        let ghost seen = found;
        let r = match found {
            ParseResult::Pending(state, value) => state.finish(Some(value)),
            ParseResult::Stop(_) => self.finish(None),
        };
        assert(parse.ensures((self,), seen) && r == optional_outcome(self, seen));
        r
    }

    /// Tries `parse` once and gives the cursor after its match, or the
    /// cursor as it was if it fails.
    pub fn skip<F, T>(self, parse: F) -> (r: ParseState<'i>) where
        F: Fn(ParseState<'i>) -> ParseResult<'i, T>,

        requires
            parse.requires((self,)),
        ensures
            exists|found: ParseResult<'i, T>| #[trigger]
                parse.ensures((self,), found) && r == skip_outcome(self, found),
    {
        let found = parse(self);
        let ghost seen = found;
        let r = match found {
            ParseResult::Pending(new, _) => new,
            ParseResult::Stop(_) => self,
        };
        assert(parse.ensures((self,), seen) && r == skip_outcome(self, seen));
        r
    }

    /// Succeeds, consuming nothing, where `parse` matches.
    pub fn match_positive<F, T>(self, parse: F, message: &'static str) -> (r: ParseResult<
        'i,
        (),
    >) where F: Fn(ParseState<'i>) -> ParseResult<'i, T>
        requires
            parse.requires((self,)),
        ensures
            exists|found: ParseResult<'i, T>| #[trigger]
                parse.ensures((self,), found) && r == positive_outcome(self, found, message),
    {
        let found = parse(self);
        let ghost seen = found;
        let r = match found {
            ParseResult::Pending(_, _) => self.finish(()),
            ParseResult::Stop(_) => ParseResult::Stop(
                StopBecause::MustBe { message, position: self.start_offset },
            ),
        };
        assert(parse.ensures((self,), seen) && r == positive_outcome(self, seen, message));
        r
    }

    /// Succeeds, consuming nothing, where `parse` fails.
    pub fn match_negative<F, T>(self, parse: F, message: &'static str) -> (r: ParseResult<
        'i,
        (),
    >) where F: Fn(ParseState<'i>) -> ParseResult<'i, T>
        requires
            parse.requires((self,)),
        ensures
            exists|found: ParseResult<'i, T>| #[trigger]
                parse.ensures((self,), found) && r == negative_outcome(self, found, message),
    {
        let found = parse(self);
        let ghost seen = found;
        let r = match found {
            ParseResult::Pending(_, _) => ParseResult::Stop(
                StopBecause::ShouldNotBe { message, position: self.start_offset },
            ),
            ParseResult::Stop(_) => self.finish(()),
        };
        assert(parse.ensures((self,), seen) && r == negative_outcome(self, seen, message));
        r
    }
}

} // verus!
