//! Lists in brackets: an opening bracket, terms with a delimiter between
//! them, and a closing bracket, with whatever may be ignored around each.

use super::StringView;
use crate::results::{ParseResult, StopBecause};
use crate::states::combine::{is_productive, is_rule, is_trace, skip_outcome};
use crate::states::ParseState;
use vstd::prelude::*;
use vstd::string::*;

verus! {

/// How a list in brackets is written.
#[derive(Copy, Clone, Debug)]
pub struct BracketPattern {
    /// The opening bracket.
    pub open: &'static str,
    /// The closing bracket.
    pub close: &'static str,
    /// What stands between two terms.
    pub delimiter: &'static str,
    /// Whether a delimiter stands after the last term: it must where this is
    /// `Some(true)`, it must not where this is `Some(false)`, and it may
    /// where this is `None`.
    pub dangling: Option<bool>,
}

/// A list in brackets.
#[derive(Debug, PartialEq, Eq)]
pub struct BracketPair<'i, T> {
    /// The opening bracket.
    pub lhs: StringView<'i>,
    /// The closing bracket.
    pub rhs: StringView<'i>,
    /// The terms, in the order in which they are written.
    pub body: Vec<T>,
}

/// Skipping what `ignore` matches leads from `from` to `to`.
pub open spec fn skips<'i, U, I: Fn(ParseState<'i>) -> ParseResult<'i, U>>(
    ignore: I,
    from: ParseState<'i>,
    to: ParseState<'i>,
) -> bool {
    exists|found: ParseResult<'i, U>| #[trigger]
        ignore.ensures((from,), found) && to == skip_outcome(from, found)
}

/// The text at `from` starts with `literal`, and `to` is the cursor after
/// it.
pub open spec fn reads<'i>(from: ParseState<'i>, literal: &'static str, to: ParseState<'i>) -> bool {
    &&& from.match_prefix(literal@).is_some()
    &&& to.advanced_by(from, literal@)
    &&& to.wf()
}

/// The failure of a cursor at `from` whose text does not start with
/// `literal`.
pub open spec fn lacks<'i>(from: ParseState<'i>, literal: &'static str) -> StopBecause {
    StopBecause::MissingString { message: literal, position: from.start_offset }
}

impl BracketPattern {
    /// The pattern of a list between `open` and `close`, with commas
    /// between the terms and, if one likes, after the last.
    pub fn new(open: &'static str, close: &'static str) -> (r: Self)
        ensures
            r.open == open,
            r.close == close,
            r.delimiter@ == ","@,
            r.dangling.is_none(),
    {
        Self { open, close, delimiter: ",", dangling: None }
    }

    /// The same pattern with `delimiter` between the terms.
    pub fn with_delimiter(self, delimiter: &'static str) -> (r: Self)
        ensures
            r.open == self.open,
            r.close == self.close,
            r.delimiter == delimiter,
            r.dangling == self.dangling,
    {
        let mut pattern = self;
        pattern.delimiter = delimiter;
        pattern
    }

    /// The same pattern, in which a delimiter after the last term is
    /// required where `dangling` is set, and refused where it is not.
    pub fn with_dangling(self, dangling: bool) -> (r: Self)
        ensures
            r.open == self.open,
            r.close == self.close,
            r.delimiter == self.delimiter,
            r.dangling == Some(dangling),
    {
        let mut pattern = self;
        pattern.dangling = Some(dangling);
        pattern
    }

    /// What closing the list makes of the cursor `from`, which stands after
    /// the last of the terms `body` of a list opened at `open_at`: what may
    /// be ignored is skipped, and the closing bracket has to follow.
    pub open spec fn closing<'i, T, U, I: Fn(ParseState<'i>) -> ParseResult<'i, U>>(
        self,
        ignore: I,
        open_at: usize,
        from: ParseState<'i>,
        body: Seq<T>,
        r: ParseResult<'i, BracketPair<'i, T>>,
    ) -> bool {
        exists|at: ParseState<'i>| #[trigger]
            skips(ignore, from, at) && if at.match_prefix(self.close@).is_some() {
                &&& r matches ParseResult::Pending(last, pair)
                &&& reads(at, self.close, last)
                &&& pair.lhs@ == self.open@
                &&& pair.lhs.spec_start() == open_at
                &&& pair.rhs@ == self.close@
                &&& pair.rhs.spec_start() == at.start_offset
                &&& pair.body@ == body
            } else {
                r == ParseResult::<'i, BracketPair<'i, T>>::Stop(lacks(at, self.close))
            }
    }

    /// What the empty list makes of `input`: the opening bracket, and then
    /// the closing of a list without terms.
    pub open spec fn empty_list<'i, T, U, I: Fn(ParseState<'i>) -> ParseResult<'i, U>>(
        self,
        ignore: I,
        input: ParseState<'i>,
        r: ParseResult<'i, BracketPair<'i, T>>,
    ) -> bool {
        if input.match_prefix(self.open@).is_some() {
            exists|opened: ParseState<'i>| #[trigger]
                reads(input, self.open, opened) && self.closing(
                    ignore,
                    input.start_offset,
                    opened,
                    Seq::<T>::empty(),
                    r,
                )
        } else {
            r == ParseResult::<'i, BracketPair<'i, T>>::Stop(lacks(input, self.open))
        }
    }

    /// Skipping, the delimiter and skipping again lead from `from` to `to`.
    pub open spec fn delimited<'i, U, I: Fn(ParseState<'i>) -> ParseResult<'i, U>>(
        self,
        ignore: I,
        from: ParseState<'i>,
        to: ParseState<'i>,
    ) -> bool {
        exists|a: ParseState<'i>, b: ParseState<'i>|
            #![trigger skips(ignore, from, a), skips(ignore, b, to)]
            skips(ignore, from, a) && reads(a, self.delimiter, b) && skips(ignore, b, to)
    }

    /// After skipping from `from`, no delimiter follows: the failure is
    /// `reason`.
    pub open spec fn undelimited<'i, U, I: Fn(ParseState<'i>) -> ParseResult<'i, U>>(
        self,
        ignore: I,
        from: ParseState<'i>,
        reason: StopBecause,
    ) -> bool {
        exists|a: ParseState<'i>| #[trigger]
            skips(ignore, from, a) && a.match_prefix(self.delimiter@).is_none() && reason == lacks(
                a,
                self.delimiter,
            )
    }

    /// `found` is what a delimiter and a term after it make of `from`.
    pub open spec fn term_step<
        'i,
        T,
        U,
        F: Fn(ParseState<'i>) -> ParseResult<'i, T>,
        I: Fn(ParseState<'i>) -> ParseResult<'i, U>,
    >(self, ignore: I, parser: F, from: ParseState<'i>, found: ParseResult<'i, T>) -> bool {
        ||| exists|at: ParseState<'i>| #[trigger]
            self.delimited(ignore, from, at) && parser.ensures((at,), found)
        ||| exists|reason: StopBecause| #[trigger]
            self.undelimited(ignore, from, reason) && found == ParseResult::<'i, T>::Stop(reason)
    }

    /// Matches what may be ignored, the delimiter, what may be ignored
    /// again, and a term.
    pub fn delimiter_term<'i, F, I, T, U>(
        &self,
        input: ParseState<'i>,
        ignore: &I,
        parser: &F,
    ) -> (r: ParseResult<'i, T>) where
        F: Fn(ParseState<'i>) -> ParseResult<'i, T>,
        I: Fn(ParseState<'i>) -> ParseResult<'i, U>,

        requires
            input.wf(),
            is_rule(*ignore),
            is_rule(*parser),
        ensures
            self.term_step(*ignore, *parser, input, r),
            r matches ParseResult::Pending(state, _) ==> {
                &&& state.wf()
                &&& state.text().len() + self.delimiter@.len() <= input.text().len()
                &&& is_productive(*parser) ==> state.text().len() < input.text().len()
            },
    {
        let a = skip_by(input, ignore);
        match a.match_str(self.delimiter) {
            ParseResult::Pending(b, _) => {
                proof {
                    a.lemma_prefix_bytes(self.delimiter@);
                }
                let c = skip_by(b, ignore);
                let r = parser(c);
                let ghost seen = r;
                proof {
                    if let ParseResult::Pending(state, value) = seen {
                        assert(parser.ensures((c,), ParseResult::Pending(state, value)));
                    }
                    assert(skips(*ignore, input, a) && skips(*ignore, b, c));
                    assert(self.delimited(*ignore, input, c));
                    assert(a.text().len() == self.delimiter@.len() + b.text().len());
                }
                r
            },
            ParseResult::Stop(reason) => {
                proof {
                    a.lemma_prefix_bytes(self.delimiter@);
                    assert(skips(*ignore, input, a));
                    assert(self.undelimited(*ignore, input, reason));
                }
                ParseResult::Stop(reason)
            },
        }
    }

    /// Skipping and the delimiter lead from `from` to `to`.
    pub open spec fn trailing<'i, U, I: Fn(ParseState<'i>) -> ParseResult<'i, U>>(
        self,
        ignore: I,
        from: ParseState<'i>,
        to: ParseState<'i>,
    ) -> bool {
        exists|a: ParseState<'i>| #[trigger]
            skips(ignore, from, a) && reads(a, self.delimiter, to)
    }

    /// What the end of the list makes of the cursor `from`, which stands
    /// after the last of the terms `body` of a list opened at `open_at`: the
    /// delimiter after the last term, as far as `dangling` asks for it or
    /// admits it, and the closing of the list.
    pub open spec fn ending<'i, T, U, I: Fn(ParseState<'i>) -> ParseResult<'i, U>>(
        self,
        ignore: I,
        open_at: usize,
        from: ParseState<'i>,
        body: Seq<T>,
        r: ParseResult<'i, BracketPair<'i, T>>,
    ) -> bool {
        match self.dangling {
            Some(true) => {
                ||| exists|to: ParseState<'i>| #[trigger]
                    self.trailing(ignore, from, to) && self.closing(ignore, open_at, to, body, r)
                ||| exists|reason: StopBecause| #[trigger]
                    self.undelimited(ignore, from, reason) && r == ParseResult::<
                        'i,
                        BracketPair<'i, T>,
                    >::Stop(reason)
            },
            Some(false) => self.closing(ignore, open_at, from, body, r),
            None => {
                ||| exists|to: ParseState<'i>| #[trigger]
                    self.trailing(ignore, from, to) && self.closing(ignore, open_at, to, body, r)
                ||| exists|reason: StopBecause| #[trigger]
                    self.undelimited(ignore, from, reason) && self.closing(
                        ignore,
                        open_at,
                        from,
                        body,
                        r,
                    )
            },
        }
    }

    /// `states` and `values` record successive delimiters and terms that
    /// begin at `origin`: the term number `i` leads from `states[i]` to
    /// `states[i + 1]` and has the value `values[i]`.
    pub open spec fn terms_trace<
        'i,
        T,
        U,
        F: Fn(ParseState<'i>) -> ParseResult<'i, T>,
        I: Fn(ParseState<'i>) -> ParseResult<'i, U>,
    >(
        self,
        ignore: I,
        parser: F,
        origin: ParseState<'i>,
        states: Seq<ParseState<'i>>,
        values: Seq<T>,
    ) -> bool {
        &&& states.len() == values.len() + 1
        &&& states[0] == origin
        &&& forall|i: int|
            0 <= i < values.len() ==> self.term_step(
                ignore,
                parser,
                states[i],
                ParseResult::Pending(states[i + 1], #[trigger] values[i]),
            )
    }

    /// What the rest of a list makes of the cursor `from`, which stands
    /// after the term `first` of a list opened at `open_at`: delimiters and
    /// terms as long as they follow, and then the end of the list.
    pub open spec fn listed<
        'i,
        T,
        U,
        F: Fn(ParseState<'i>) -> ParseResult<'i, T>,
        I: Fn(ParseState<'i>) -> ParseResult<'i, U>,
    >(
        self,
        ignore: I,
        parser: F,
        open_at: usize,
        from: ParseState<'i>,
        first: T,
        r: ParseResult<'i, BracketPair<'i, T>>,
    ) -> bool {
        exists|states: Seq<ParseState<'i>>, values: Seq<T>, reason: StopBecause|
            {
                &&& #[trigger] self.terms_trace(ignore, parser, from, states, values)
                &&& #[trigger] self.term_step(
                    ignore,
                    parser,
                    states.last(),
                    ParseResult::<'i, T>::Stop(reason),
                )
                &&& self.ending(ignore, open_at, states.last(), seq![first] + values, r)
            }
    }

    /// What the list after its opening bracket makes of the cursor
    /// `opened`: what may be ignored, a first term, and the rest of the
    /// list.
    pub open spec fn opened_list<
        'i,
        T,
        U,
        F: Fn(ParseState<'i>) -> ParseResult<'i, T>,
        I: Fn(ParseState<'i>) -> ParseResult<'i, U>,
    >(
        self,
        ignore: I,
        parser: F,
        open_at: usize,
        opened: ParseState<'i>,
        r: ParseResult<'i, BracketPair<'i, T>>,
    ) -> bool {
        exists|at: ParseState<'i>, found: ParseResult<'i, T>|
            {
                &&& #[trigger] skips(ignore, opened, at)
                &&& #[trigger] parser.ensures((at,), found)
                &&& match found {
                    ParseResult::Pending(state, first) => self.listed(
                        ignore,
                        parser,
                        open_at,
                        state,
                        first,
                        r,
                    ),
                    ParseResult::Stop(reason) => r == ParseResult::<'i, BracketPair<'i, T>>::Stop(
                        reason,
                    ),
                }
            }
    }

    /// What a list with at least one term makes of `input`.
    pub open spec fn full_list<
        'i,
        T,
        U,
        F: Fn(ParseState<'i>) -> ParseResult<'i, T>,
        I: Fn(ParseState<'i>) -> ParseResult<'i, U>,
    >(
        self,
        ignore: I,
        parser: F,
        input: ParseState<'i>,
        r: ParseResult<'i, BracketPair<'i, T>>,
    ) -> bool {
        if input.match_prefix(self.open@).is_some() {
            exists|opened: ParseState<'i>| #[trigger]
                reads(input, self.open, opened) && self.opened_list(
                    ignore,
                    parser,
                    input.start_offset,
                    opened,
                    r,
                )
        } else {
            r == ParseResult::<'i, BracketPair<'i, T>>::Stop(lacks(input, self.open))
        }
    }

    /// What a list makes of `input`: the empty list where it matches, and
    /// else a list with terms, tried from the same place.
    pub open spec fn list_parsed<
        'i,
        T,
        U,
        F: Fn(ParseState<'i>) -> ParseResult<'i, T>,
        I: Fn(ParseState<'i>) -> ParseResult<'i, U>,
    >(
        self,
        ignore: I,
        parser: F,
        input: ParseState<'i>,
        r: ParseResult<'i, BracketPair<'i, T>>,
    ) -> bool {
        exists|first: ParseResult<'i, BracketPair<'i, T>>| #[trigger]
            self.empty_list(ignore, input, first) && match first {
                ParseResult::Pending(_, _) => r == first,
                ParseResult::Stop(reason) => self.full_list(
                    ignore,
                    parser,
                    ParseState {
                        residual: input.residual,
                        start_offset: input.start_offset,
                        stop_reason: Some(reason),
                    },
                    r,
                ),
            }
    }

    /// Closes the list opened by `lhs`, whose terms are `body`: skips what
    /// may be ignored and matches the closing bracket.
    pub fn close_list<'i, I, T, U>(
        &self,
        from: ParseState<'i>,
        ignore: &I,
        lhs: StringView<'i>,
        body: Vec<T>,
    ) -> (r: ParseResult<'i, BracketPair<'i, T>>) where
        I: Fn(ParseState<'i>) -> ParseResult<'i, U>,

        requires
            from.wf(),
            is_rule(*ignore),
            lhs@ == self.open@,
        ensures
            self.closing(*ignore, lhs.spec_start() as usize, from, body@, r),
    {
        let at = skip_by(from, ignore);
        proof {
            at.lemma_prefix_bytes(self.close@);
        }
        let r = match at.match_str(self.close) {
            ParseResult::Pending(last, rhs) => last.finish(
                BracketPair { lhs, rhs: StringView::new(rhs, at.start_offset), body },
            ),
            ParseResult::Stop(reason) => ParseResult::Stop(reason),
        };
        proof {
            assert(skips(*ignore, from, at));
        }
        r
    }

    /// Matches a list without terms: the opening bracket, what may be
    /// ignored, and the closing bracket.
    pub fn maybe_empty<'i, I, T, U>(&self, input: ParseState<'i>, ignore: &I) -> (r: ParseResult<
        'i,
        BracketPair<'i, T>,
    >) where I: Fn(ParseState<'i>) -> ParseResult<'i, U>
        requires
            input.wf(),
            is_rule(*ignore),
        ensures
            self.empty_list(*ignore, input, r),
    {
        proof {
            input.lemma_prefix_bytes(self.open@);
        }
        match input.match_str(self.open) {
            ParseResult::Pending(opened, lhs) => {
                let r = self.close_list(
                    opened,
                    ignore,
                    StringView::new(lhs, input.start_offset),
                    Vec::new(),
                );
                proof {
                    assert(reads(input, self.open, opened));
                }
                r
            },
            ParseResult::Stop(reason) => ParseResult::Stop(reason),
        }
    }

    /// Matches the end of a list whose terms are `body`: the delimiter
    /// after the last term, as far as `dangling` asks for it or admits it,
    /// and the closing bracket.
    pub fn end_list<'i, I, T, U>(
        &self,
        from: ParseState<'i>,
        ignore: &I,
        lhs: StringView<'i>,
        body: Vec<T>,
    ) -> (r: ParseResult<'i, BracketPair<'i, T>>) where
        I: Fn(ParseState<'i>) -> ParseResult<'i, U>,

        requires
            from.wf(),
            is_rule(*ignore),
            lhs@ == self.open@,
        ensures
            self.ending(*ignore, lhs.spec_start() as usize, from, body@, r),
    {
        match self.dangling {
            Some(false) => self.close_list(from, ignore, lhs, body),
            Some(true) => {
                let a = skip_by(from, ignore);
                proof {
                    a.lemma_prefix_bytes(self.delimiter@);
                }
                match a.match_str(self.delimiter) {
                    ParseResult::Pending(to, _) => {
                        let r = self.close_list(to, ignore, lhs, body);
                        proof {
                            assert(skips(*ignore, from, a));
                            assert(self.trailing(*ignore, from, to));
                        }
                        r
                    },
                    ParseResult::Stop(reason) => {
                        proof {
                            assert(skips(*ignore, from, a));
                            assert(self.undelimited(*ignore, from, reason));
                        }
                        ParseResult::Stop(reason)
                    },
                }
            },
            None => {
                let a = skip_by(from, ignore);
                proof {
                    a.lemma_prefix_bytes(self.delimiter@);
                }
                match a.match_str(self.delimiter) {
                    ParseResult::Pending(to, _) => {
                        let r = self.close_list(to, ignore, lhs, body);
                        proof {
                            assert(skips(*ignore, from, a));
                            assert(self.trailing(*ignore, from, to));
                        }
                        r
                    },
                    ParseResult::Stop(reason) => {
                        let r = self.close_list(from, ignore, lhs, body);
                        proof {
                            assert(skips(*ignore, from, a));
                            assert(self.undelimited(*ignore, from, reason));
                        }
                        r
                    },
                }
            },
        }
    }

    /// Matches a list with at least one term: the opening bracket, the
    /// terms with delimiters between them, and the end of the list.
    pub fn maybe_many<'i, F, I, T, U>(
        &self,
        input: ParseState<'i>,
        ignore: &I,
        parser: &F,
    ) -> (r: ParseResult<'i, BracketPair<'i, T>>) where
        F: Fn(ParseState<'i>) -> ParseResult<'i, T>,
        I: Fn(ParseState<'i>) -> ParseResult<'i, U>,

        requires
            input.wf(),
            is_rule(*ignore),
            is_rule(*parser),
            self.delimiter@.len() > 0 || is_productive(*parser),
        ensures
            self.full_list(*ignore, *parser, input, r),
    {
        proof {
            input.lemma_prefix_bytes(self.open@);
        }
        let (opened, lhs) = match input.match_str(self.open) {
            ParseResult::Pending(s, v) => (s, v),
            ParseResult::Stop(reason) => {
                return ParseResult::Stop(reason);
            },
        };
        let at = skip_by(opened, ignore);
        let found = parser(at);
        let ghost seen = found;
        let (state, first) = match found {
            ParseResult::Pending(s, v) => {
                assert(parser.ensures((at,), ParseResult::Pending(s, v)));
                (s, v)
            },
            ParseResult::Stop(reason) => {
                proof {
                    assert(skips(*ignore, opened, at));
                    assert(parser.ensures((at,), seen));
                    assert(self.opened_list(
                        *ignore,
                        *parser,
                        input.start_offset,
                        opened,
                        ParseResult::<'i, BracketPair<'i, T>>::Stop(reason),
                    ));
                    assert(reads(input, self.open, opened));
                }
                return ParseResult::Stop(reason);
            },
        };
        let ghost first_value = first;
        let next = |s: ParseState<'i>| -> (r: ParseResult<'i, T>)
            requires
                s.wf(),
            ensures
                self.term_step(*ignore, *parser, s, r),
                r matches ParseResult::Pending(to, _) ==> {
                    &&& to.wf()
                    &&& to.text().len() + self.delimiter@.len() <= s.text().len()
                    &&& is_productive(*parser) ==> to.text().len() < s.text().len()
                },
            { self.delimiter_term(s, ignore, parser) };
        let (last, mut terms) = match state.match_repeats(&next) {
            ParseResult::Pending(s, v) => (s, v),
            ParseResult::Stop(reason) => {
                return ParseResult::Stop(reason);
            },
        };
        let ghost values = terms@;
        proof {
            let states = choose|states: Seq<ParseState<'i>>| #[trigger]
                is_trace(&next, state, states, values) && states.last() == last;
            assert(self.terms_trace(*ignore, *parser, state, states, values));
            let reason = choose|reason: StopBecause| #[trigger]
                next.ensures((last,), ParseResult::<'i, T>::Stop(reason));
            assert(self.term_step(
                *ignore,
                *parser,
                states.last(),
                ParseResult::<'i, T>::Stop(reason),
            ));
        }
        terms.insert(0, first);
        proof {
            assert(terms@ =~= seq![first_value] + values);
        }
        let r = self.end_list(last, ignore, StringView::new(lhs, input.start_offset), terms);
        proof {
            assert(self.listed(*ignore, *parser, input.start_offset, state, first_value, r));
            assert(skips(*ignore, opened, at));
            assert(parser.ensures((at,), seen));
            assert(self.opened_list(*ignore, *parser, input.start_offset, opened, r));
            assert(reads(input, self.open, opened));
        }
        r
    }

    /// Matches a list in brackets whose terms are matched by `parser` and
    /// in which what `ignore` matches may stand around the brackets' inner
    /// sides, the terms and the delimiters.
    pub fn consume<'i, F, I, T, U>(&self, input: ParseState<'i>, ignore: I, parser: F) -> (r:
        ParseResult<'i, BracketPair<'i, T>>) where
        F: Fn(ParseState<'i>) -> ParseResult<'i, T>,
        I: Fn(ParseState<'i>) -> ParseResult<'i, U>,

        requires
            input.wf(),
            is_rule(ignore),
            is_rule(parser),
            self.delimiter@.len() > 0 || is_productive(parser),
        ensures
            self.list_parsed(ignore, parser, input, r),
    {
        let ig = &ignore;
        let pa = &parser;
        let empty = |s: ParseState<'i>| -> (found: ParseResult<'i, BracketPair<'i, T>>)
            requires
                s.wf(),
            ensures
                self.empty_list(*ig, s, found),
            { self.maybe_empty(s, ig) };
        let many = |s: ParseState<'i>| -> (found: ParseResult<'i, BracketPair<'i, T>>)
            requires
                s.wf(),
            ensures
                self.full_list(*ig, *pa, s, found),
            { self.maybe_many(s, ig, pa) };
        let begun = input.begin_choice();
        let tried = begun.maybe(empty);
        let ghost first = choose|first: ParseResult<'i, BracketPair<'i, T>>| #[trigger]
            empty.ensures((begun.origin(),), first) && begun.after(first, tried);
        let done = tried.maybe(many);
        let r = done.end_choice();
        proof {
            assert(self.empty_list(ignore, input, first));
            if let ParseResult::Stop(reason) = first {
                let second = choose|second: ParseResult<'i, BracketPair<'i, T>>| #[trigger]
                    many.ensures((tried.origin(),), second) && tried.after(second, done);
                assert(tried.origin() == ParseState {
                    residual: input.residual,
                    start_offset: input.start_offset,
                    stop_reason: Some(reason),
                });
                assert(r == second);
            }
        }
        r
    }
}

/// Skips what `ignore` matches at `from`, if it matches.
pub fn skip_by<'i, U, I>(from: ParseState<'i>, ignore: &I) -> (to: ParseState<'i>) where
    I: Fn(ParseState<'i>) -> ParseResult<'i, U>,

    requires
        from.wf(),
        is_rule(*ignore),
    ensures
        skips(*ignore, from, to),
        to.wf(),
        to.text().len() <= from.text().len(),
{
    let found = ignore(from);
    let ghost seen = found;
    let to = match found {
        ParseResult::Pending(new, value) => {
            assert(ignore.ensures((from,), ParseResult::Pending(new, value)));
            new
        },
        ParseResult::Stop(_) => from,
    };
    proof {
        assert(ignore.ensures((from,), seen) && to == skip_outcome(from, seen));
    }
    to
}

} // verus!
