//! Quoted strings and escapes.

use crate::patterns::surround_pair::{pair_outcome, SurroundPair, SurroundPairPattern};
use crate::patterns::{Pattern, StringView};
use crate::results::{ParseResult, StopBecause};
use crate::states::ParseState;
use crate::text::{
    byte_len, char_gap, char_run, char_width, first_occurrence, lemma_same_bytes_same_text,
    lemma_take_len, lemma_take_step, lemma_utf8_len_concat, lemma_view_is_decoding,
    never_occurs, slice_of, spec_char_width, split_str, utf8_len,
};
use vstd::prelude::*;
use vstd::std_specs::iter::IteratorSpec;
use vstd::string::*;
use vstd::utf8::*;

verus! {

/// Matches a pair of delimiters and what stands between them, as `pattern`
/// describes them. Nothing is escaped.
pub fn surround_pair<'i, S: Pattern, E: Pattern>(
    state: ParseState<'i>,
    pattern: SurroundPairPattern<S, E>,
) -> (r: ParseResult<'i, SurroundPair<'i>>)
    requires
        state.wf(),
    ensures
        exists|opened: Option<(usize, usize)>, closed: Option<(usize, usize)>| #[trigger]
            pattern.answers(state, opened, closed) && pair_outcome(
                state,
                opened,
                closed,
                pattern.lhs.message,
                pattern.rhs.message,
                r,
            ),
{
    pattern.consume_state(state)
}

/// Where a quoted string ends that is read from index `i` of `text` on,
/// past its opening `bound`: the index after the first `bound` that no
/// `escaper` stands before. An `escaper` takes the character after it with
/// it, whatever that is. `None` where the text ends first.
pub open spec fn quoted_end(text: Seq<char>, i: int, bound: char, escaper: char) -> Option<int>
    decreases text.len() - i,
{
    if i < 0 || i >= text.len() {
        None
    } else if text[i] == bound {
        Some(i + 1)
    } else if text[i] == escaper {
        if i + 1 < text.len() {
            quoted_end(text, i + 2, bound, escaper)
        } else {
            None
        }
    } else {
        quoted_end(text, i + 1, bound, escaper)
    }
}

/// Matches a string quoted by the character `bound` on both sides, in which
/// the character `escaper` takes the character after it with it. The value
/// is the whole string, quotes included.
pub fn surround_pair_with_escaper<'i>(state: ParseState<'i>, bound: char, escaper: char) -> (r:
    ParseResult<'i, &'i str>)
    requires
        state.wf(),
    ensures
        match r {
            ParseResult::Pending(last, view) => {
                &&& state.text().len() > 0
                &&& state.text()[0] == bound
                &&& quoted_end(state.text(), 1, bound, escaper) == Some(view@.len() as int)
                &&& view@ == state.text().take(view@.len() as int)
                &&& last.advanced_by(state, view@)
                &&& last.wf()
            },
            ParseResult::Stop(reason) => if state.text().len() > 0 && state.text()[0] == bound {
                &&& quoted_end(state.text(), 1, bound, escaper).is_none()
                &&& reason == StopBecause::MissingCharacter {
                    expected: bound,
                    position: (state.start_offset + utf8_len(state.text())) as usize,
                }
            } else {
                reason == StopBecause::MissingCharacter {
                    expected: bound,
                    position: state.start_offset,
                }
            },
        },
{
    broadcast use vstd::string::group_string_axioms;

    let ghost text = state.text();
    let total: usize = byte_len(state.residual);
    let mut rest = state.residual.chars();
    let mut offset: usize = 0;
    let ghost mut i: int = 0;
    proof {
        assert(text.skip(0) =~= text);
        assert(text.take(0) =~= Seq::<char>::empty());
    }
    match rest.next() {
        Some(start) if start == bound => {
            proof {
                lemma_take_step(text, 0);
                assert(text.skip(0).drop_first() =~= text.skip(1));
                i = 1;
            }
            offset += char_width(bound);
        },
        _ => {
            return ParseResult::Stop(
                StopBecause::MissingCharacter { expected: bound, position: state.start_offset },
            );
        },
    }
    let mut closed = false;
    loop
        invariant_except_break
            rest.remaining() == text.skip(i),
            !closed,
            offset == utf8_len(text.take(i)),
            quoted_end(text, i, bound, escaper) == quoted_end(text, 1, bound, escaper),
        invariant
            text == state.text(),
            state.wf(),
            total == utf8_len(text),
            1 <= i <= text.len(),
            text[0] == bound,
        ensures
            closed ==> quoted_end(text, 1, bound, escaper) == Some(i) && offset == utf8_len(
                text.take(i),
            ),
            !closed ==> quoted_end(text, 1, bound, escaper).is_none(),
        decreases text.len() - i,
    {
        match rest.next() {
            Some(c) => {
                proof {
                    lemma_take_step(text, i);
                    assert(text.skip(i).drop_first() =~= text.skip(i + 1));
                }
                offset += char_width(c);
                if c == bound {
                    proof {
                        i = i + 1;
                    }
                    closed = true;
                    break ;
                } else if c == escaper {
                    match rest.next() {
                        Some(next) => {
                            proof {
                                lemma_take_step(text, i + 1);
                                assert(text.skip(i + 1).drop_first() =~= text.skip(i + 2));
                                i = i + 2;
                            }
                            offset += char_width(next);
                        },
                        None => {
                            break ;
                        },
                    }
                } else {
                    proof {
                        i = i + 1;
                    }
                }
            },
            None => {
                break ;
            },
        }
    }
    if !closed {
        return ParseResult::Stop(
            StopBecause::MissingCharacter { expected: bound, position: state.end_offset() },
        );
    }
    proof {
        assert(text =~= text.take(i) + text.skip(i));
    }
    let ghost head = text.take(i);
    let ghost tail = text.skip(i);
    let (last, view) = state.take_front(offset, Ghost(head), Ghost(tail));
    last.finish(view)
}

/// Matches a string quoted by the character `bound` on both sides, in which
/// a backslash takes the character after it with it.
pub fn quotation_pair_escaped<'i>(state: ParseState<'i>, bound: char) -> (r: ParseResult<
    'i,
    &'i str,
>)
    requires
        state.wf(),
    ensures
        match r {
            ParseResult::Pending(last, view) => {
                &&& state.text().len() > 0
                &&& state.text()[0] == bound
                &&& quoted_end(state.text(), 1, bound, '\\') == Some(view@.len() as int)
                &&& view@ == state.text().take(view@.len() as int)
                &&& last.advanced_by(state, view@)
                &&& last.wf()
            },
            ParseResult::Stop(reason) => if state.text().len() > 0 && state.text()[0] == bound {
                &&& quoted_end(state.text(), 1, bound, '\\').is_none()
                &&& reason == StopBecause::MissingCharacter {
                    expected: bound,
                    position: (state.start_offset + utf8_len(state.text())) as usize,
                }
            } else {
                reason == StopBecause::MissingCharacter {
                    expected: bound,
                    position: state.start_offset,
                }
            },
        },
{
    surround_pair_with_escaper(state, bound, '\\')
}

/// The text begins with `a` characters `lhs`, as many as there are; then
/// come `b` characters other than `rhs`, as many as there are; then `e`
/// characters `rhs`, as many as there are.
pub open spec fn quotation_split(
    text: Seq<char>,
    lhs: char,
    rhs: char,
    a: int,
    b: int,
    e: int,
) -> bool {
    &&& char_run(text, lhs, a)
    &&& char_gap(text.skip(a), rhs, b)
    &&& char_run(text.skip(a + b), rhs, e)
}

/// What `quotation_pair` makes of `input`, whose text splits as
/// `quotation_split` says.
pub open spec fn quotation_outcome<'i>(
    input: ParseState<'i>,
    a: int,
    b: int,
    e: int,
    r: ParseResult<'i, SurroundPair<'i>>,
) -> bool {
    let text = input.text();
    if a == 0 {
        r == ParseResult::<'i, SurroundPair<'i>>::Stop(
            StopBecause::MissingString {
                message: "QUOTATION_LHS",
                position: input.start_offset,
            },
        )
    } else if a + b == text.len() {
        r == ParseResult::<'i, SurroundPair<'i>>::Stop(
            StopBecause::MissingString {
                message: "QUOTATION_RHS",
                position: (input.start_offset + utf8_len(text.take(a))) as usize,
            },
        )
    } else {
        &&& r matches ParseResult::Pending(state, pair)
        &&& pair.head@ == text.take(a)
        &&& pair.body@ == text.subrange(a, a + b)
        &&& pair.tail@ == text.subrange(a + b, a + b + e)
        &&& pair.covers(input, state)
        &&& state.wf()
    }
}

/// `r` is what `quotation_pair` makes of `input`.
pub open spec fn quotation_parsed<'i>(
    input: ParseState<'i>,
    lhs: char,
    rhs: char,
    r: ParseResult<'i, SurroundPair<'i>>,
) -> bool {
    exists|a: int, b: int, e: int| #[trigger]
        quotation_split(input.text(), lhs, rhs, a, b, e) && quotation_outcome(input, a, b, e, r)
}

/// Matches a run of the character `lhs`, then everything up to the next
/// character `rhs`, then a run of `rhs`.
pub fn quotation_pair<'i>(input: ParseState<'i>, lhs: char, rhs: char) -> (r: ParseResult<
    'i,
    SurroundPair<'i>,
>)
    requires
        input.wf(),
    ensures
        quotation_parsed(input, lhs, rhs, r),
{
    let ghost text = input.text();
    let is_lhs = |c: char| -> (b: bool)
        ensures
            b == (c == lhs),
        { c == lhs };
    let is_rhs = |c: char| -> (b: bool)
        ensures
            b == (c == rhs),
        { c == rhs };
    let (s_lhs, left) = match input.match_str_if(is_lhs, "QUOTATION_LHS") {
        ParseResult::Pending(s, v) => (s, v),
        ParseResult::Stop(reason) => {
            proof {
                let r = ParseResult::<'i, SurroundPair<'i>>::Stop(reason);
                assert(text.skip(0) =~= text);
                let b = choose|b: int| char_gap(text, rhs, b);
                let e = choose|e: int| char_run(text.skip(b), rhs, e);
                lemma_gap_exists(text, rhs);
                lemma_run_exists(text.skip(b), rhs);
                assert(quotation_split(text, lhs, rhs, 0, b, e));
                assert(quotation_outcome(input, 0, b, e, r));
            }
            return ParseResult::Stop(reason);
        },
    };
    let ghost a = left@.len() as int;
    let ghost t1 = s_lhs.text();
    proof {
        assert((left@ + t1).skip(a) =~= t1);
        assert forall|i: int| 0 <= i < a implies #[trigger] text[i] == lhs by {
            assert(is_lhs.ensures((text[i],), true));
        }
        if a < text.len() {
            assert(is_lhs.ensures((text[a],), false));
        }
        assert(char_run(text, lhs, a));
    }
    let (s_body, body) = match s_lhs.match_str_until(is_rhs, "QUOTATION_RHS") {
        ParseResult::Pending(s, v) => (s, v),
        ParseResult::Stop(reason) => {
            proof {
                let r = ParseResult::<'i, SurroundPair<'i>>::Stop(reason);
                let b = t1.len() as int;
                assert forall|i: int| 0 <= i < b implies #[trigger] t1[i] != rhs by {
                    assert(is_rhs.ensures((t1[i],), false));
                }
                assert(text.skip(a + b) =~= Seq::<char>::empty());
                assert(quotation_split(text, lhs, rhs, a, b, 0));
                assert(quotation_outcome(input, a, b, 0, r));
            }
            return ParseResult::Stop(reason);
        },
    };
    let ghost b = body@.len() as int;
    let ghost t2 = s_body.text();
    proof {
        assert((body@ + t2).skip(b) =~= t2);
        assert(text.skip(a + b) =~= t2);
        assert forall|i: int| 0 <= i < b implies #[trigger] t1[i] != rhs by {
            assert(is_rhs.ensures((t1[i],), false));
        }
        assert(is_rhs.ensures((t1[b],), true));
        assert(char_gap(t1, rhs, b));
        assert(t2[0] == t1[b]);
    }
    let (s_rhs, right) = match s_body.match_str_if(is_rhs, "QUOTATION_RHS") {
        ParseResult::Pending(s, v) => (s, v),
        ParseResult::Stop(reason) => {
            proof {
                assert(is_rhs.ensures((t2[0],), false));
            }
            return ParseResult::Stop(reason);
        },
    };
    let ghost e = right@.len() as int;
    proof {
        assert forall|i: int| 0 <= i < e implies #[trigger] t2[i] == rhs by {
            assert(is_rhs.ensures((t2[i],), true));
        }
        if e < t2.len() {
            assert(is_rhs.ensures((t2[e],), false));
        }
        assert(char_run(t2, rhs, e));
        assert(quotation_split(text, lhs, rhs, a, b, e));
        s_body.lemma_advanced_twice(s_lhs, input, left@, body@);
        s_rhs.lemma_advanced_twice(s_body, input, left@ + body@, right@);
        lemma_utf8_len_concat(left@, body@);
        assert(text.subrange(a, a + b) =~= body@);
        assert(text.subrange(a + b, a + b + e) =~= right@);
        assert(text.take(a) =~= left@);
    }
    let r = s_rhs.finish(
        SurroundPair {
            head: StringView::new(left, input.start_offset),
            body: StringView::new(body, s_lhs.start_offset),
            tail: StringView::new(right, s_body.start_offset),
        },
    );
    proof {
        assert(quotation_outcome(input, a, b, e, r));
    }
    r
}

/// A run of `n` characters `c` takes `n` times the width of `c`.
pub proof fn lemma_run_len(text: Seq<char>, c: char, n: int)
    requires
        0 <= n <= text.len(),
        forall|i: int| 0 <= i < n ==> #[trigger] text[i] == c,
    ensures
        utf8_len(text.take(n)) == n * spec_char_width(c),
    decreases n,
{
    if n == 0 {
        assert(text.take(0) =~= Seq::<char>::empty());
    } else {
        lemma_run_len(text, c, n - 1);
        lemma_take_step(text, n - 1);
        assert(text[n - 1] == c);
        assert(n * spec_char_width(c) == (n - 1) * spec_char_width(c) + spec_char_width(c))
            by (nonlinear_arith);
    }
}

/// The fence of `n` characters `delimiter` that opens the text of `input`
/// closes again at byte `found` of what follows it, or nowhere.
pub open spec fn fence_split(
    text: Seq<char>,
    delimiter: char,
    n: int,
    found: Option<int>,
) -> bool {
    &&& char_run(text, delimiter, n)
    &&& n != 0 && n != 2 ==> match found {
        Some(at) => first_occurrence(
            encode_utf8(text.skip(n)),
            encode_utf8(text.take(n)),
            at,
        ),
        None => never_occurs(encode_utf8(text.skip(n)), encode_utf8(text.take(n))),
    }
}

/// What `quotation_pair_nested` makes of `input`, whose text splits as
/// `fence_split` says. A fence of two characters is an empty string: the
/// run is both its opening and its closing.
pub open spec fn fence_outcome<'i>(
    input: ParseState<'i>,
    delimiter: char,
    n: int,
    found: Option<int>,
    r: ParseResult<'i, SurroundPair<'i>>,
) -> bool {
    let text = input.text();
    let fence = text.take(n);
    if n == 0 {
        r == ParseResult::<'i, SurroundPair<'i>>::Stop(
            StopBecause::MissingString { message: "QUOTE", position: input.start_offset },
        )
    } else if n == 2 {
        &&& r matches ParseResult::Pending(state, pair)
        &&& state.advanced_by(input, fence)
        &&& state.wf()
        &&& pair.head@ == fence
        &&& pair.head.spec_start() == input.start_offset
        &&& pair.body@.len() == 0
        &&& pair.body.spec_start() == input.start_offset + spec_char_width(delimiter)
        &&& pair.tail@ == fence
        &&& pair.tail.spec_start() == input.start_offset + spec_char_width(delimiter)
    } else {
        match found {
            Some(at) => {
                &&& r matches ParseResult::Pending(state, pair)
                &&& pair.head@ == fence
                &&& pair.body@ == slice_of(text.skip(n), 0, at)
                &&& pair.tail@ == fence
                &&& pair.covers(input, state)
                &&& state.wf()
            },
            None => r == ParseResult::<'i, SurroundPair<'i>>::Stop(
                StopBecause::MissingCharacter {
                    expected: delimiter,
                    position: (input.start_offset + utf8_len(fence)) as usize,
                },
            ),
        }
    }
}

/// `r` is what `quotation_pair_nested` makes of `input`.
pub open spec fn fence_parsed<'i>(
    input: ParseState<'i>,
    delimiter: char,
    r: ParseResult<'i, SurroundPair<'i>>,
) -> bool {
    exists|n: int, found: Option<int>| #[trigger]
        fence_split(input.text(), delimiter, n, found) && fence_outcome(
            input,
            delimiter,
            n,
            found,
            r,
        )
}

/// Matches a string fenced by runs of the character `delimiter`: the run at
/// the front opens it, and the leftmost occurrence of the same run after it
/// closes it.
pub fn quotation_pair_nested<'i>(input: ParseState<'i>, delimiter: char) -> (r: ParseResult<
    'i,
    SurroundPair<'i>,
>)
    requires
        input.wf(),
    ensures
        fence_parsed(input, delimiter, r),
{
    let ghost text = input.text();
    let is_mark = |c: char| -> (b: bool)
        ensures
            b == (c == delimiter),
        { c == delimiter };
    let (state, bound) = match input.match_str_if(is_mark, "QUOTE") {
        ParseResult::Pending(s, v) => (s, v),
        ParseResult::Stop(reason) => {
            proof {
                let r = ParseResult::<'i, SurroundPair<'i>>::Stop(reason);
                assert(fence_split(text, delimiter, 0, None));
                assert(fence_outcome(input, delimiter, 0, None, r));
            }
            return ParseResult::Stop(reason);
        },
    };
    let ghost n = bound@.len() as int;
    let ghost rest = state.text();
    proof {
        assert((bound@ + rest).skip(n) =~= rest);
        assert forall|i: int| 0 <= i < n implies #[trigger] text[i] == delimiter by {
            assert(is_mark.ensures((text[i],), true));
        }
        if n < text.len() {
            assert(is_mark.ensures((text[n],), false));
        }
        assert(char_run(text, delimiter, n));
        lemma_run_len(text, delimiter, n);
    }
    let width = char_width(delimiter);
    if byte_len(bound) == 2 * width {
        proof {
            assert(n * width == 2 * width ==> n == 2) by (nonlinear_arith)
                requires
                    width >= 1,
            ;
            lemma_view_is_decoding(bound);
        }
        let (empty, _) = split_str(bound, 0);
        proof {
            lemma_take_len(bound@, empty@.len() as int);
            assert(empty@ =~= bound@.take(empty@.len() as int));
        }
        let r = state.finish(
            SurroundPair {
                head: StringView::new(bound, input.start_offset),
                body: StringView::new(empty, input.start_offset + width),
                tail: StringView::new(bound, input.start_offset + width),
            },
        );
        proof {
            assert(fence_split(text, delimiter, 2, None));
            assert(fence_outcome(input, delimiter, 2, None, r));
        }
        return r;
    }
    proof {
        assert(n * width != 2 * width ==> n != 2) by (nonlinear_arith);
    }
    match bound.find_in(state.residual) {
        Some((at, end)) => {
            let (s_tail, body, last, tail) = state.advance_span(at, end);
            proof {
                lemma_view_is_decoding(state.residual);
                lemma_view_is_decoding(bound);
                lemma_view_is_decoding(tail);
                assert(state.bytes().subrange(at as int, end as int) == bound.spec_bytes());
                lemma_same_bytes_same_text(tail@, bound@);
                s_tail.lemma_advanced_twice(state, input, bound@, body@);
                last.lemma_advanced_twice(s_tail, input, bound@ + body@, tail@);
                lemma_utf8_len_concat(bound@, body@);
            }
            let r = last.finish(
                SurroundPair {
                    head: StringView::new(bound, input.start_offset),
                    body: StringView::new(body, state.start_offset),
                    tail: StringView::new(tail, s_tail.start_offset),
                },
            );
            proof {
                assert(fence_split(text, delimiter, n, Some(at as int)));
                assert(fence_outcome(input, delimiter, n, Some(at as int), r));
            }
            r
        },
        None => {
            let r = ParseResult::Stop(
                StopBecause::MissingCharacter { expected: delimiter, position: state.start_offset },
            );
            proof {
                assert(fence_split(text, delimiter, n, None));
                assert(fence_outcome(input, delimiter, n, None, r));
            }
            r
        },
    }
}

/// Every text has a run of `c` at its front, of some length.
pub proof fn lemma_run_exists(text: Seq<char>, c: char)
    ensures
        exists|k: int| char_run(text, c, k),
    decreases text.len(),
{
    if text.len() > 0 && text[0] == c {
        lemma_run_exists(text.drop_first(), c);
        let k = choose|k: int| char_run(text.drop_first(), c, k);
        assert forall|i: int| 0 <= i < k + 1 implies #[trigger] text[i] == c by {
            if i > 0 {
                assert(text.drop_first()[i - 1] == c);
            }
        }
        assert(char_run(text, c, k + 1));
    } else {
        assert(char_run(text, c, 0));
    }
}

/// Every text has a stretch without `c` at its front, of some length.
pub proof fn lemma_gap_exists(text: Seq<char>, c: char)
    ensures
        exists|k: int| char_gap(text, c, k),
    decreases text.len(),
{
    if text.len() > 0 && text[0] != c {
        lemma_gap_exists(text.drop_first(), c);
        let k = choose|k: int| char_gap(text.drop_first(), c, k);
        assert forall|i: int| 0 <= i < k + 1 implies #[trigger] text[i] != c by {
            if i > 0 {
                assert(text.drop_first()[i - 1] != c);
            }
        }
        assert(char_gap(text, c, k + 1));
    } else {
        assert(char_gap(text, c, 0));
    }
}

} // verus!
