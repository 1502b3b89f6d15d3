//! Numbers written with a leading zero and a mark for their base, such as
//! `0x1F` or `0b101`.

use crate::results::{ParseResult, StopBecause};
use crate::states::ParseState;
use vstd::prelude::*;
use vstd::string::*;

verus! {

/// The number that `c` stands for as a digit: `0`-`9` for themselves, and
/// the letters, small or capital, for ten and more. `None` where `c` is
/// neither.
pub open spec fn digit_value(c: char) -> Option<int> {
    if '0' <= c <= '9' {
        Some(c as int - 0x30)
    } else if 'a' <= c <= 'z' {
        Some(c as int - 0x61 + 10)
    } else if 'A' <= c <= 'Z' {
        Some(c as int - 0x41 + 10)
    } else {
        None
    }
}

/// `c` is a digit of numbers written in the base `base`.
pub open spec fn is_base_digit(c: char, base: u32) -> bool {
    digit_value(c) matches Some(v) && v < base
}

/// The text starts with the mark `mark` and at least one digit of the base
/// `base`.
pub open spec fn mark_fits(text: Seq<char>, mark: (char, u32)) -> bool {
    &&& text.len() >= 2
    &&& text[0] == mark.0
    &&& is_base_digit(text[1], mark.1)
}

/// The run of digits of the base `base` at the front of `text` is `k`
/// characters long.
pub open spec fn base_run(text: Seq<char>, base: u32, k: int) -> bool {
    &&& 0 <= k <= text.len()
    &&& forall|i: int| 0 <= i < k ==> is_base_digit(#[trigger] text[i], base)
    &&& k < text.len() ==> !is_base_digit(text[k], base)
}

/// Whether `c` is a digit of numbers written in the base `base`.
pub fn is_digit_of(c: char, base: u32) -> (b: bool)
    ensures
        b == is_base_digit(c, base),
{
    let v: u32 = c as u32;
    if c >= '0' && c <= '9' {
        v - 0x30 < base
    } else if c >= 'a' && c <= 'z' {
        v - 0x61 + 10 < base
    } else if c >= 'A' && c <= 'Z' {
        v - 0x41 + 10 < base
    } else {
        false
    }
}

/// A number written as a leading character, a mark for the base, and
/// digits of that base.
#[derive(Copy, Clone, Debug)]
pub struct ZeroBytePattern {
    leading: char,
    marks: &'static [(char, u32)],
    message: &'static str,
}

/// What the mark `mark` and digits of its base make of `state`.
pub open spec fn based_outcome<'i>(
    state: ParseState<'i>,
    mark: (char, u32),
    r: ParseResult<'i, (char, &'i str)>,
) -> bool {
    let text = state.text();
    if text.len() == 0 || text[0] != mark.0 {
        r == ParseResult::<'i, (char, &'i str)>::Stop(
            StopBecause::MissingCharacter { expected: mark.0, position: state.start_offset },
        )
    } else if !mark_fits(text, mark) {
        r == ParseResult::<'i, (char, &'i str)>::Stop(
            StopBecause::MissingString {
                message: "BASE",
                position: (state.start_offset + crate::text::spec_char_width(mark.0)) as usize,
            },
        )
    } else {
        &&& r matches ParseResult::Pending(last, found)
        &&& found.0 == mark.0
        &&& found.1@.len() > 0
        &&& base_run(text.drop_first(), mark.1, found.1@.len() as int)
        &&& found.1@ == text.subrange(1, 1 + found.1@.len() as int)
        &&& last.advanced_by(state, text.take(1 + found.1@.len() as int))
        &&& last.wf()
    }
}

/// Matches the mark `mark` and, after it, as many digits of the base
/// `base` as follow, at least one.
pub fn parse_byte_base<'i>(state: ParseState<'i>, mark: char, base: u32) -> (r: ParseResult<
    'i,
    (char, &'i str),
>)
    requires
        state.wf(),
    ensures
        based_outcome(state, (mark, base), r),
{
    let ghost text = state.text();
    let after = match state.match_char(mark) {
        ParseResult::Pending(s, _) => s,
        ParseResult::Stop(reason) => {
            return ParseResult::Stop(reason);
        },
    };
    let ghost rest = after.text();
    proof {
        assert((seq![mark] + rest).drop_first() =~= rest);
        crate::text::lemma_single_len(mark);
    }
    let digit = |c: char| -> (b: bool)
        ensures
            b == is_base_digit(c, base),
        { is_digit_of(c, base) };
    match after.match_str_if(digit, "BASE") {
        ParseResult::Pending(last, digits) => {
            proof {
                let k = digits@.len() as int;
                assert forall|i: int| 0 <= i < k implies is_base_digit(
                    #[trigger] rest[i],
                    base,
                ) by {
                    assert(digit.ensures((rest[i],), true));
                }
                if k < rest.len() {
                    assert(digit.ensures((rest[k],), false));
                }
                assert(is_base_digit(rest[0], base));
                assert(text[1] == rest[0]);
                assert(text.subrange(1, 1 + k) =~= digits@);
                last.lemma_advanced_twice(after, state, seq![mark], digits@);
                assert(text.take(1 + k) =~= seq![mark] + digits@);
            }
            last.finish((mark, digits))
        },
        ParseResult::Stop(reason) => {
            proof {
                if rest.len() > 0 {
                    assert(digit.ensures((rest[0],), false));
                    assert(text[1] == rest[0]);
                }
            }
            ParseResult::Stop(reason)
        },
    }
}

impl ZeroBytePattern {
    /// The character that every number starts with.
    pub closed spec fn spec_leading(self) -> char {
        self.leading
    }

    /// The marks, each with the base that it stands for, in the order in
    /// which they are tried.
    pub closed spec fn spec_marks(self) -> Seq<(char, u32)> {
        self.marks@
    }

    /// The name under which a number without a known mark is reported.
    pub closed spec fn spec_message(self) -> &'static str {
        self.message
    }

    /// The pattern of numbers that start with `leading`, go on with one of
    /// the `marks`, and end with digits of the base that stands beside the
    /// mark.
    pub fn new(leading: char, marks: &'static [(char, u32)], message: &'static str) -> (r: Self)
        ensures
            r.spec_leading() == leading,
            r.spec_marks() == marks@,
            r.spec_message() == message,
    {
        Self { leading, marks, message }
    }

    /// `j` is the index of the first mark that fits `text`.
    pub open spec fn first_fit(self, text: Seq<char>, j: int) -> bool {
        &&& 0 <= j < self.spec_marks().len()
        &&& mark_fits(text, self.spec_marks()[j])
        &&& forall|i: int| 0 <= i < j ==> !mark_fits(text, #[trigger] self.spec_marks()[i])
    }

    /// No mark fits `text`.
    pub open spec fn no_fit(self, text: Seq<char>) -> bool {
        forall|i: int|
            0 <= i < self.spec_marks().len() ==> !mark_fits(text, #[trigger] self.spec_marks()[i])
    }

    /// What the pattern makes of `state`, whose first character has to be
    /// the leading one: the first mark that fits decides.
    pub open spec fn zero_parsed<'i>(
        self,
        state: ParseState<'i>,
        r: ParseResult<'i, (char, &'i str)>,
    ) -> bool {
        let text = state.text();
        if text.len() == 0 || text[0] != self.spec_leading() {
            r == ParseResult::<'i, (char, &'i str)>::Stop(
                StopBecause::MissingCharacter {
                    expected: self.spec_leading(),
                    position: state.start_offset,
                },
            )
        } else if self.no_fit(text.drop_first()) {
            r == ParseResult::<'i, (char, &'i str)>::Stop(
                StopBecause::MissingCharacterSet {
                    expected: self.spec_message(),
                    position: (state.start_offset + crate::text::spec_char_width(
                        self.spec_leading(),
                    )) as usize,
                },
            )
        } else {
            exists|j: int, after: ParseState<'i>|
                {
                    &&& #[trigger] self.first_fit(text.drop_first(), j)
                    &&& #[trigger] after.advanced_by(state, seq![self.spec_leading()])
                    &&& based_outcome(after, self.spec_marks()[j], r)
                }
        }
    }

    /// Matches the leading character, and then the first of the marks that
    /// is followed by digits of its base, with these digits.
    pub fn match_pattern<'i>(self, state: ParseState<'i>) -> (r: ParseResult<
        'i,
        (char, &'i str),
    >)
        requires
            state.wf(),
            self.spec_marks().len() > 0,
        ensures
            self.zero_parsed(state, r),
    {
        let ghost text = state.text();
        let after = match state.match_char(self.leading) {
            ParseResult::Pending(s, _) => s,
            ParseResult::Stop(reason) => {
                return ParseResult::Stop(reason);
            },
        };
        let ghost rest = after.text();
        proof {
            assert((seq![self.leading] + rest).drop_first() =~= rest);
            crate::text::lemma_single_len(self.leading);
            assert(text.drop_first() == rest);
        }
        let mut j: usize = 0;
        while j < self.marks.len()
            invariant
                after.wf(),
                rest == after.text(),
                text == state.text(),
                text.len() > 0,
                text[0] == self.leading,
                text.drop_first() == rest,
                after.advanced_by(state, seq![self.leading]),
                j <= self.marks@.len(),
                forall|i: int| 0 <= i < j ==> !mark_fits(rest, #[trigger] self.marks@[i]),
            decreases self.marks@.len() - j,
        {
            let (mark, base) = self.marks[j];
            match parse_byte_base(after, mark, base) {
                ParseResult::Pending(s, v) => {
                    let r = s.finish(v);
                    proof {
                        assert(self.first_fit(rest, j as int));
                        assert(after.advanced_by(state, seq![self.spec_leading()]));
                        assert(based_outcome(after, self.spec_marks()[j as int], r));
                    }
                    return r;
                },
                ParseResult::Stop(_) => {},
            }
            j += 1;
        }
        ParseResult::Stop(
            StopBecause::MissingCharacterSet {
                expected: self.message,
                position: after.start_offset,
            },
        )
    }
}

} // verus!
