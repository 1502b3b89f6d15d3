//! Compiled matchers from outside this library: regular expressions
//! compiled to automata, and sets of characters stored as tries. Their
//! answers are taken on trust; what is made of an answer is verified.

use crate::patterns::Pattern;
use crate::results::{ParseResult, StopBecause};
use crate::states::ParseState;
use crate::text::{
    byte_len, char_width, first_char, is_span, lemma_boundary_range, lemma_concat_boundary,
    lemma_same_bytes_same_text, lemma_take_len, lemma_take_step, lemma_view_is_decoding, scan_run,
    spec_char_width, split_str, utf8_len,
};
use regex_automata::dfa::regex::Regex;
use regex_automata::MatchError;
use ucd_trie::TrieSetSlice;
use vstd::prelude::*;
use vstd::string::*;
use vstd::utf8::*;

verus! {

/// A regular expression compiled to a pair of automata.
#[verifier::external_type_specification]
#[verifier::external_body]
#[verifier::reject_recursive_types(A)]
#[verifier::reject_recursive_types(P)]
pub struct ExRegex<A, P>(Regex<A, P>);

/// A dense automaton.
#[verifier::external_type_specification]
#[verifier::external_body]
#[verifier::reject_recursive_types(T)]
pub struct ExDenseDfa<T>(regex_automata::dfa::dense::DFA<T>);

/// The prefilter that filters nothing.
#[verifier::external_type_specification]
#[verifier::external_body]
pub struct ExNoPrefilter(regex_automata::util::prefilter::None);

/// The reason why a search with an automaton gave up.
#[verifier::external_type_specification]
#[verifier::external_body]
pub struct ExMatchError(MatchError);

/// The reason why a pattern could not be compiled to automata.
#[verifier::external_type_specification]
#[verifier::external_body]
pub struct ExBuildError(regex_automata::dfa::Error);

/// A regular expression together with the automata that `Regex::new`
/// compiled it to. The automata of every value were made from its pattern
/// by that function, and by it alone.
#[derive(Debug)]
pub struct CompiledRegex {
    source: String,
    automata: Regex,
}

/// A pattern that does not compile to automata.
#[derive(Copy, Clone, Debug, PartialEq, Eq)]
pub struct InvalidPattern;

impl View for CompiledRegex {
    type V = Seq<char>;

    /// The pattern that was compiled.
    closed spec fn view(&self) -> Seq<char> {
        self.source@
    }
}

/// Whether `Regex::new` compiles the pattern `pattern`.
pub uninterp spec fn regex_compiles(pattern: Seq<char>) -> bool;

/// What `Regex::try_find_leftmost` answers on the automata that `Regex::new`
/// made of the pattern `pattern`, for the haystack `hay`: `None` where the
/// search gives up, `Some(None)` where nothing matches, and else the number
/// of the pattern that matched with the start and the end of its leftmost
/// match.
pub uninterp spec fn regex_answer(pattern: Seq<char>, hay: Seq<u8>) -> Option<
    Option<(usize, usize, usize)>,
>;

/// The leftmost match of the pattern `pattern` in `hay`, if the search
/// finds one.
pub open spec fn regex_found(pattern: Seq<char>, hay: Seq<u8>) -> Option<RegexMatch> {
    match regex_answer(pattern, hay) {
        Some(Some(m)) => Some(RegexMatch { pattern: m.0, start: m.1, end: m.2 }),
        _ => None,
    }
}

/// Calls `Regex::new` on `pattern` and keeps the automata together with
/// the pattern they were made of. Whether it succeeds depends on the
/// pattern alone.
#[verifier::external_body]
pub(crate) fn compile_regex(pattern: &str) -> (r: Result<
    CompiledRegex,
    regex_automata::dfa::Error,
>)
    ensures
        r.is_ok() == regex_compiles(pattern@),
        r matches Ok(compiled) ==> compiled@ == pattern@,
{
    match Regex::new(pattern) {
        Ok(automata) => Ok(CompiledRegex { source: pattern.to_owned(), automata }),
        Err(error) => Err(error),
    }
}

/// Where a regular expression matched: which of its patterns, and the byte
/// offsets at which the match starts and ends.
#[derive(Copy, Clone, Debug, PartialEq, Eq)]
pub struct RegexMatch {
    /// The number of the pattern that matched.
    pub pattern: usize,
    /// Where the match starts.
    pub start: usize,
    /// Where the match ends.
    pub end: usize,
}

/// Calls `Regex::try_find_leftmost` of the automata of `re` on the bytes
/// of `hay` and hands back its answer, with a match written as a
/// `RegexMatch`. The answer depends on the pattern and the haystack alone.
#[verifier::external_body]
pub(crate) fn regex_find_leftmost(re: &CompiledRegex, hay: &str) -> (r: Result<
    Option<RegexMatch>,
    MatchError,
>)
    ensures
        regex_answer(re@, hay.spec_bytes()) == (match r {
            Ok(Some(m)) => Some(Some((m.pattern, m.start, m.end))),
            Ok(None) => Some(None),
            Err(_) => None,
        }),
{
    match re.automata.try_find_leftmost(hay.as_bytes()) {
        Ok(Some(m)) => Ok(
            Some(RegexMatch { pattern: m.pattern().as_usize(), start: m.start(), end: m.end() }),
        ),
        Ok(None) => Ok(None),
        Err(e) => Err(e),
    }
}

/// The bit of the code point `cp` is set in `chunk`, which holds one bit
/// for each of 64 code points in a row.
pub open spec fn chunk_holds(chunk: u64, cp: u32) -> bool {
    (chunk >> ((cp & 0x3f) as u64)) & 1 == 1
}

/// The character `c` belongs to the trie that is made of these six tables.
/// A code point below `0x800` has its chunk in the first table, at the
/// code point divided by 64. A code point below `0x10000` finds the number
/// of its chunk in the first level of the second table. Any other code
/// point finds in the first level of the third table the block of 64
/// entries of the second level that holds the number of its chunk. A code
/// point beyond a first level belongs to no set.
pub open spec fn trie_holds(
    tree1_level1: Seq<u64>,
    tree2_level1: Seq<u8>,
    tree2_level2: Seq<u64>,
    tree3_level1: Seq<u8>,
    tree3_level2: Seq<u8>,
    tree3_level3: Seq<u64>,
    c: char,
) -> bool {
    let cp = c as u32;
    if cp < 0x800 {
        chunk_holds(tree1_level1[(cp >> 6) as int], cp)
    } else if cp < 0x10000 {
        let at = (cp >> 6) as int - 0x20;
        at < tree2_level1.len() && chunk_holds(tree2_level2[tree2_level1[at] as int], cp)
    } else {
        let at = (cp >> 12) as int - 0x10;
        at < tree3_level1.len() && chunk_holds(
            tree3_level3[tree3_level2[tree3_level1[at] as int * 64 + ((cp >> 6) & 0x3f) as int] as int],
            cp,
        )
    }
}

/// Every index that a lookup in the six tables can reach is in range: the
/// first table covers the code points below `0x800`, each entry of a first
/// level names a chunk of the level after it, and each entry of a second
/// level names a leaf.
pub open spec fn trie_sound(
    tree1_level1: Seq<u64>,
    tree2_level1: Seq<u8>,
    tree2_level2: Seq<u64>,
    tree3_level1: Seq<u8>,
    tree3_level2: Seq<u8>,
    tree3_level3: Seq<u64>,
) -> bool {
    &&& tree1_level1.len() >= 32
    &&& forall|i: int|
        0 <= i < tree2_level1.len() ==> (#[trigger] tree2_level1[i]) < tree2_level2.len()
    &&& forall|i: int|
        0 <= i < tree3_level1.len() ==> (#[trigger] tree3_level1[i]) * 64 + 63
            < tree3_level2.len()
    &&& forall|i: int|
        0 <= i < tree3_level2.len() ==> (#[trigger] tree3_level2[i]) < tree3_level3.len()
}

/// Calls `TrieSetSlice::contains_char` on the trie made of the six tables.
/// The tables must be sound, so that the lookup stays within them; the
/// answer is what the three steps of the lookup find in the tables.
#[verifier::external_body]
pub(crate) fn trie_contains_char(
    tree1_level1: &[u64],
    tree2_level1: &[u8],
    tree2_level2: &[u64],
    tree3_level1: &[u8],
    tree3_level2: &[u8],
    tree3_level3: &[u64],
    c: char,
) -> (b: bool)
    requires
        trie_sound(
            tree1_level1@,
            tree2_level1@,
            tree2_level2@,
            tree3_level1@,
            tree3_level2@,
            tree3_level3@,
        ),
    ensures
        b == trie_holds(
            tree1_level1@,
            tree2_level1@,
            tree2_level2@,
            tree3_level1@,
            tree3_level2@,
            tree3_level3@,
            c,
        ),
{
    TrieSetSlice {
        tree1_level1,
        tree2_level1,
        tree2_level2,
        tree3_level1,
        tree3_level2,
        tree3_level3,
    }.contains_char(c)
}

/// A set of characters, stored as the six tables of a three-level trie.
#[derive(Copy, Clone, Debug)]
pub struct CharacterSet<'a> {
    tree1_level1: &'a [u64],
    tree2_level1: &'a [u8],
    tree2_level2: &'a [u64],
    tree3_level1: &'a [u8],
    tree3_level2: &'a [u8],
    tree3_level3: &'a [u64],
}

/// Whether every entry of `entries`, times `scale` and plus `room`, is
/// less than `limit`.
fn entries_below(entries: &[u8], scale: usize, room: usize, limit: usize) -> (b: bool)
    requires
        scale <= 64,
        room <= 64,
    ensures
        b == forall|i: int|
            0 <= i < entries@.len() ==> (#[trigger] entries@[i]) * scale + room < limit,
{
    let mut i: usize = 0;
    while i < entries.len()
        invariant
            scale <= 64,
            room <= 64,
            i <= entries@.len(),
            forall|k: int| 0 <= k < i ==> (#[trigger] entries@[k]) * scale + room < limit,
        decreases entries@.len() - i,
    {
        let entry: usize = entries[i] as usize;
        assert(entry * scale <= 255 * 64) by (nonlinear_arith)
            requires
                entry <= 255,
                scale <= 64,
        ;
        if entry * scale + room >= limit {
            return false;
        }
        i += 1;
    }
    true
}

impl<'a> CharacterSet<'a> {
    /// The six tables of the set.
    pub closed spec fn tables(self) -> (Seq<u64>, Seq<u8>, Seq<u64>, Seq<u8>, Seq<u8>, Seq<u64>) {
        (
            self.tree1_level1@,
            self.tree2_level1@,
            self.tree2_level2@,
            self.tree3_level1@,
            self.tree3_level2@,
            self.tree3_level3@,
        )
    }

    /// The tables of every set are sound.
    #[verifier::type_invariant]
    pub closed spec fn wf(self) -> bool {
        trie_sound(
            self.tree1_level1@,
            self.tree2_level1@,
            self.tree2_level2@,
            self.tree3_level1@,
            self.tree3_level2@,
            self.tree3_level3@,
        )
    }

    /// `k` is the index of the first character of `hay` that belongs to the
    /// set.
    pub open spec fn first_member(self, hay: Seq<char>, k: int) -> bool {
        &&& 0 <= k < hay.len()
        &&& self.spec_contains(hay[k])
        &&& forall|j: int| 0 <= j < k ==> !self.spec_contains(hay[j])
    }

    /// The character `c` belongs to the set.
    pub open spec fn spec_contains(self, c: char) -> bool {
        let t = self.tables();
        trie_holds(t.0, t.1, t.2, t.3, t.4, t.5, c)
    }

    /// The set stored in the six tables, or `None` where the tables are
    /// not sound.
    pub fn new(
        tree1_level1: &'a [u64],
        tree2_level1: &'a [u8],
        tree2_level2: &'a [u64],
        tree3_level1: &'a [u8],
        tree3_level2: &'a [u8],
        tree3_level3: &'a [u64],
    ) -> (r: Option<Self>)
        ensures
            r.is_some() <==> trie_sound(
                tree1_level1@,
                tree2_level1@,
                tree2_level2@,
                tree3_level1@,
                tree3_level2@,
                tree3_level3@,
            ),
            r matches Some(set) ==> set.tables() == (
                tree1_level1@,
                tree2_level1@,
                tree2_level2@,
                tree3_level1@,
                tree3_level2@,
                tree3_level3@,
            ),
    {
        if tree1_level1.len() >= 32 && entries_below(tree2_level1, 1, 0, tree2_level2.len())
            && entries_below(tree3_level1, 64, 63, tree3_level2.len()) && entries_below(
            tree3_level2,
            1,
            0,
            tree3_level3.len(),
        ) {
            Some(
                Self {
                    tree1_level1,
                    tree2_level1,
                    tree2_level2,
                    tree3_level1,
                    tree3_level2,
                    tree3_level3,
                },
            )
        } else {
            None
        }
    }

    /// Whether the character `c` belongs to the set.
    pub fn contains_char(&self, c: char) -> (b: bool)
        ensures
            b == self.spec_contains(c),
    {
        proof {
            use_type_invariant(self);
        }
        trie_contains_char(
            self.tree1_level1,
            self.tree2_level1,
            self.tree2_level2,
            self.tree3_level1,
            self.tree3_level2,
            self.tree3_level3,
            c,
        )
    }
}

impl<'a> Pattern for CharacterSet<'a> {
    /// The leftmost match is the first character that belongs to the set.
    open spec fn locates(&self, hay: Seq<char>, found: Option<(usize, usize)>) -> bool {
        match found {
            Some((start, end)) => exists|k: int| #[trigger]
                self.first_member(hay, k) && start == utf8_len(hay.take(k)) && end == start
                    + spec_char_width(hay[k]),
            None => forall|k: int| 0 <= k < hay.len() ==> !self.spec_contains(hay[k]),
        }
    }

    fn find_in(&self, hay: &str) -> (found: Option<(usize, usize)>) {
        let member = |c: char| -> (b: bool)
            ensures
                b == self.spec_contains(c),
            { self.contains_char(c) };
        let (offset, k) = scan_run(hay, &member, false);
        proof {
            assert(hay@ =~= hay@.take(k@) + hay@.skip(k@));
            lemma_take_len(hay@, k@);
            lemma_concat_boundary(hay@.take(k@), hay@.skip(k@));
            assert forall|i: int| 0 <= i < k@ implies !self.spec_contains(#[trigger] hay@[i]) by {
                assert(member.ensures((hay@[i],), false));
            }
        }
        if offset == byte_len(hay) {
            None
        } else {
            let (_, rest) = split_str(hay, offset);
            proof {
                assert(member.ensures((hay@[k@],), true));
                lemma_take_step(hay@, k@);
                assert(hay@ =~= hay@.take(k@ + 1) + hay@.skip(k@ + 1));
                lemma_concat_boundary(hay@.take(k@ + 1), hay@.skip(k@ + 1));
                assert(self.first_member(hay@, k@));
                lemma_same_bytes_same_text(rest@, hay@.skip(k@));
            }
            match first_char(rest) {
                Some(c) => Some((offset, offset + char_width(c))),
                None => None,
            }
        }
    }
}

impl Pattern for CompiledRegex {
    /// The leftmost match that the search finds, where it holds whole
    /// characters of the text; nothing where the search finds no match,
    /// gives up, or reports a match that cuts a character.
    open spec fn locates(&self, hay: Seq<char>, found: Option<(usize, usize)>) -> bool {
        found == answered_span(hay, regex_found(self@, encode_utf8(hay)))
    }

    fn find_in(&self, hay: &str) -> (found: Option<(usize, usize)>) {
        let answer = match regex_find_leftmost(self, hay) {
            Ok(answer) => answer,
            Err(_) => None,
        };
        span_of_answer(hay, answer)
    }
}

impl CompiledRegex {
    /// Compiles `pattern`.
    pub fn new(pattern: &str) -> (r: Result<Self, InvalidPattern>)
        ensures
            r.is_ok() <==> regex_compiles(pattern@),
            r matches Ok(compiled) ==> compiled@ == pattern@,
    {
        match compile_regex(pattern) {
            Ok(compiled) => Ok(compiled),
            Err(_) => Err(InvalidPattern),
        }
    }

    /// The pattern that was compiled.
    pub fn as_str(&self) -> (r: &str)
        ensures
            r@ == self@,
    {
        self.source.as_str()
    }
}

/// The span that a search in the text `hay` reports, where the matcher
/// answered `answer`: the start and the end of the match where they hold
/// whole characters of the text, and nothing for any other answer.
pub open spec fn answered_span(hay: Seq<char>, answer: Option<RegexMatch>) -> Option<
    (usize, usize),
> {
    match answer {
        Some(m) if is_span(encode_utf8(hay), m.start as int, m.end as int) => Some(
            (m.start, m.end),
        ),
        _ => None,
    }
}

/// Makes of the answer `answer` of a search in `hay` the span to report:
/// the start and the end of the match where they hold whole characters of
/// the text, and nothing for any other answer.
pub fn span_of_answer(hay: &str, answer: Option<RegexMatch>) -> (found: Option<(usize, usize)>)
    ensures
        found == answered_span(hay@, answer),
{
    proof {
        lemma_view_is_decoding(hay);
        if let Some(m) = answer {
            if is_char_boundary(hay.spec_bytes(), m.end as int) {
                lemma_boundary_range(hay.spec_bytes(), m.end as int);
            }
            if is_char_boundary(hay.spec_bytes(), m.start as int) {
                lemma_boundary_range(hay.spec_bytes(), m.start as int);
            }
        }
    }
    match answer {
        Some(m) => {
            if m.start <= m.end && hay.is_char_boundary(m.start) && hay.is_char_boundary(m.end) {
                Some((m.start, m.end))
            } else {
                None
            }
        },
        None => None,
    }
}

/// What matching a compiled matcher makes of `state`, where the search
/// answered `found`: the cursor moves to the end of the match, which must
/// lie in the text and on a character boundary; anything else is a failure
/// named `message`.
pub open spec fn found_outcome<'i>(
    state: ParseState<'i>,
    found: Option<RegexMatch>,
    message: &'static str,
    r: ParseResult<'i, RegexMatch>,
) -> bool {
    match found {
        Some(m) if is_char_boundary(state.bytes(), m.end as int) => {
            &&& r matches ParseResult::Pending(last, value)
            &&& value == m
            &&& last.is_advance_of(state, m.end as nat)
        },
        _ => r == ParseResult::<'i, RegexMatch>::Stop(
            StopBecause::MustBe { message, position: state.start_offset },
        ),
    }
}

impl<'i> ParseState<'i> {
    /// Makes of the answer `found` of a search in the text of the cursor a
    /// parse result: a match moves the cursor to its end, which must lie in
    /// the text and on a character boundary; anything else is a failure
    /// named `message`.
    pub fn match_found(self, found: Option<RegexMatch>, message: &'static str) -> (r: ParseResult<
        'i,
        RegexMatch,
    >)
        requires
            self.wf(),
        ensures
            found_outcome(self, found, message, r),
    {
        match found {
            Some(m) => {
                if self.residual.is_char_boundary(m.end) {
                    let (state, _) = self.advance_split(m.end);
                    state.finish(m)
                } else {
                    ParseResult::Stop(StopBecause::MustBe { message, position: self.start_offset })
                }
            },
            None => ParseResult::Stop(StopBecause::MustBe { message, position: self.start_offset }),
        }
    }

    /// Searches the text of the cursor for the leftmost match of `re` and
    /// moves the cursor to the end of that match. Where there is no match,
    /// or the search gives up, the failure is named `message`.
    pub fn match_regex(&self, re: &CompiledRegex, message: &'static str) -> (r: ParseResult<
        'i,
        RegexMatch,
    >)
        requires
            self.wf(),
        ensures
            found_outcome(*self, regex_found(re@, self.bytes()), message, r),
    {
        let found = match regex_find_leftmost(re, self.residual) {
            Ok(found) => found,
            Err(_) => None,
        };
        self.match_found(found, message)
    }

    /// Matches one character that belongs to `set`.
    pub fn match_char_set(self, set: CharacterSet, message: &'static str) -> (r: ParseResult<
        'i,
        char,
    >)
        requires
            self.wf(),
        ensures
            match r {
                ParseResult::Pending(state, c) => {
                    &&& self.text().len() > 0
                    &&& self.text()[0] == c
                    &&& set.spec_contains(c)
                    &&& state.advanced_by(self, seq![c])
                    &&& state.wf()
                },
                ParseResult::Stop(reason) => {
                    &&& self.text().len() == 0 || !set.spec_contains(self.text()[0])
                    &&& reason == StopBecause::MustBe { message, position: self.start_offset }
                },
            },
    {
        let member = |c: char| -> (b: bool)
            ensures
                b == set.spec_contains(c),
            { set.contains_char(c) };
        self.match_char_if(member, message)
    }
}

} // verus!
