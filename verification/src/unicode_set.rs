//! Sets of characters written as source text: a set is compressed into the
//! six tables of a trie, and the tables are written as a constant that can
//! be compiled into a grammar.

use crate::results::message::{dec_text, decimal_width, push_decimal};
use crate::third_party::CharacterSet;
use std::collections::BTreeSet;
use ucd_trie::TrieSetOwned;
use vstd::prelude::*;
use vstd::std_specs::btree::*;
use vstd::std_specs::iter::IteratorSpec;
use vstd::string::*;

verus! {

/// The six tables of a trie.
#[derive(Clone, Debug, PartialEq, Eq)]
pub struct TrieTables {
    /// The table of the code points below `0x800`.
    pub tree1_level1: Vec<u64>,
    /// The first level of the table of the code points below `0x10000`.
    pub tree2_level1: Vec<u8>,
    /// The second level of that table.
    pub tree2_level2: Vec<u64>,
    /// The first level of the table of the other code points.
    pub tree3_level1: Vec<u8>,
    /// The second level of that table.
    pub tree3_level2: Vec<u8>,
    /// The third level of that table.
    pub tree3_level3: Vec<u64>,
}

/// Why a set could not be written as a trie.
#[derive(Copy, Clone, Debug, PartialEq, Eq)]
pub enum TrieError {
    /// The set holds a number above `0x10FFFF`.
    InvalidCodepoint(u32),
    /// The set does not compress into the tables of a trie.
    GaveUp,
}

impl View for TrieTables {
    type V = (Seq<u64>, Seq<u8>, Seq<u64>, Seq<u8>, Seq<u8>, Seq<u64>);

    open spec fn view(&self) -> Self::V {
        (
            self.tree1_level1@,
            self.tree2_level1@,
            self.tree2_level2@,
            self.tree3_level1@,
            self.tree3_level2@,
            self.tree3_level3@,
        )
    }
}

impl TrieTables {
    /// The set stored in the tables, or `None` where the tables are not
    /// sound.
    pub fn as_set(&self) -> (r: Option<CharacterSet<'_>>)
        ensures
            r.is_some() <==> crate::third_party::trie_sound(
                self@.0,
                self@.1,
                self@.2,
                self@.3,
                self@.4,
                self@.5,
            ),
            r matches Some(set) ==> set.tables() == self@,
    {
        CharacterSet::new(
            self.tree1_level1.as_slice(),
            self.tree2_level1.as_slice(),
            self.tree2_level2.as_slice(),
            self.tree3_level1.as_slice(),
            self.tree3_level2.as_slice(),
            self.tree3_level3.as_slice(),
        )
    }
}

/// What `TrieSetOwned::from_codepoints` makes of the code points
/// `codepoints`: the six tables of their trie, or `None` where it fails.
pub uninterp spec fn trie_built(codepoints: Set<u32>) -> Option<
    (Seq<u64>, Seq<u8>, Seq<u64>, Seq<u8>, Seq<u8>, Seq<u64>),
>;

/// Every number of `points` is at most `0x10FFFF`.
pub open spec fn all_codepoints(points: Set<u32>) -> bool {
    forall|v: u32| points.contains(v) ==> v <= 0x10FFFF
}

/// Calls `TrieSetOwned::from_codepoints` on the code points of
/// `codepoints` and hands back the six tables of the trie, copied, or its
/// error. The outcome depends on the set of code points alone. A number
/// above `0x10FFFF` is refused as such; a set without one fails only where
/// it does not compress into the tables.
#[verifier::external_body]
pub(crate) fn build_trie(codepoints: &BTreeSet<u32>) -> (r: Result<TrieTables, TrieError>)
    ensures
        match r {
            Ok(tables) => trie_built(codepoints@) == Some(tables@),
            Err(error) => trie_built(codepoints@).is_none() && match error {
                TrieError::InvalidCodepoint(cp) => codepoints@.contains(cp) && cp > 0x10FFFF,
                TrieError::GaveUp => all_codepoints(codepoints@),
            },
        },
{
    match TrieSetOwned::from_codepoints(codepoints.iter()) {
        Ok(trie) => Ok(
            TrieTables {
                tree1_level1: trie.as_slice().tree1_level1.to_vec(),
                tree2_level1: trie.as_slice().tree2_level1.to_vec(),
                tree2_level2: trie.as_slice().tree2_level2.to_vec(),
                tree3_level1: trie.as_slice().tree3_level1.to_vec(),
                tree3_level2: trie.as_slice().tree3_level2.to_vec(),
                tree3_level3: trie.as_slice().tree3_level3.to_vec(),
            },
        ),
        Err(ucd_trie::Error::InvalidCodepoint(cp)) => Err(TrieError::InvalidCodepoint(cp)),
        Err(ucd_trie::Error::GaveUp) => Err(TrieError::GaveUp),
    }
}

/// `n` spaces.
pub open spec fn blanks(n: nat) -> Seq<char> {
    Seq::new(n, |i: int| ' ')
}

/// The number `value` as it stands in a list: its digits, a comma and a
/// space.
pub open spec fn item_text(value: u64) -> Seq<char> {
    dec_text(value as nat) + ", "@
}

/// The numbers of `values` from index `from` on, as they stand in a list
/// whose current line is `line_width` characters wide: a number that finds
/// the line wider than `max_width` starts a new line, indented by eight
/// spaces.
pub open spec fn items_text(values: Seq<u64>, from: int, line_width: nat, max_width: nat) -> Seq<
    char,
>
    decreases values.len() - from,
{
    if from < 0 || from >= values.len() {
        Seq::empty()
    } else if line_width > max_width {
        "\n"@ + blanks(8) + item_text(values[from]) + items_text(
            values,
            from + 1,
            8 + item_text(values[from]).len(),
            max_width,
        )
    } else {
        item_text(values[from]) + items_text(
            values,
            from + 1,
            line_width + item_text(values[from]).len(),
            max_width,
        )
    }
}

/// The numbers `values` as a slice literal in lines of about `max_width`
/// characters, with the comma and the line end that follow it.
pub open spec fn numbers_text(values: Seq<u64>, max_width: nat) -> Seq<char> {
    if values.len() == 0 {
        "&[],\n"@
    } else {
        "&["@ + items_text(values, 0, usize::MAX as nat, max_width) + "\n    ],\n"@
    }
}

/// Writing numbers in lines of a given width.
pub trait EasyWrite {
    /// The text written so far.
    spec fn written(&self) -> Seq<char>;

    /// Writes the numbers of `slice` as a slice literal in lines of about
    /// `max_width` characters.
    fn write_slice_numbers(&mut self, slice: &[u64], max_width: usize, indent: usize)
        requires
            max_width + 22 <= usize::MAX,
        ensures
            final(self).written() == old(self).written() + numbers_text(slice@, max_width as nat),
    ;

    /// Writes `spaces` spaces.
    fn write_indent(&mut self, spaces: usize)
        ensures
            final(self).written() == old(self).written() + blanks(spaces as nat),
    ;

    /// Ends the line.
    fn write_new_line(&mut self)
        ensures
            final(self).written() == old(self).written() + "\n"@,
    ;
}

impl EasyWrite for String {
    open spec fn written(&self) -> Seq<char> {
        self@
    }

    fn write_slice_numbers(&mut self, slice: &[u64], max_width: usize, indent: usize) {
        if slice.len() == 0 {
            self.append("&[],\n");
            return ;
        }
        self.append("&[");
        let ghost before = self@;
        let mut line_width: usize = usize::MAX;
        let mut i: usize = 0;
        proof {
            assert(before + Seq::<char>::empty() =~= before);
        }
        while i < slice.len()
            invariant
                max_width + 22 <= usize::MAX,
                i <= slice@.len(),
                line_width <= max_width + 22 || line_width <= 30 || (i == 0 && line_width
                    == usize::MAX),
                before + items_text(slice@, 0, usize::MAX as nat, max_width as nat) == self@
                    + items_text(slice@, i as int, line_width as nat, max_width as nat),
            decreases slice@.len() - i,
        {
            let ghost start = self@;
            let ghost item = item_text(slice@[i as int]);
            let ghost wrapped = line_width > max_width;
            let ghost width: nat = if wrapped {
                8
            } else {
                line_width as nat
            };
            if line_width > max_width {
                self.write_new_line();
                self.write_indent(8);
                line_width = 8;
            }
            push_decimal(self, slice[i]);
            self.append(", ");
            proof {
                reveal_strlit(", ");
                let rest = items_text(slice@, i + 1, width + item.len(), max_width as nat);
                if wrapped {
                    assert(start + ("\n"@ + blanks(8) + item + rest) =~= self@ + rest);
                } else {
                    assert(start + (item + rest) =~= self@ + rest);
                }
            }
            line_width += decimal_width(slice[i]) + 2;
            i += 1;
        }
        self.append("\n    ],\n");
    }

    fn write_indent(&mut self, spaces: usize) {
        let ghost before = self@;
        let mut i: usize = 0;
        while i < spaces
            invariant
                i <= spaces,
                self@ == before + blanks(i as nat),
            decreases spaces - i,
        {
            self.push(' ');
            i += 1;
            proof {
                assert(self@ =~= before + blanks(i as nat));
            }
        }
    }

    fn write_new_line(&mut self) {
        proof {
            reveal_strlit("\n");
        }
        self.push('\n');
        proof {
            assert(self@ =~= old(self)@ + "\n"@);
        }
    }
}

/// `c` as it stands in the name of a constant: a letter or digit of ASCII
/// in its capital form, and an underscore for anything else.
pub open spec fn name_char(c: char) -> char {
    if 'a' <= c <= 'z' {
        ((c as u8 - 0x20) as u8) as char
    } else if ('A' <= c <= 'Z') || ('0' <= c <= '9') {
        c
    } else {
        '_'
    }
}

/// The name of the constant for a set called `set`.
pub open spec fn name_text(set: Seq<char>) -> Seq<char> {
    Seq::new(set.len(), |i: int| name_char(set[i]))
}

/// `v` is the number of a character between `range.0` and `range.1`, both
/// included.
pub open spec fn in_range(range: (char, char), v: u32) -> bool {
    &&& range.0 as u32 <= v <= range.1 as u32
    &&& !(0xD800 <= v <= 0xDFFF)
}

/// `v` is the number of a character of one of the first `upto` ranges of
/// `ranges`.
pub open spec fn in_ranges(ranges: Seq<(char, char)>, upto: int, v: u32) -> bool {
    exists|i: int| 0 <= i < upto && i < ranges.len() && in_range(#[trigger] ranges[i], v)
}

/// The numbers of the characters of `ranges`.
pub open spec fn range_points(ranges: Seq<(char, char)>) -> Set<u32> {
    Set::new(|v: u32| in_ranges(ranges, ranges.len() as int, v))
}

/// The numbers of the characters `chars`.
pub open spec fn char_points(chars: Seq<char>) -> Set<u32> {
    Set::new(|v: u32| exists|i: int| 0 <= i < chars.len() && #[trigger] chars[i] as u32 == v)
}

/// One field of the constant: its name, indented, and its numbers.
pub open spec fn field_text(field: Seq<char>, values: Seq<u64>, max_width: nat) -> Seq<char> {
    blanks(4) + field + ": "@ + numbers_text(values, max_width)
}

/// The numbers of `values`, each in 64 bits.
pub open spec fn widened(values: Seq<u8>) -> Seq<u64> {
    Seq::new(values.len(), |i: int| values[i] as u64)
}

/// The source text of the constant `name` that holds the tables `tables`,
/// in lines of about `max_width` characters.
pub open spec fn export_text(
    name: Seq<char>,
    max_width: nat,
    tables: (Seq<u64>, Seq<u8>, Seq<u64>, Seq<u8>, Seq<u8>, Seq<u64>),
) -> Seq<char> {
    "#[rustfmt::skip]\nconst "@ + name + ": TrieSetSlice<'static> = TrieSetSlice"@ + " {\n"@
        + field_text("tree1_level1"@, tables.0, max_width) + field_text(
        "tree2_level1"@,
        widened(tables.1),
        max_width,
    ) + field_text("tree2_level2"@, tables.2, max_width) + field_text(
        "tree3_level1"@,
        widened(tables.3),
        max_width,
    ) + field_text("tree3_level2"@, widened(tables.4), max_width) + field_text(
        "tree3_level3"@,
        tables.5,
        max_width,
    ) + "};\n"@
}

/// Adds the code point `v` to `set`.
fn insert_point(set: &mut BTreeSet<u32>, v: u32)
    ensures
        final(set)@ == old(set)@.insert(v),
{
    broadcast use vstd::laws_cmp::group_laws_cmp;

    set.insert(v);
}

/// The numbers of `values`, each in 64 bits.
pub fn widen(values: &[u8]) -> (r: Vec<u64>)
    ensures
        r@ == widened(values@),
{
    let mut wide: Vec<u64> = Vec::new();
    let mut i: usize = 0;
    while i < values.len()
        invariant
            i <= values@.len(),
            wide@ == widened(values@.take(i as int)),
        decreases values@.len() - i,
    {
        wide.push(values[i] as u64);
        i += 1;
        proof {
            assert(wide@ =~= widened(values@.take(i as int)));
        }
    }
    proof {
        assert(values@.take(i as int) =~= values@);
    }
    wide
}

/// A set of characters with the name of the constant that it is written
/// to.
#[derive(Debug)]
pub struct UnicodeSet {
    name: String,
    max_width: usize,
    set: BTreeSet<u32>,
}

impl UnicodeSet {
    /// The name of the constant.
    pub closed spec fn spec_name(self) -> Seq<char> {
        self.name@
    }

    /// The width of the lines written.
    pub closed spec fn spec_max_width(self) -> nat {
        self.max_width as nat
    }

    /// The numbers of the characters of the set.
    pub closed spec fn codepoints(self) -> Set<u32> {
        self.set@
    }

    /// The lines are not wider than a line can be counted, and the set
    /// holds code points only.
    #[verifier::type_invariant]
    pub closed spec fn wf(self) -> bool {
        &&& self.max_width + 22 <= usize::MAX
        &&& all_codepoints(self.set@)
    }

    /// The empty set, written to the constant named after `set`.
    pub fn new(set: &str) -> (r: Self)
        ensures
            r.spec_name() == name_text(set@),
            r.spec_max_width() == 144,
            r.codepoints() == Set::<u32>::empty(),
    {
        broadcast use vstd::string::group_string_axioms;

        let mut name = String::new();
        let mut it = set.chars();
        let ghost mut i: int = 0;
        proof {
            assert(set@.skip(0) =~= set@);
            assert(name@ =~= name_text(set@.take(0)));
        }
        loop
            invariant_except_break
                it.remaining() == set@.skip(i),
            invariant
                0 <= i <= set@.len(),
                name@ == name_text(set@.take(i)),
            ensures
                i == set@.len(),
            decreases set@.len() - i,
        {
            match it.next() {
                Some(c) => {
                    proof {
                        assert(c == set@[i]);
                        assert(set@.skip(i).drop_first() =~= set@.skip(i + 1));
                    }
                    if c >= 'a' && c <= 'z' {
                        name.push((c as u8 - 0x20) as char);
                    } else if (c >= 'A' && c <= 'Z') || (c >= '0' && c <= '9') {
                        name.push(c);
                    } else {
                        name.push('_');
                    }
                    proof {
                        assert(name@ =~= name_text(set@.take(i + 1)));
                        i = i + 1;
                    }
                },
                None => {
                    break ;
                },
            }
        }
        proof {
            assert(set@.take(i) =~= set@);
        }
        Self { name, max_width: 144, set: BTreeSet::new() }
    }

    /// The set of the characters of the inclusive `ranges`, under the name
    /// `UNICODE_SET`. Fails where the set does not compress into the tables
    /// of a trie.
    pub fn from_ranges(ranges: &[(char, char)]) -> (r: Result<Self, TrieError>)
        ensures
            r.is_ok() <==> trie_built(range_points(ranges@)).is_some(),
            r matches Ok(made) ==> {
                &&& made.codepoints() == range_points(ranges@)
                &&& made.spec_name() == "UNICODE_SET"@
                &&& made.spec_max_width() == 144
            },
            r matches Err(error) ==> error == TrieError::GaveUp,
    {
        let made = Self::new("UNICODE_SET").with_ranges(ranges);
        proof {
            use_type_invariant(&made);
            assert(made.set@ =~= range_points(ranges@));
            reveal_strlit("UNICODE_SET");
            assert(name_text("UNICODE_SET"@) =~= "UNICODE_SET"@);
        }
        match build_trie(&made.set) {
            Ok(_) => Ok(made),
            Err(error) => Err(error),
        }
    }

    /// The same set with the characters of the inclusive `ranges` added.
    pub fn with_ranges(self, ranges: &[(char, char)]) -> (r: Self)
        ensures
            r.codepoints() == self.codepoints().union(range_points(ranges@)),
            r.spec_name() == self.spec_name(),
            r.spec_max_width() == self.spec_max_width(),
    {
        proof {
            use_type_invariant(&self);
        }
        let ghost first = self.set@;
        let UnicodeSet { name, max_width, set } = self;
        let mut set = set;
        let mut i: usize = 0;
        proof {
            assert(first =~= first.union(Set::new(|v: u32| in_ranges(ranges@, 0, v))));
        }
        while i < ranges.len()
            invariant
                i <= ranges@.len(),
                all_codepoints(set@),
                set@ == first.union(Set::new(|v: u32| in_ranges(ranges@, i as int, v))),
            decreases ranges@.len() - i,
        {
            let start: char = ranges[i].0;
            let end: char = ranges[i].1;
            proof {
                vstd::utf8::char_is_scalar(start);
                vstd::utf8::char_is_scalar(end);
            }
            let low: u32 = start as u32;
            let high: u32 = end as u32;
            let ghost done = set@;
            let mut v: u32 = low;
            while v <= high
                invariant
                    low <= v,
                    high <= 0x10FFFF,
                    all_codepoints(set@),
                    (start, end) == ranges@[i as int],
                    low == start as u32,
                    high == end as u32,
                    i < ranges@.len(),
                    set@ == done.union(
                        Set::new(|w: u32| in_range(ranges@[i as int], w) && w < v),
                    ),
                decreases high + 1 - v,
            {
                if !(0xD800 <= v && v <= 0xDFFF) {
                    insert_point(&mut set, v);
                }
                proof {
                    assert(set@ =~= done.union(
                        Set::new(|w: u32| in_range(ranges@[i as int], w) && w < v + 1),
                    ));
                }
                v += 1;
            }
            proof {
                assert(set@ =~= first.union(
                    Set::new(|w: u32| in_ranges(ranges@, i + 1, w)),
                )) by {
                    assert forall|w: u32| #[trigger]
                        set@.contains(w) <==> first.contains(w) || in_ranges(
                            ranges@,
                            i + 1,
                            w,
                        ) by {
                        if in_ranges(ranges@, i + 1, w) {
                            let k = choose|k: int|
                                0 <= k < i + 1 && k < ranges@.len() && in_range(
                                    #[trigger] ranges@[k],
                                    w,
                                );
                            if k < i {
                                assert(in_ranges(ranges@, i as int, w));
                            }
                        }
                        if in_ranges(ranges@, i as int, w) {
                            let k = choose|k: int|
                                0 <= k < i && k < ranges@.len() && in_range(
                                    #[trigger] ranges@[k],
                                    w,
                                );
                            assert(in_range(ranges@[k], w));
                        }
                        if in_range(ranges@[i as int], w) {
                            assert(in_ranges(ranges@, i + 1, w));
                        }
                    }
                }
            }
            i += 1;
        }
        Self { name, max_width, set }
    }

    /// The same set with the characters `chars` added.
    pub fn with_chars(self, chars: &[char]) -> (r: Self)
        ensures
            r.codepoints() == self.codepoints().union(char_points(chars@)),
            r.spec_name() == self.spec_name(),
            r.spec_max_width() == self.spec_max_width(),
    {
        proof {
            use_type_invariant(&self);
        }
        let ghost first = self.set@;
        let UnicodeSet { name, max_width, set } = self;
        let mut set = set;
        let mut i: usize = 0;
        proof {
            assert(first =~= first.union(char_points(chars@.take(0))));
        }
        while i < chars.len()
            invariant
                i <= chars@.len(),
                all_codepoints(set@),
                set@ == first.union(char_points(chars@.take(i as int))),
            decreases chars@.len() - i,
        {
            proof {
                vstd::utf8::char_is_scalar(chars@[i as int]);
            }
            insert_point(&mut set, chars[i] as u32);
            proof {
                let next = chars@.take(i + 1);
                let prev = chars@.take(i as int);
                assert forall|w: u32| #[trigger]
                    set@.contains(w) <==> first.contains(w) || char_points(next).contains(
                        w,
                    ) by {
                    if char_points(next).contains(w) {
                        let k = choose|k: int| 0 <= k < next.len() && #[trigger] next[k] as u32 == w;
                        if k < i {
                            assert(prev[k] as u32 == w);
                        }
                    }
                    if char_points(prev).contains(w) {
                        let k = choose|k: int| 0 <= k < prev.len() && #[trigger] prev[k] as u32 == w;
                        assert(next[k] as u32 == w);
                    }
                    if w == chars@[i as int] as u32 {
                        assert(next[i as int] as u32 == w);
                    }
                }
                assert(set@ =~= first.union(char_points(next)));
            }
            i += 1;
        }
        proof {
            assert(chars@.take(i as int) =~= chars@);
        }
        Self { name, max_width, set }
    }

    /// The same set, written in lines of about `max_width` characters.
    pub fn with_max_width(self, max_width: usize) -> (r: Self)
        requires
            42 <= max_width <= usize::MAX - 22,
        ensures
            r.codepoints() == self.codepoints(),
            r.spec_name() == self.spec_name(),
            r.spec_max_width() == max_width,
    {
        proof {
            use_type_invariant(&self);
        }
        let UnicodeSet { name, max_width: _, set } = self;
        Self { name, max_width, set }
    }

    /// The number of characters in the set.
    pub fn count(&self) -> (r: usize)
        ensures
            r == self.codepoints().len(),
    {
        broadcast use vstd::std_specs::btree::group_btree_axioms;
        broadcast use vstd::laws_cmp::group_laws_cmp;

        self.set.len()
    }

    /// The source text of the constant that holds `tables`, under the name
    /// and in the line width of this set.
    pub fn render(&self, tables: &TrieTables) -> (r: String)
        ensures
            r@ == export_text(self.spec_name(), self.spec_max_width(), tables@),
    {
        proof {
            use_type_invariant(self);
        }
        let mut code = "#[rustfmt::skip]\nconst ".to_owned();
        code.append(self.name.as_str());
        code.append(": TrieSetSlice<'static> = TrieSetSlice");
        code.append(" {\n");
        self.write_field(&mut code, tables.tree1_level1.as_slice(), "tree1_level1");
        self.write_field(&mut code, widen(tables.tree2_level1.as_slice()).as_slice(), "tree2_level1");
        self.write_field(&mut code, tables.tree2_level2.as_slice(), "tree2_level2");
        self.write_field(&mut code, widen(tables.tree3_level1.as_slice()).as_slice(), "tree3_level1");
        self.write_field(&mut code, widen(tables.tree3_level2.as_slice()).as_slice(), "tree3_level2");
        self.write_field(&mut code, tables.tree3_level3.as_slice(), "tree3_level3");
        code.append("};\n");
        code
    }

    /// Writes one field of the constant: its name, indented, and its
    /// numbers.
    fn write_field(&self, buffer: &mut String, slice: &[u64], field: &str)
        ensures
            final(buffer)@ == old(buffer)@ + field_text(field@, slice@, self.spec_max_width()),
    {
        proof {
            use_type_invariant(self);
        }
        buffer.write_indent(4);
        buffer.append(field);
        buffer.append(": ");
        buffer.write_slice_numbers(slice, self.max_width, 8);
        proof {
            assert(final(buffer)@ =~= old(buffer)@ + field_text(
                field@,
                slice@,
                self.spec_max_width(),
            ));
        }
    }

    /// The set as the source text of a constant that holds the tables of
    /// its trie. Fails where the set does not compress into such tables.
    pub fn export_rust_code(&self) -> (r: Result<String, TrieError>)
        ensures
            match trie_built(self.codepoints()) {
                Some(tables) => r matches Ok(code) && code@ == export_text(
                    self.spec_name(),
                    self.spec_max_width(),
                    tables,
                ),
                None => r == Err::<String, TrieError>(TrieError::GaveUp),
            },
    {
        proof {
            use_type_invariant(self);
        }
        match build_trie(&self.set) {
            Ok(tables) => Ok(self.render(&tables)),
            Err(error) => Err(error),
        }
    }
}

} // verus!
