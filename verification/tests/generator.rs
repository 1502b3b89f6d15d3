use pex::{CharacterSet, EasyWrite, TrieError, TrieTables, UnicodeSet};

const MATH: &[(char, char)] = &[
    ('+', '+'),
    ('<', '>'),
    ('^', '^'),
    ('|', '|'),
    ('~', '~'),
    ('¬', '¬'),
    ('±', '±'),
    ('×', '×'),
    ('÷', '÷'),
    ('ϐ', 'ϒ'),
    ('ϕ', 'ϕ'),
    ('←', '↧'),
    ('𝐀', '𝑔'),
];

#[test]
fn mod_test() {
    println!("{:?}", UnicodeSet::from_ranges(MATH));
    let made = UnicodeSet::from_ranges(MATH).unwrap();
    assert_eq!(made.count(), 1 + 3 + 1 + 1 + 1 + 1 + 1 + 1 + 1 + 3 + 1 + 24 + 85);
}

#[test]
fn exported_trie_holds_the_characters() {
    let xid = UnicodeSet::new("xid_start_trie").with_ranges(MATH);
    println!("{:?}", xid);
    let code = xid.export_rust_code().unwrap();
    println!("{}", code);
    assert!(code.starts_with(
        "#[rustfmt::skip]\nconst XID_START_TRIE: TrieSetSlice<'static> = TrieSetSlice {\n    tree1_level1: &[\n        8070459328340951040, 5764607524107976704, 580542139465728, 36028797027352576, "
    ));
    assert!(code.ends_with("\n    ],\n};\n"));
    for field in
        ["tree1_level1", "tree2_level1", "tree2_level2", "tree3_level1", "tree3_level2", "tree3_level3"]
    {
        assert!(code.contains(&format!("\n    {}: &[", field)));
    }
}

#[test]
fn names_are_capital_letters_digits_and_underscores() {
    let made = UnicodeSet::new("xid-start trie 2é");
    assert!(made.export_rust_code().unwrap().starts_with(
        "#[rustfmt::skip]\nconst XID_START_TRIE_2_: TrieSetSlice<'static> = TrieSetSlice {\n"
    ));
    assert_eq!(made.count(), 0);
}

#[test]
fn sets_grow_by_ranges_and_characters() {
    let made = UnicodeSet::new("s").with_ranges(&[('a', 'c'), ('b', 'e')]).with_chars(&['a', 'z']);
    assert_eq!(made.count(), 6);
    let across = UnicodeSet::new("s").with_ranges(&[('\u{D7FF}', '\u{E000}')]);
    assert_eq!(across.count(), 2);
    let backwards = UnicodeSet::new("s").with_ranges(&[('z', 'a')]);
    assert_eq!(backwards.count(), 0);
}

#[test]
fn an_empty_set_is_written_in_full() {
    let code = UnicodeSet::new("empty").with_max_width(42).export_rust_code().unwrap();
    let zeros = "        0, 0, 0, 0, 0, 0, 0, 0, 0, 0, 0, 0, \n";
    let expected = format!(
        "#[rustfmt::skip]\nconst EMPTY: TrieSetSlice<'static> = TrieSetSlice {{\n    tree1_level1: &[\n{}{}        0, 0, 0, 0, 0, 0, 0, 0, \n    ],\n    tree2_level1: &[],\n    tree2_level2: &[],\n    tree3_level1: &[],\n    tree3_level2: &[],\n    tree3_level3: &[],\n}};\n",
        zeros, zeros
    );
    assert_eq!(code, expected);
}

#[test]
fn numbers_are_written_in_lines() {
    let mut text = String::from("x: ");
    text.write_slice_numbers(&[], 10, 8);
    assert_eq!(text, "x: &[],\n");
    let mut text = String::new();
    text.write_slice_numbers(&[1, 22, 333, 4444, 55555, 6], 16, 8);
    assert_eq!(text, "&[\n        1, 22, 333, \n        4444, 55555, \n        6, \n    ],\n");
    let mut text = String::new();
    text.write_slice_numbers(&[u64::MAX, 0], 0, 8);
    assert_eq!(text, "&[\n        18446744073709551615, \n        0, \n    ],\n");
    let mut text = String::new();
    text.write_indent(3);
    text.write_new_line();
    text.write_indent(0);
    assert_eq!(text, "   \n");
}

#[test]
fn rendered_tables_can_be_read_back() {
    let set = UnicodeSet::new("vowels").with_chars(&['a', 'e', 'i', 'o', 'u', 'ä', '€', '😀']);
    let owned = ucd_trie::TrieSetOwned::from_scalars(['a', 'e', 'i', 'o', 'u', 'ä', '€', '😀'].iter())
        .unwrap();
    let slice = owned.as_slice();
    let tables = TrieTables {
        tree1_level1: slice.tree1_level1.to_vec(),
        tree2_level1: slice.tree2_level1.to_vec(),
        tree2_level2: slice.tree2_level2.to_vec(),
        tree3_level1: slice.tree3_level1.to_vec(),
        tree3_level2: slice.tree3_level2.to_vec(),
        tree3_level3: slice.tree3_level3.to_vec(),
    };
    assert_eq!(set.render(&tables), set.export_rust_code().unwrap());
    let members: CharacterSet = tables.as_set().unwrap();
    assert!(members.contains_char('ä'));
    assert!(!members.contains_char('b'));
    assert_ne!(TrieError::GaveUp, TrieError::InvalidCodepoint(0x110000));
}
