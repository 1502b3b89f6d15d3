use pex::{CharacterShallow, CounterMode, ShallowMode};
use std::borrow::Cow;

#[test]
fn counting_modes() {
    assert_eq!(CounterMode::Bytes.count("héllo"), 6);
    assert_eq!(CounterMode::Characters.count("héllo"), 5);
    assert_eq!(CounterMode::Bytes.count(""), 0);
}

#[test]
fn placeholder_sizes_and_texts() {
    let holder = ShallowMode::PlaceHolder { text: Cow::Borrowed(" <…> ") };
    assert_eq!(holder.size_hint(CounterMode::Bytes, "fill"), 7);
    assert_eq!(holder.size_hint(CounterMode::Characters, "fill"), 5);
    assert_eq!(holder.make_string("12"), " <…> ");
    let counter = ShallowMode::Counter { lhs: Cow::Borrowed("<"), rhs: Cow::Borrowed(" more>") };
    assert_eq!(counter.size_hint(CounterMode::Bytes, "12"), 9);
    assert_eq!(counter.size_hint(CounterMode::Characters, "é"), 8);
    assert_eq!(counter.make_string("12"), "<12 more>");
}

#[test]
fn builder_settings() {
    let made = CharacterShallow::new(21, 5);
    assert_eq!(made.max_width, 21);
    assert_eq!(made.end_reserved, 5);
    assert_eq!(made.shallow, ShallowMode::PlaceHolder { text: Cow::Borrowed(" <...> ") });
    assert_eq!(made.counter, CounterMode::Bytes);
    let default = CharacterShallow::default();
    assert_eq!(default.max_width, 144);
    assert_eq!(default.end_reserved, 42);
    assert_eq!(made.clone().with_width(30).max_width, 30);
    assert_eq!(made.clone().with_end_reserved(3).end_reserved, 3);
    assert_eq!(made.clone().with_delta_width(4).max_width, 25);
    assert_eq!(made.clone().with_delta_width(-4).max_width, 17);
    assert_eq!(made.clone().with_delta_width(-22).max_width, 0);
    assert_eq!(made.clone().with_delta_width(isize::MIN).max_width, 0);
    assert_eq!(made.clone().with_width(usize::MAX - 1).with_delta_width(5).max_width, usize::MAX);
    let mut changed = made;
    changed.set_delta_width(-1);
    assert_eq!(changed.max_width, 20);
}

#[test]
fn build_borrows_short_strings() {
    let sb = CharacterShallow::new(10, 2);
    assert!(matches!(sb.build_cow("1234567890"), Cow::Borrowed("1234567890")));
    assert!(matches!(sb.build("12345678901").raw, Cow::Owned(_)));
    assert_eq!(sb.build("12345678901").as_ref(), "1 <...> 01");
    let counted = CharacterShallow {
        max_width: 12,
        end_reserved: 2,
        shallow: ShallowMode::Counter { lhs: Cow::Borrowed("["), rhs: Cow::Borrowed("]") },
        counter: CounterMode::Bytes,
    };
    assert_eq!(counted.build_cow("abcdefghijklmnop"), "abcd[0]op");
}
