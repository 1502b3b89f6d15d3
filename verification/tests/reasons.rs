use pex::{CustomError, StopBecause};

#[test]
fn reasons_cover_their_byte_ranges() {
    assert_eq!(StopBecause::Uninitialized.range(), 0..0);
    assert_eq!(StopBecause::ExpectEof { position: 3 }.range(), 3..4);
    assert_eq!(StopBecause::ExpectRepeats { min: 2, current: 1, position: 5 }.range(), 5..6);
    assert_eq!(StopBecause::MissingCharacter { expected: 'a', position: 7 }.range(), 7..8);
    assert_eq!(StopBecause::MissingCharacter { expected: '€', position: 7 }.range(), 7..10);
    assert_eq!(
        StopBecause::MissingCharacterRange { start: 'a', end: 'z', position: 1 }.range(),
        1..2
    );
    assert_eq!(StopBecause::MissingCharacterSet { expected: "XID", position: 9 }.range(), 9..10);
    assert_eq!(StopBecause::MissingString { message: "héllo", position: 2 }.range(), 2..8);
    assert_eq!(StopBecause::MustBe { message: "X", position: 4 }.range(), 4..5);
    assert_eq!(StopBecause::ShouldNotBe { message: "X", position: 4 }.range(), 4..5);
    assert_eq!(
        StopBecause::Custom(CustomError { message: "m", start: 11, end: 17 }).range(),
        11..17
    );
}

#[test]
fn reason_constructors() {
    assert_eq!(
        StopBecause::must_be::<()>("X", 1),
        Err(StopBecause::MustBe { message: "X", position: 1 })
    );
    assert_eq!(StopBecause::expect_eof::<()>(2), Err(StopBecause::ExpectEof { position: 2 }));
    assert_eq!(
        StopBecause::missing_character::<()>('c', 3),
        Err(StopBecause::MissingCharacter { expected: 'c', position: 3 })
    );
    assert_eq!(
        StopBecause::missing_character_range::<()>('a', 'z', 4),
        Err(StopBecause::MissingCharacterRange { start: 'a', end: 'z', position: 4 })
    );
    assert_eq!(
        StopBecause::missing_character_set::<()>("SET", 5),
        Err(StopBecause::MissingCharacterSet { expected: "SET", position: 5 })
    );
    assert_eq!(
        StopBecause::missing_string::<()>("S", 6),
        Err(StopBecause::MissingString { message: "S", position: 6 })
    );
    assert_eq!(
        StopBecause::custom_error::<()>("C", 7, 9),
        Err(StopBecause::Custom(CustomError { message: "C", start: 7, end: 9 }))
    );
    assert_eq!(StopBecause::default(), StopBecause::Uninitialized);
}

#[test]
fn reasons_in_words() {
    assert_eq!(StopBecause::Uninitialized.to_string(), "Uninitialized");
    assert_eq!(StopBecause::ExpectEof { position: 3 }.to_string(), "Expect end of file");
    assert_eq!(
        StopBecause::ExpectRepeats { min: 12, current: 0, position: 5 }.to_string(),
        "Expect at least 12 repeats (got 0)"
    );
    assert_eq!(
        StopBecause::ExpectRepeats { min: usize::MAX, current: 1090, position: 5 }.to_string(),
        format!("Expect at least {} repeats (got 1090)", usize::MAX)
    );
    assert_eq!(
        StopBecause::MissingCharacter { expected: 'é', position: 7 }.to_string(),
        "Missing character 'é'"
    );
    assert_eq!(
        StopBecause::MissingCharacterRange { start: 'a', end: 'z', position: 1 }.to_string(),
        "Expect character in range 'a'..='z'"
    );
    assert_eq!(
        StopBecause::MissingCharacterSet { expected: "XID", position: 9 }.to_string(),
        "Missing character of `XID`"
    );
    assert_eq!(
        StopBecause::MissingString { message: "héllo", position: 2 }.to_string(),
        "Missing string 'héllo'"
    );
    assert_eq!(StopBecause::MustBe { message: "X", position: 4 }.to_string(), "Must be `X`");
    assert_eq!(
        StopBecause::ShouldNotBe { message: "X", position: 4 }.to_string(),
        "Should not be `X`"
    );
    let custom = CustomError { message: "broken", start: 11, end: 17 };
    assert_eq!(StopBecause::Custom(custom).to_string(), "Custom error: broken");
    assert_eq!(custom.to_string(), "broken");
}

#[test]
fn reason_labels() {
    assert_eq!(StopBecause::Uninitialized.label(), None);
    assert_eq!(StopBecause::ExpectEof { position: 3 }.label(), None);
    assert_eq!(StopBecause::MissingCharacter { expected: 'a', position: 7 }.label(), None);
    assert_eq!(StopBecause::MissingCharacterSet { expected: "XID", position: 9 }.label(), Some("XID"));
    assert_eq!(StopBecause::MissingString { message: "s", position: 2 }.label(), Some("s"));
    assert_eq!(StopBecause::MustBe { message: "X", position: 4 }.label(), Some("X"));
    assert_eq!(StopBecause::ShouldNotBe { message: "Y", position: 4 }.label(), Some("Y"));
    assert_eq!(
        StopBecause::Custom(CustomError { message: "m", start: 1, end: 2 }).label(),
        Some("m")
    );
}

#[test]
fn reasons_made_of_other_failures() {
    let custom = CustomError { message: "m", start: 1, end: 2 };
    assert_eq!(StopBecause::from(custom), StopBecause::Custom(custom));
    let integer = "x".parse::<u8>().unwrap_err();
    assert_eq!(
        StopBecause::from(integer),
        StopBecause::Custom(CustomError { message: "Invalid integer literal", start: 0, end: 0 })
    );
    let fraction = "x".parse::<f64>().unwrap_err();
    assert_eq!(
        StopBecause::from(fraction),
        StopBecause::Custom(CustomError { message: "Invalid float literal", start: 0, end: 0 })
    );
}
