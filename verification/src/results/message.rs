//! Stop reasons in words.

use super::{CustomError, StopBecause};
use vstd::prelude::*;
use vstd::string::*;

verus! {

/// `String::push` appends the character `c` to the text.
pub assume_specification[ std::string::String::push ](text: &mut std::string::String, c: char)
    ensures
        final(text)@ == old(text)@.push(c),
;

/// The character that writes the digit `d`.
pub open spec fn digit_char(d: nat) -> char {
    ((0x30 + d % 10) as u8) as char
}

/// The number `n` written in decimal digits, without leading zeros.
pub open spec fn dec_text(n: nat) -> Seq<char>
    decreases n,
{
    if n < 10 {
        seq![digit_char(n)]
    } else {
        dec_text(n / 10).push(digit_char(n % 10))
    }
}

/// Appends the number `n`, written in decimal digits, to `text`.
pub fn push_decimal(text: &mut String, n: u64)
    ensures
        final(text)@ == old(text)@ + dec_text(n as nat),
    decreases n,
{
    if n >= 10 {
        push_decimal(text, n / 10);
    }
    let digit: u8 = 0x30 + (n % 10) as u8;
    text.push(digit as char);
    proof {
        assert(final(text)@ =~= old(text)@ + dec_text(n as nat));
    }
}

/// The number of digits that `n` is written with.
pub fn decimal_width(n: u64) -> (r: usize)
    ensures
        r == dec_text(n as nat).len(),
        1 <= r <= 20,
    decreases n,
{
    if n >= 10 {
        proof {
            lemma_dec_text_len(n as nat);
        }
        decimal_width(n / 10) + 1
    } else {
        1
    }
}

/// A number of 64 bits is written with at most twenty digits.
pub proof fn lemma_dec_text_len(n: nat)
    requires
        n <= u64::MAX,
    ensures
        1 <= dec_text(n).len() <= 20,
{
    reveal_with_fuel(dec_text, 21);
}

impl CustomError {
    /// The message of the failure.
    pub fn to_string(&self) -> (r: String)
        ensures
            r@ == self.message@,
    {
        self.message.to_owned()
    }
}

impl StopBecause {
    /// The reason in words.
    pub open spec fn spec_message(self) -> Seq<char> {
        match self {
            StopBecause::Uninitialized => "Uninitialized"@,
            StopBecause::ExpectEof { .. } => "Expect end of file"@,
            StopBecause::ExpectRepeats { min, current, .. } => "Expect at least "@ + dec_text(
                min as nat,
            ) + " repeats (got "@ + dec_text(current as nat) + ")"@,
            StopBecause::MissingCharacter { expected, .. } => "Missing character '"@.push(
                expected,
            ) + "'"@,
            StopBecause::MissingCharacterRange { start, end, .. } => "Expect character in range '"@.push(
                start,
            ) + "'..='"@.push(end) + "'"@,
            StopBecause::MissingCharacterSet { expected, .. } => "Missing character of `"@
                + expected@ + "`"@,
            StopBecause::MissingString { message, .. } => "Missing string '"@ + message@ + "'"@,
            StopBecause::MustBe { message, .. } => "Must be `"@ + message@ + "`"@,
            StopBecause::ShouldNotBe { message, .. } => "Should not be `"@ + message@ + "`"@,
            StopBecause::Custom(e) => "Custom error: "@ + e.message@,
        }
    }

    /// The reason in words.
    pub fn to_string(&self) -> (r: String)
        ensures
            r@ == self.spec_message(),
    {
        match *self {
            StopBecause::Uninitialized => "Uninitialized".to_owned(),
            StopBecause::ExpectEof { .. } => "Expect end of file".to_owned(),
            StopBecause::ExpectRepeats { min, current, .. } => {
                let mut text = "Expect at least ".to_owned();
                push_decimal(&mut text, min as u64);
                text.append(" repeats (got ");
                push_decimal(&mut text, current as u64);
                text.append(")");
                text
            },
            StopBecause::MissingCharacter { expected, .. } => {
                let mut text = "Missing character '".to_owned();
                text.push(expected);
                text.append("'");
                text
            },
            StopBecause::MissingCharacterRange { start, end, .. } => {
                let mut text = "Expect character in range '".to_owned();
                text.push(start);
                text.append("'..='");
                text.push(end);
                text.append("'");
                text
            },
            StopBecause::MissingCharacterSet { expected, .. } => {
                let mut text = "Missing character of `".to_owned();
                text.append(expected);
                text.append("`");
                text
            },
            StopBecause::MissingString { message, .. } => {
                let mut text = "Missing string '".to_owned();
                text.append(message);
                text.append("'");
                text
            },
            StopBecause::MustBe { message, .. } => {
                let mut text = "Must be `".to_owned();
                text.append(message);
                text.append("`");
                text
            },
            StopBecause::ShouldNotBe { message, .. } => {
                let mut text = "Should not be `".to_owned();
                text.append(message);
                text.append("`");
                text
            },
            StopBecause::Custom(e) => {
                let mut text = "Custom error: ".to_owned();
                text.append(e.message);
                text
            },
        }
    }
}

} // verus!
