//! Stop reasons made of other failures.

use super::{CustomError, StopBecause};
use core::num::{ParseFloatError, ParseIntError};
use vstd::prelude::*;
use vstd::std_specs::convert::FromSpecImpl;

verus! {

/// The failure of std to read an integer.
#[verifier::external_type_specification]
#[verifier::external_body]
pub struct ExParseIntError(ParseIntError);

/// The failure of std to read a number with a fraction.
#[verifier::external_type_specification]
#[verifier::external_body]
pub struct ExParseFloatError(ParseFloatError);

impl From<CustomError> for StopBecause {
    fn from(value: CustomError) -> (r: Self) {
        StopBecause::Custom(value)
    }
}

impl FromSpecImpl<CustomError> for StopBecause {
    open spec fn obeys_from_spec() -> bool {
        true
    }

    open spec fn from_spec(value: CustomError) -> Self {
        StopBecause::Custom(value)
    }
}

impl From<ParseFloatError> for StopBecause {
    fn from(error: ParseFloatError) -> (r: Self) {
        StopBecause::Custom(CustomError { message: "Invalid float literal", start: 0, end: 0 })
    }
}

impl FromSpecImpl<ParseFloatError> for StopBecause {
    open spec fn obeys_from_spec() -> bool {
        true
    }

    open spec fn from_spec(error: ParseFloatError) -> Self {
        StopBecause::Custom(CustomError { message: "Invalid float literal", start: 0, end: 0 })
    }
}

impl From<ParseIntError> for StopBecause {
    fn from(error: ParseIntError) -> (r: Self) {
        StopBecause::Custom(CustomError { message: "Invalid integer literal", start: 0, end: 0 })
    }
}

impl FromSpecImpl<ParseIntError> for StopBecause {
    open spec fn obeys_from_spec() -> bool {
        true
    }

    open spec fn from_spec(error: ParseIntError) -> Self {
        StopBecause::Custom(CustomError { message: "Invalid integer literal", start: 0, end: 0 })
    }
}

} // verus!
