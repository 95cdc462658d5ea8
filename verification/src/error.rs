//! Why a text could not be decoded.

use std::string::FromUtf8Error;
use vstd::prelude::*;
use vstd::std_specs::convert::FromSpecImpl;

verus! {

/// The error of `String::from_utf8`, carried as it comes: nothing inside it
/// is read here.
#[verifier::external_type_specification]
#[verifier::external_body]
pub struct ExFromUtf8Error(FromUtf8Error);

/// The ways in which decoding fails.
#[derive(Debug)]
pub enum CodecError {
    /// The text ends inside a byte: its last symbol begins a byte that no
    /// later symbol completes.
    TooShort,
    /// The text holds this character, which is neither one of the eight
    /// symbols nor whitespace.
    BadCharacter(char),
    /// The symbols spell bytes that are not UTF-8.
    FromUtf8(FromUtf8Error),
}

impl From<FromUtf8Error> for CodecError {
    fn from(error: FromUtf8Error) -> (wrapped: CodecError) {
        CodecError::FromUtf8(error)
    }
}

impl FromSpecImpl<FromUtf8Error> for CodecError {
    open spec fn obeys_from_spec() -> bool {
        true
    }

    open spec fn from_spec(error: FromUtf8Error) -> CodecError {
        CodecError::FromUtf8(error)
    }
}

} // verus!
