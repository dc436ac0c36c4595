//! Errors of the older query language front end.
use vstd::prelude::*;

verus! {

/// std's error for bytes that are not UTF-8; carried only, never read.
#[verifier::external_type_specification]
#[verifier::external_body]
pub struct ExUtf8Error(core::str::Utf8Error);

/// std's error for text that is not a number; carried only, never read.
#[verifier::external_type_specification]
#[verifier::external_body]
pub struct ExParseIntError(core::num::ParseIntError);

/// std's error for a byte vector that is not UTF-8; carried only, never read.
#[verifier::external_type_specification]
#[verifier::external_body]
pub struct ExFromUtf8Error(std::string::FromUtf8Error);

/// What went wrong while reading a query.
#[derive(Clone, Copy, Debug, PartialEq, Eq, Structural)]
pub enum LangError {
    NonUnicodeChar,
    TypeParseFailure,
    InvalidSyntax,
    UnexpectedEOF,
}

impl From<core::str::Utf8Error> for LangError {
    fn from(_e: core::str::Utf8Error) -> Self {
        LangError::NonUnicodeChar
    }
}

impl vstd::std_specs::convert::FromSpecImpl<core::str::Utf8Error> for LangError {
    open spec fn obeys_from_spec() -> bool {
        true
    }

    open spec fn from_spec(v: core::str::Utf8Error) -> Self {
        LangError::NonUnicodeChar
    }
}

impl From<core::num::ParseIntError> for LangError {
    fn from(_e: core::num::ParseIntError) -> Self {
        LangError::TypeParseFailure
    }
}

impl vstd::std_specs::convert::FromSpecImpl<core::num::ParseIntError> for LangError {
    open spec fn obeys_from_spec() -> bool {
        true
    }

    open spec fn from_spec(v: core::num::ParseIntError) -> Self {
        LangError::TypeParseFailure
    }
}

impl From<std::string::FromUtf8Error> for LangError {
    fn from(_e: std::string::FromUtf8Error) -> Self {
        LangError::NonUnicodeChar
    }
}

impl vstd::std_specs::convert::FromSpecImpl<std::string::FromUtf8Error> for LangError {
    open spec fn obeys_from_spec() -> bool {
        true
    }

    open spec fn from_spec(v: std::string::FromUtf8Error) -> Self {
        LangError::NonUnicodeChar
    }
}

} // verus!
