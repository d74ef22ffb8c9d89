//! The closed set of ways in which a parse can fail.

use vstd::prelude::*;

verus! {

/// `std::io::Error`, the cause of a failed read. It is carried from the
/// input to the error of the parse as it is.
#[verifier::external_type_specification]
#[verifier::external_body]
pub struct ExIoError(std::io::Error);

/// All errors reported by the parser. Each one ends the parse at once.
#[derive(Debug)]
pub enum ParseError {
    /// The input source failed while it was read.
    ReadFailure(std::io::Error),
    /// Something other than blank space or a comment follows a list or a
    /// level that is the root of the file.
    UnexpectedCharAtFileEnd,
    /// The input ended inside a string, or inside the digits of an escape.
    UnexpectedStringEnd,
    /// The input ended right after a `\`, or the escape letter is unknown.
    UnexpectedCharEscapeEnd,
    /// A `\x` escape is malformed or its bytes are not UTF-8.
    UnexpectedCharInByteEscape,
    /// A `\u` escape is malformed or its surrogates do not pair.
    UnexpectedCharInUnicodeEscape,
    /// Inside `{ }`, neither a key nor the closing `}` was found.
    ExpectedKeyOrEnd,
    /// A `.` in a key path is not followed by another key part.
    ExpectedKeyPartAfterKeySeparator,
    /// A key path is not followed by a node.
    ExpectedLSDAfterKey,
    /// Inside `[ ]`, neither an item nor the closing `]` was found.
    ExpectedListLSDOrEnd,
    /// A level had to be merged into an entry that is not a level.
    KeyCollisionShouldBeLevelButIsNot,
    /// A value or a list was given for a key that is already taken.
    KeyCollisionKeyAlreadyExists(String),
}

/// What a [`ParseError`] says, with the colliding key as a sequence of
/// characters. The variants are those of [`ParseError`].
pub enum Failure {
    ReadFailure(std::io::Error),
    UnexpectedCharAtFileEnd,
    UnexpectedStringEnd,
    UnexpectedCharEscapeEnd,
    UnexpectedCharInByteEscape,
    UnexpectedCharInUnicodeEscape,
    ExpectedKeyOrEnd,
    ExpectedKeyPartAfterKeySeparator,
    ExpectedLSDAfterKey,
    ExpectedListLSDOrEnd,
    KeyCollisionShouldBeLevelButIsNot,
    KeyCollisionKeyAlreadyExists(Seq<char>),
}

impl View for ParseError {
    type V = Failure;

    open spec fn view(&self) -> Failure {
        match self {
            ParseError::ReadFailure(cause) => Failure::ReadFailure(*cause),
            ParseError::UnexpectedCharAtFileEnd => Failure::UnexpectedCharAtFileEnd,
            ParseError::UnexpectedStringEnd => Failure::UnexpectedStringEnd,
            ParseError::UnexpectedCharEscapeEnd => Failure::UnexpectedCharEscapeEnd,
            ParseError::UnexpectedCharInByteEscape => Failure::UnexpectedCharInByteEscape,
            ParseError::UnexpectedCharInUnicodeEscape => Failure::UnexpectedCharInUnicodeEscape,
            ParseError::ExpectedKeyOrEnd => Failure::ExpectedKeyOrEnd,
            ParseError::ExpectedKeyPartAfterKeySeparator => Failure::ExpectedKeyPartAfterKeySeparator,
            ParseError::ExpectedLSDAfterKey => Failure::ExpectedLSDAfterKey,
            ParseError::ExpectedListLSDOrEnd => Failure::ExpectedListLSDOrEnd,
            ParseError::KeyCollisionShouldBeLevelButIsNot => Failure::KeyCollisionShouldBeLevelButIsNot,
            ParseError::KeyCollisionKeyAlreadyExists(key) => Failure::KeyCollisionKeyAlreadyExists(key@),
        }
    }
}

impl From<std::io::Error> for ParseError {
    fn from(value: std::io::Error) -> (error: ParseError) {
        ParseError::ReadFailure(value)
    }
}

impl vstd::std_specs::convert::FromSpecImpl<std::io::Error> for ParseError {
    open spec fn obeys_from_spec() -> bool {
        true
    }

    open spec fn from_spec(value: std::io::Error) -> ParseError {
        ParseError::ReadFailure(value)
    }
}

/// The mathematical value of what a parsing function returned.
pub open spec fn outcome<T: DeepView>(result: Result<T, ParseError>) -> Result<T::V, Failure> {
    match result {
        Ok(value) => Ok(value.deep_view()),
        Err(error) => Err(error@),
    }
}

} // verus!
