//! The errors of the codec: one code per syntax violation, each stamped with
//! the line and column of the byte that caused it.

use vstd::prelude::*;
use vstd::string::*;
use serde::de::value::Error as DeValueError;
use crate::number::{ascii_chars, digits, push_decimal_text};

verus! {

/// `std::io::Error`: a failure of a byte source or sink, carried through as it
/// is. Nothing is known of what it holds.
#[verifier::external_type_specification]
#[verifier::external_body]
pub struct ExIoError(std::io::Error);

/// `serde::de::value::Error`: the error of serde's own deserializers of plain
/// values. Nothing is known of what it holds until `value_error_of` has told
/// its variants apart.
#[verifier::external_type_specification]
#[verifier::external_body]
pub struct ExDeValueError(DeValueError);

/// What an error of serde's deserializers of plain values says.
pub enum ValueError {
    /// The value had a syntactic error.
    SyntaxError,
    /// The input ended in the middle of a value.
    EndOfStreamError,
    /// A struct was given a field that it does not declare.
    UnknownFieldError(String),
    /// A struct was not given a field that it declares.
    MissingFieldError(&'static str),
}

/// Tells the four variants of `serde::de::value::Error` apart, keeping the
/// field's name where there is one. Nothing is claimed of the result.
#[verifier::external_body]
fn value_error_of(error: DeValueError) -> (said: ValueError) {
    match error {
        DeValueError::SyntaxError => ValueError::SyntaxError,
        DeValueError::EndOfStreamError => ValueError::EndOfStreamError,
        DeValueError::UnknownFieldError(field) => ValueError::UnknownFieldError(field),
        DeValueError::MissingFieldError(field) => ValueError::MissingFieldError(field),
    }
}

/// What went wrong while reading notation text.
#[derive(Clone, PartialEq, Debug)]
pub enum ErrorCode {
    /// A map key position holds something that cannot start a value.
    KeyMustBeAValue,
    /// A backslash is followed by a byte that names no escape.
    InvalidEscape,
    /// A number literal does not convert to the number type asked for.
    InvalidNumber,
    /// An escape or a character literal does not give one Unicode scalar value.
    InvalidUnicodeCodePoint,
    /// The input ends before the four digits of a `\u` escape.
    NotFourDigit,
    /// The bytes of a string or character literal are not UTF-8.
    NotUtf8,
    /// An enum tag is none of the declared variants.
    UnknownVariant,
    /// A record key is none of the declared fields.
    UnknownField(String),
    /// A declared field was not given, as a message for a host that reports
    /// it at a position.
    MissingField(&'static str),
    /// A map key is not followed by `:`.
    ExpectedColon,
    /// A value could not be converted, as a message for a host that converts
    /// what it was given.
    ExpectedConversion,
    /// A unit variant's name is not closed by the marker.
    ExpectedEnumEnd,
    /// A variant with a payload is not closed by `}`.
    ExpectedEnumEndToken,
    /// A variant's payload does not start as the variant declares.
    ExpectedEnumMapStart,
    /// An enum does not start with the marker or with `{`.
    ExpectedEnumToken,
    /// A variant with a payload does not start with its quoted name.
    ExpectedEnumVariantString,
    /// A sequence element is followed by neither `,` nor `]`.
    ExpectedListCommaOrEnd,
    /// A record key is not an identifier.
    ExpectedName,
    /// A map entry is followed by neither `,` nor `}`.
    ExpectedObjectCommaOrEnd,
    /// A unit variant's marker is not followed by an identifier.
    ExpectedSomeIdent,
    /// The input holds something else where a value must start.
    ExpectedSomeValue,
    /// A `\u` escape names a surrogate code point.
    LoneLeadingSurrogateInHexEscape,
    /// A `\u` escape is not followed by the one that must follow it. No
    /// escape of this notation needs another, so the reader never raises this.
    UnexpectedEndOfHexEscape,
    /// A `\u` escape holds a byte that is no hexadecimal digit.
    UnrecognizedHex,
    /// Something other than whitespace follows the top-level value.
    TrailingCharacters,
    /// The input ends inside a record or a variant with a payload.
    EOFWhileParsingObject,
    /// The input ends inside a string or character literal.
    EOFWhileParsingString,
    /// The input ends inside a sequence.
    EOFWhileParsingArray,
    /// The input ends inside a map.
    EOFWhileParsingMap,
    /// The input ends where a value must start.
    EOFWhileParsingValue,
}

impl ErrorCode {
    /// The message of this code. A code without a field gives a fixed phrase
    /// between double quotes; the two codes that name a field give the phrase
    /// bare and the field's name between double quotes.
    pub open spec fn spec_message(&self) -> Seq<char> {
        match self {
            ErrorCode::KeyMustBeAValue => "\"key must be a string\""@,
            ErrorCode::InvalidEscape => "\"invalid escape\""@,
            ErrorCode::InvalidNumber => "\"invalid number\""@,
            ErrorCode::InvalidUnicodeCodePoint => "\"invalid unicode code point\""@,
            ErrorCode::NotFourDigit => "\"invalid \\\\u escape (not four digits)\""@,
            ErrorCode::NotUtf8 => "\"contents not utf-8\""@,
            ErrorCode::UnknownVariant => "\"unknown variant\""@,
            ErrorCode::UnknownField(field) => "unknown field \""@ + field@ + "\""@,
            ErrorCode::MissingField(field) => "missing field \""@ + field@ + "\""@,
            ErrorCode::ExpectedColon => "\"expected `:`\""@,
            ErrorCode::ExpectedConversion => "\"expected conversion\""@,
            ErrorCode::ExpectedEnumEnd => "\"expected enum end\""@,
            ErrorCode::ExpectedEnumEndToken => "\"expected enum map end\""@,
            ErrorCode::ExpectedEnumMapStart => "\"expected enum map start\""@,
            ErrorCode::ExpectedEnumToken => "\"expected enum token\""@,
            ErrorCode::ExpectedEnumVariantString => "\"expected variant\""@,
            ErrorCode::ExpectedListCommaOrEnd => "\"expected `,` or `]`\""@,
            ErrorCode::ExpectedName => "\"expected name\""@,
            ErrorCode::ExpectedObjectCommaOrEnd => "\"expected `,` or `}`\""@,
            ErrorCode::ExpectedSomeIdent => "\"expected ident\""@,
            ErrorCode::ExpectedSomeValue => "\"expected value\""@,
            ErrorCode::LoneLeadingSurrogateInHexEscape => "\"lone leading surrogate in hex escape\""@,
            ErrorCode::UnexpectedEndOfHexEscape => "\"unexpected end of hex escape\""@,
            ErrorCode::UnrecognizedHex => "\"invalid \\\\u escape (unrecognized hex)\""@,
            ErrorCode::TrailingCharacters => "\"trailing characters\""@,
            ErrorCode::EOFWhileParsingObject => "\"EOF While parsing object\""@,
            ErrorCode::EOFWhileParsingString => "\"EOF While parsing string\""@,
            ErrorCode::EOFWhileParsingArray => "\"EOF While parsing array\""@,
            ErrorCode::EOFWhileParsingMap => "\"EOF While parsing map\""@,
            ErrorCode::EOFWhileParsingValue => "\"EOF While parsing value\""@,
        }
    }

    /// Renders this code as its message.
    pub fn message(&self) -> (text: String)
        ensures
            text@ == self.spec_message(),
    {
        match self {
            ErrorCode::KeyMustBeAValue => String::from_str("\"key must be a string\""),
            ErrorCode::InvalidEscape => String::from_str("\"invalid escape\""),
            ErrorCode::InvalidNumber => String::from_str("\"invalid number\""),
            ErrorCode::InvalidUnicodeCodePoint => String::from_str("\"invalid unicode code point\""),
            ErrorCode::NotFourDigit => String::from_str("\"invalid \\\\u escape (not four digits)\""),
            ErrorCode::NotUtf8 => String::from_str("\"contents not utf-8\""),
            ErrorCode::UnknownVariant => String::from_str("\"unknown variant\""),
            ErrorCode::UnknownField(field) => {
                let mut text = String::from_str("unknown field \"");
                text.append(field.as_str());
                text.append("\"");
                text
            },
            ErrorCode::MissingField(field) => {
                let mut text = String::from_str("missing field \"");
                text.append(field);
                text.append("\"");
                text
            },
            ErrorCode::ExpectedColon => String::from_str("\"expected `:`\""),
            ErrorCode::ExpectedConversion => String::from_str("\"expected conversion\""),
            ErrorCode::ExpectedEnumEnd => String::from_str("\"expected enum end\""),
            ErrorCode::ExpectedEnumEndToken => String::from_str("\"expected enum map end\""),
            ErrorCode::ExpectedEnumMapStart => String::from_str("\"expected enum map start\""),
            ErrorCode::ExpectedEnumToken => String::from_str("\"expected enum token\""),
            ErrorCode::ExpectedEnumVariantString => String::from_str("\"expected variant\""),
            ErrorCode::ExpectedListCommaOrEnd => String::from_str("\"expected `,` or `]`\""),
            ErrorCode::ExpectedName => String::from_str("\"expected name\""),
            ErrorCode::ExpectedObjectCommaOrEnd => String::from_str("\"expected `,` or `}`\""),
            ErrorCode::ExpectedSomeIdent => String::from_str("\"expected ident\""),
            ErrorCode::ExpectedSomeValue => String::from_str("\"expected value\""),
            ErrorCode::LoneLeadingSurrogateInHexEscape => String::from_str("\"lone leading surrogate in hex escape\""),
            ErrorCode::UnexpectedEndOfHexEscape => String::from_str("\"unexpected end of hex escape\""),
            ErrorCode::UnrecognizedHex => String::from_str("\"invalid \\\\u escape (unrecognized hex)\""),
            ErrorCode::TrailingCharacters => String::from_str("\"trailing characters\""),
            ErrorCode::EOFWhileParsingObject => String::from_str("\"EOF While parsing object\""),
            ErrorCode::EOFWhileParsingString => String::from_str("\"EOF While parsing string\""),
            ErrorCode::EOFWhileParsingArray => String::from_str("\"EOF While parsing array\""),
            ErrorCode::EOFWhileParsingMap => String::from_str("\"EOF While parsing map\""),
            ErrorCode::EOFWhileParsingValue => String::from_str("\"EOF While parsing value\""),
        }
    }
}

/// A failed conversion.
#[derive(Debug)]
pub enum Error {
    /// The text breaks the notation's grammar at the given line and column.
    Syntax(ErrorCode, usize, usize),
    /// The byte source or sink failed.
    Io(std::io::Error),
    /// A value was built without the named field.
    MissingField(&'static str),
}

/// The description that the source or sink gave of its failure.
///
/// Wraps `std::error::Error::description` on `std::io::Error`; nothing is
/// claimed of the text.
#[verifier::external_body]
#[allow(deprecated)]
fn io_description(error: &std::io::Error) -> (text: &str) {
    std::error::Error::description(error)
}

/// The text that the source or sink displays for its failure.
///
/// Wraps `ToString::to_string` on `std::io::Error`; nothing is claimed of the
/// text.
#[verifier::external_body]
fn io_text(error: &std::io::Error) -> (text: String) {
    error.to_string()
}

impl Error {
    /// The kind of this error in two words, for the two kinds that this
    /// library raises itself.
    pub open spec fn spec_description(&self) -> Seq<char> {
        match self {
            Error::Syntax(_, _, _) => "syntax error"@,
            Error::Io(_) => Seq::empty(),
            Error::MissingField(_) => "missing field"@,
        }
    }

    /// The full text of this error, for the two kinds that this library raises
    /// itself: the code's message with the line and the column in decimal, or
    /// the name of the missing field.
    pub open spec fn spec_text(&self) -> Seq<char> {
        match self {
            Error::Syntax(code, line, column) => code.spec_message() + " at line "@ + ascii_chars(
                digits(*line as nat),
            ) + " column "@ + ascii_chars(digits(*column as nat)),
            Error::Io(_) => Seq::empty(),
            Error::MissingField(field) => "missing field "@ + field@,
        }
    }

    /// A short description of the kind of error. For an I/O failure it is the
    /// failure's own description.
    pub fn description(&self) -> (text: &str)
        ensures
            !(self is Io) ==> text@ == self.spec_description(),
    {
        match self {
            Error::Syntax(_, _, _) => "syntax error",
            Error::Io(error) => io_description(error),
            Error::MissingField(_) => "missing field",
        }
    }

    /// The failure underneath this error, which only an I/O error has.
    pub fn cause(&self) -> (inner: Option<&std::io::Error>)
        ensures
            inner == match self {
                Error::Io(error) => Some(error),
                _ => None::<&std::io::Error>,
            },
    {
        match self {
            Error::Io(error) => Some(error),
            _ => None,
        }
    }

    /// Renders this error for a reader. For an I/O failure it is the failure's
    /// own text.
    pub fn to_string(&self) -> (text: String)
        ensures
            !(self is Io) ==> text@ == self.spec_text(),
    {
        match self {
            Error::Syntax(code, line, column) => {
                let mut text = code.message();
                text.append(" at line ");
                push_decimal_text(&mut text, *line as u64);
                text.append(" column ");
                push_decimal_text(&mut text, *column as u64);
                text
            },
            Error::Io(error) => io_text(error),
            Error::MissingField(field) => {
                let mut text = String::from_str("missing field ");
                text.append(field);
                text
            },
        }
    }

    /// The error that stands for what one of serde's deserializers of plain
    /// values said: a syntax error without a position, but for a missing field.
    pub open spec fn spec_from_value_error(said: ValueError) -> Error {
        match said {
            ValueError::SyntaxError => Error::Syntax(ErrorCode::ExpectedSomeValue, 0, 0),
            ValueError::EndOfStreamError => Error::Syntax(ErrorCode::EOFWhileParsingValue, 0, 0),
            ValueError::UnknownFieldError(field) => Error::Syntax(
                ErrorCode::UnknownField(field),
                0,
                0,
            ),
            ValueError::MissingFieldError(field) => Error::MissingField(field),
        }
    }

    /// Converts what one of serde's deserializers of plain values said.
    pub fn from_value_error(said: ValueError) -> (error: Error)
        ensures
            error == Self::spec_from_value_error(said),
    {
        match said {
            ValueError::SyntaxError => Error::syntax_error(),
            ValueError::EndOfStreamError => Error::end_of_stream_error(),
            ValueError::UnknownFieldError(field) => Error::Syntax(
                ErrorCode::UnknownField(field),
                0,
                0,
            ),
            ValueError::MissingFieldError(field) => Error::missing_field_error(field),
        }
    }

    /// The error of a value that is not what was expected, without a position.
    pub fn syntax_error() -> (error: Error)
        ensures
            error == Error::Syntax(ErrorCode::ExpectedSomeValue, 0, 0),
    {
        Error::Syntax(ErrorCode::ExpectedSomeValue, 0, 0)
    }

    /// The error of input that ends where a value must start, without a position.
    pub fn end_of_stream_error() -> (error: Error)
        ensures
            error == Error::Syntax(ErrorCode::EOFWhileParsingValue, 0, 0),
    {
        Error::Syntax(ErrorCode::EOFWhileParsingValue, 0, 0)
    }

    /// The error of a key that no field declares, without a position.
    pub fn unknown_field_error(field: &str) -> (error: Error)
        ensures
            error matches Error::Syntax(ErrorCode::UnknownField(name), 0, 0) && name@ == field@,
    {
        Error::Syntax(ErrorCode::UnknownField(field.to_owned()), 0, 0)
    }

    /// The error of a declared field that was not given.
    pub fn missing_field_error(field: &'static str) -> (error: Error)
        ensures
            error == Error::MissingField(field),
    {
        Error::MissingField(field)
    }
}

impl From<std::io::Error> for Error {
    fn from(error: std::io::Error) -> (converted: Error) {
        Error::Io(error)
    }
}

impl From<DeValueError> for Error {
    /// Converts an error of serde's deserializers of plain values: whatever it
    /// said, the result stands for it.
    fn from(error: DeValueError) -> (converted: Error)
        ensures
            exists|said: ValueError| converted == Error::spec_from_value_error(said),
    {
        Error::from_value_error(value_error_of(error))
    }
}

impl vstd::std_specs::convert::FromSpecImpl<DeValueError> for Error {
    open spec fn obeys_from_spec() -> bool {
        false
    }

    open spec fn from_spec(error: DeValueError) -> Error {
        Error::Syntax(ErrorCode::ExpectedSomeValue, 0, 0)
    }
}

impl vstd::std_specs::convert::FromSpecImpl<std::io::Error> for Error {
    open spec fn obeys_from_spec() -> bool {
        true
    }

    open spec fn from_spec(error: std::io::Error) -> Error {
        Error::Io(error)
    }
}

} // verus!
