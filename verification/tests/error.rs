use ron::{Error, ErrorCode};
use serde::de::value::Error as Plain;

#[test]
fn messages_of_codes() {
    assert_eq!(ErrorCode::TrailingCharacters.message(), "\"trailing characters\"");
    assert_eq!(ErrorCode::EOFWhileParsingArray.message(), "\"EOF While parsing array\"");
    assert_eq!(ErrorCode::ExpectedColon.message(), "\"expected `:`\"");
    assert_eq!(ErrorCode::KeyMustBeAValue.message(), "\"key must be a string\"");
    assert_eq!(
        ErrorCode::NotFourDigit.message(),
        format!("{:?}", "invalid \\u escape (not four digits)")
    );
    assert_eq!(
        ErrorCode::UnrecognizedHex.message(),
        format!("{:?}", "invalid \\u escape (unrecognized hex)")
    );
    assert_eq!(ErrorCode::ExpectedObjectCommaOrEnd.message(), format!("{:?}", "expected `,` or `}`"));
    assert_eq!(ErrorCode::UnknownField("c".to_string()).message(), "unknown field \"c\"");
    assert_eq!(ErrorCode::MissingField("b").message(), "missing field \"b\"");
}

#[test]
fn text_of_errors() {
    assert_eq!(
        Error::Syntax(ErrorCode::TrailingCharacters, 1, 4).to_string(),
        "\"trailing characters\" at line 1 column 4"
    );
    assert_eq!(
        Error::Syntax(ErrorCode::UnknownField("c".to_string()), 12, 340).to_string(),
        "unknown field \"c\" at line 12 column 340"
    );
    assert_eq!(
        Error::Syntax(ErrorCode::InvalidNumber, 0, usize::MAX).to_string(),
        format!("\"invalid number\" at line 0 column {}", usize::MAX)
    );
    assert_eq!(Error::MissingField("b").to_string(), "missing field b");
    let io = std::io::Error::new(std::io::ErrorKind::Other, "broken pipe");
    assert_eq!(Error::from(io).to_string(), "broken pipe");
}

#[test]
fn descriptions_and_causes() {
    assert_eq!(Error::Syntax(ErrorCode::InvalidEscape, 1, 1).description(), "syntax error");
    assert_eq!(Error::MissingField("b").description(), "missing field");
    assert!(Error::MissingField("b").cause().is_none());
    assert!(Error::Syntax(ErrorCode::InvalidEscape, 1, 1).cause().is_none());
    let io = Error::from(std::io::Error::new(std::io::ErrorKind::Other, "broken pipe"));
    assert_eq!(io.cause().unwrap().to_string(), "broken pipe");
    assert!(matches!(io, Error::Io(_)));
}

#[test]
fn errors_without_a_position() {
    assert!(matches!(Error::syntax_error(), Error::Syntax(ErrorCode::ExpectedSomeValue, 0, 0)));
    assert!(matches!(
        Error::end_of_stream_error(),
        Error::Syntax(ErrorCode::EOFWhileParsingValue, 0, 0)
    ));
    match Error::unknown_field_error("c") {
        Error::Syntax(ErrorCode::UnknownField(name), 0, 0) => assert_eq!(name, "c"),
        other => panic!("{:?}", other),
    }
    assert!(matches!(Error::missing_field_error("b"), Error::MissingField("b")));
}

#[test]
fn errors_of_plain_value_deserializers() {
    assert!(matches!(
        Error::from(Plain::SyntaxError),
        Error::Syntax(ErrorCode::ExpectedSomeValue, 0, 0)
    ));
    assert!(matches!(
        Error::from(Plain::EndOfStreamError),
        Error::Syntax(ErrorCode::EOFWhileParsingValue, 0, 0)
    ));
    match Error::from(Plain::UnknownFieldError("c".to_string())) {
        Error::Syntax(ErrorCode::UnknownField(name), 0, 0) => assert_eq!(name, "c"),
        other => panic!("{:?}", other),
    }
    assert!(matches!(Error::from(Plain::MissingFieldError("b")), Error::MissingField("b")));
}
