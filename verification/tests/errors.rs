use rlq::error::{CliError, Error, ParseError};

#[test]
fn cli_error_messages() {
    assert_eq!(CliError::NotEnoughArgs.message(), "too few arguments");
    assert_eq!(CliError::TooManyArgs.message(), "too many arguments");
    assert_eq!(CliError::Other.message(), "other");
    assert_eq!(CliError::UnknownLabel("host".to_string()).message(), "no such label: host");
}

#[test]
fn cli_error_descriptions() {
    assert_eq!(CliError::NotEnoughArgs.description(), "too few arguments");
    assert_eq!(CliError::TooManyArgs.description(), "too many arguments");
    assert_eq!(CliError::Other.description(), "other");
    assert_eq!(CliError::UnknownLabel("host".to_string()).description(), "no such label");
}

#[test]
fn parse_error_message() {
    let e = ParseError { msg: "invalid ltsv item: x".to_string() };
    assert_eq!(e.message(), "Parse error: invalid ltsv item: x");
    assert_eq!(e.description(), "parse error");
}

#[test]
fn error_from_parse_error() {
    let e = Error::from(ParseError { msg: "m".to_string() });
    assert!(matches!(e, Error::Parse(_)));
    assert_eq!(e.message(), "Parse error: m");
    assert_eq!(e.description(), "parse error");
}

#[test]
fn error_from_io_error() {
    let io = std::io::Error::new(std::io::ErrorKind::NotFound, "gone");
    let text = io.to_string();
    let e = Error::from(io);
    assert!(matches!(e, Error::Io(_)));
    assert_eq!(e.message(), text);
    assert_eq!(e.description(), text);
}
