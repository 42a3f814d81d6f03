//! Error types, backend configuration, and the literal parsers.

use tsk::config::BackendConfig;
use tsk::date::parse_date_text;
use tsk::error::{BackendError, Error, ErrorKind, IoKind};
use tsk::parser::ParseError;
use tsk::token::{parse_decimal, Decimal, Token};

#[test]
fn test_error_kind_and_code() {
    let io = Error::new(ErrorKind::IO(IoKind::BrokenPipe), "pipe closed");
    assert!(io.ignoreable());
    assert_eq!(io.code(), 126);
    assert_eq!(io.message(), "pipe closed");
    assert!(matches!(io.kind(), ErrorKind::IO(IoKind::BrokenPipe)));

    let arg = Error::new(ErrorKind::InvalidArg("0".to_string()), "Cannot use 0 as a task ID");
    assert!(!arg.ignoreable());
    assert_eq!(arg.code(), 128);

    let cmd = Error::new(ErrorKind::InvalidCommand("frob".to_string()), "Unknown command");
    assert_eq!(cmd.code(), 127);

    let json = Error::new(ErrorKind::JSON, "bad json");
    assert_eq!(json.code(), 1);
    assert!(!json.ignoreable());
}

#[test]
fn test_backend_error_classification() {
    let net = BackendError::from_io(IoKind::ConnectionRefused, "refused".to_string());
    assert!(matches!(net, BackendError::Network(_)));
    let io = BackendError::from_io(IoKind::NotFound, "missing".to_string());
    assert!(matches!(io, BackendError::IO(_)));
    let other = BackendError::other("Already completed.");
    assert!(matches!(other, BackendError::Other(_)));
}

#[test]
fn test_parse_error_builders() {
    let e = ParseError::new("bad input").at(4).bad_char('?');
    assert_eq!(e.message(), "bad input");
}

#[test]
fn test_backend_config_defaults() {
    let mut config = BackendConfig::new();
    assert_eq!(config.name, "file");
    assert!(config.state_file().is_none());

    config.init("/home/someone/.tasks.d");
    assert_eq!(
        config.lookup("dir").map(|v| v.to_string()),
        Some("/home/someone/.tasks.d".to_string())
    );
    assert_eq!(
        config.state_file(),
        Some("/home/someone/.tasks.d/state.json".to_string())
    );

    // A configured directory is kept as it is.
    config.init("/elsewhere");
    assert_eq!(
        config.state_file(),
        Some("/home/someone/.tasks.d/state.json".to_string())
    );
}

#[test]
fn test_parse_date_text() {
    assert_eq!(parse_date_text("1970-01-01"), Some(0));
    assert_eq!(parse_date_text("2020-01-01"), Some(1577836800));
    assert_eq!(parse_date_text("2020-02-29"), Some(1582934400));
    assert_eq!(parse_date_text("1969-12-31"), Some(-86400));
    assert_eq!(parse_date_text("2021-02-29"), None);
    assert_eq!(parse_date_text("2020-13-01"), None);
    assert_eq!(parse_date_text("2020-00-10"), None);
    assert_eq!(parse_date_text("2020-1-5"), Some(1578182400));
    assert_eq!(parse_date_text("20201-01-01"), None);
    assert_eq!(parse_date_text("-5"), None);
    assert_eq!(parse_date_text("2020-01-01-01"), None);
}

#[test]
fn test_parse_decimal() {
    assert_eq!(parse_decimal("5"), Some(Decimal { mantissa: 5, scale: 0 }));
    assert_eq!(parse_decimal("5.0"), Some(Decimal { mantissa: 5, scale: 0 }));
    assert_eq!(parse_decimal("0.50"), Some(Decimal { mantissa: 5, scale: 1 }));
    assert_eq!(parse_decimal("123.45"), Some(Decimal { mantissa: 12345, scale: 2 }));
    assert_eq!(parse_decimal(".5"), Some(Decimal { mantissa: 5, scale: 1 }));
    assert_eq!(parse_decimal("5."), Some(Decimal { mantissa: 5, scale: 0 }));
    assert_eq!(parse_decimal("."), None);
    assert_eq!(parse_decimal(""), None);
    assert_eq!(parse_decimal("1.2.3"), None);
    assert_eq!(parse_decimal("12:30"), None);
    assert_eq!(parse_decimal("1000000000000000"), None);
    assert_eq!(parse_decimal("999999999999999"), Some(Decimal {
        mantissa: 999999999999999,
        scale: 0,
    }));
}

#[test]
fn test_token_classification() {
    assert_eq!(Token::from_text(">="), Token::GTE);
    assert_eq!(Token::from_text("<="), Token::LTE);
    assert_eq!(Token::from_text("!="), Token::NE);
    assert_eq!(Token::from_text("^^"), Token::NLIKE);
    assert_eq!(Token::from_text("AND"), Token::AND);
    assert_eq!(Token::from_text("and"), Token::AND);
    assert_eq!(Token::from_text("And"), Token::AND);
    assert_eq!(Token::from_text("OR"), Token::OR);
    assert_eq!(Token::from_text("or"), Token::OR);
    assert_eq!(Token::from_text("milk"), Token::Str("milk".to_string()));
    assert_eq!(Token::from_text("5.5"), Token::Float(Decimal { mantissa: 55, scale: 1 }));
    assert_eq!(Token::from_text("2020-01-01"), Token::Date(1577836800));
    assert_eq!(Token::from_text("^="), Token::Unexpected("^=".to_string()));
    assert_eq!(Token::from_text("--"), Token::Unexpected("--".to_string()));
}
