use lucy::error::{ErrorKind, ParseError, Severity};
use lucy::parsers::unicode::unicode_sequence;

fn no_match(position: usize) -> ParseError {
    ParseError { severity: Severity::Recoverable, kind: ErrorKind::UnexpectedCharacter, position }
}

#[test]
fn unicode_values_in_strings() {
    assert_eq!(unicode_sequence("u{005C}XYZ"), Ok(("XYZ", 92)));
    assert_eq!(unicode_sequence("u{7F80}"), Ok(("", 32640)));
    assert_eq!(unicode_sequence("a\\b"), Err(no_match(0)));
}

#[test]
fn unicode_sequence_digit_span() {
    assert_eq!(unicode_sequence("u{a}"), Ok(("", 10)));
    assert_eq!(unicode_sequence("u{10FFFF}!"), Ok(("!", 0x10FFFF)));
    assert_eq!(unicode_sequence("u{FfFfFf}"), Ok(("", 0xFFFFFF)));
    assert_eq!(unicode_sequence("u{}"), Err(no_match(2)));
    assert_eq!(unicode_sequence("u{1234567}"), Err(no_match(8)));
    assert_eq!(unicode_sequence("u{12"), Err(no_match(4)));
    assert_eq!(unicode_sequence("u{12g}"), Err(no_match(4)));
    assert_eq!(unicode_sequence("u(12)"), Err(no_match(1)));
    assert_eq!(unicode_sequence(""), Err(no_match(0)));
}
