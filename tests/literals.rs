use lucy::error::{ErrorKind, ParseError, Severity};
use lucy::{parse_false, parse_true};

fn no_match(position: usize) -> ParseError {
    ParseError { severity: Severity::Recoverable, kind: ErrorKind::UnexpectedCharacter, position }
}

#[test]
fn parse_true_works() {
    let input1 = "true, world".as_bytes();
    let input2 = "asdf, world".as_bytes();
    let input3 = "false, world".as_bytes();
    let input4 = "null, world".as_bytes();
    let input5 = "true".as_bytes();

    assert_eq!(parse_true(input1), Ok((&b", world"[..], true)));
    assert_eq!(parse_true(input2), Err(no_match(0)));
    assert_eq!(parse_true(input3), Err(no_match(0)));
    assert_eq!(parse_true(input4), Err(no_match(0)));
    assert_eq!(parse_true(input5), Ok((&b""[..], true)));
}

#[test]
fn parse_false_gives_false() {
    assert_eq!(parse_false(b"false, world"), Ok((&b", world"[..], false)));
    assert_eq!(parse_false(b"false"), Ok((&b""[..], false)));
    assert_eq!(parse_false(b"true, world"), Err(no_match(0)));
    assert_eq!(parse_false(b"fals"), Err(no_match(0)));
}

#[test]
fn parse_true_is_case_sensitive() {
    assert_eq!(parse_true(b"True"), Err(no_match(0)));
    assert_eq!(parse_true(b"tru"), Err(no_match(0)));
    assert_eq!(parse_true(b""), Err(no_match(0)));
}
