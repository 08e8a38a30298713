use lucy::error::{ErrorKind, ParseError, Severity};
use lucy::parsers::json::{
    array, boolean, is_string_token, is_whitespace, json_value, null, number, object, string,
    whitespace,
};
use lucy::types::{Text, Value};

fn no_match(kind: ErrorKind, position: usize) -> ParseError {
    ParseError { severity: Severity::Recoverable, kind, position }
}

fn as_f64(v: &Value) -> f64 {
    match v {
        Value::Number(text) => text.parse().unwrap(),
        other => panic!("not a number: {:?}", other),
    }
}

#[test]
fn array_values() {
    let (rest, items) = array("[5, 42, 97.5]abcd").unwrap();
    assert_eq!(rest, "abcd");
    assert_eq!(items, vec![Value::Number("5"), Value::Number("42"), Value::Number("97.5")]);
    let doubles: Vec<f64> = items.iter().map(as_f64).collect();
    assert_eq!(doubles, vec![5_f64, 42_f64, 97.5_f64]);

    assert_eq!(
        array("[true, \"lucy\", null]abcd"),
        Ok((
            "abcd",
            vec![Value::Boolean(true), Value::String(Text::Borrowed("lucy")), Value::Null,]
        ))
    );
}

#[test]
fn boolean_values() {
    let tag = ErrorKind::UnexpectedCharacter;
    assert_eq!(boolean("true\"\nxxx"), Ok(("\"\nxxx", true)));
    assert_eq!(boolean("falsexyz"), Ok(("xyz", false)));
    assert_eq!(boolean("abcdef"), Err(no_match(tag, 0)));
    assert_eq!(boolean("xyzfalse"), Err(no_match(tag, 0)));
    assert_eq!(boolean(""), Err(no_match(tag, 0)));
}

#[test]
fn nullish_values() {
    let tag = ErrorKind::UnexpectedCharacter;
    assert_eq!(null("nullabcd"), Ok(("abcd", ())));
    assert_eq!(null("abcdef"), Err(no_match(tag, 0)));
    assert_eq!(null("abcdnull"), Err(no_match(tag, 0)));
}

#[test]
fn number_values() {
    let input = r#"8"#;
    let expected = 8.;
    let (rest, text) = number(input).unwrap();
    assert_eq!(rest, "");
    assert_eq!(text.parse::<f64>().unwrap(), expected);

    let (rest, text) = number("-1.234E-12").unwrap();
    assert_eq!(rest, "");
    assert_eq!(text, "-1.234E-12");
    assert_eq!(text.parse::<f64>().unwrap(), -1.234e-12);
}

#[test]
fn string_values() {
    assert_eq!(
        string("\"0123456789abcdef\""),
        Ok(("", Text::Borrowed("0123456789abcdef")))
    );
    assert_eq!(
        string("\"0x00 0x01 0x04 0xDE 0xAD\""),
        Ok(("", Text::Borrowed("0x00 0x01 0x04 0xDE 0xAD")))
    );
    assert_eq!(
        string("\"'0x00 0x01 0x04 0xDE 0xAD'\""),
        Ok(("", Text::Borrowed("'0x00 0x01 0x04 0xDE 0xAD'")))
    );
}

#[test]
fn whitespace_characters() {
    assert_eq!(whitespace("    {"), Ok(("{", "    ")));
    assert_eq!(whitespace("\nabcdef"), Ok(("abcdef", "\n")),);
    assert_eq!(whitespace("\t  \r\nabcdef"), Ok(("abcdef", "\t  \r\n")),);

    let input = "\r\n\r\n  {\"field\": \"abcdef\"}\r\n\r\n";
    assert_eq!(
        whitespace(input),
        Ok(("{\"field\": \"abcdef\"}\r\n\r\n", "\r\n\r\n  "))
    );
}

#[test]
fn character_classes() {
    for c in [' ', '\t', '\r', '\n'] {
        assert!(is_whitespace(c));
    }
    for c in ['a', '\u{a0}', '\u{b}', '{'] {
        assert!(!is_whitespace(c));
    }
    assert!(is_string_token('a'));
    assert!(is_string_token('é'));
    assert!(!is_string_token('"'));
    assert!(!is_string_token('\\'));
}
