use lucy::error::{ErrorKind, ParseError, Severity};
use lucy::parsers::json::{array, boolean, json_value, null, number, object, string, whitespace};
use lucy::types::{Text, Value};

fn no_match(kind: ErrorKind, position: usize) -> ParseError {
    ParseError { severity: Severity::Recoverable, kind, position }
}

fn fatal(kind: ErrorKind, position: usize) -> ParseError {
    ParseError { severity: Severity::Fatal, kind, position }
}

fn depth(v: &Value) -> usize {
    match v {
        Value::Array(items) => 1 + items.iter().map(depth).max().unwrap_or(0),
        Value::Object(pairs) => 1 + pairs.iter().map(|(_, v)| depth(v)).max().unwrap_or(0),
        _ => 0,
    }
}

#[test]
fn literals_leave_following_text() {
    assert_eq!(boolean("true, 1"), Ok((", 1", true)));
    assert_eq!(boolean("false]"), Ok(("]", false)));
    assert_eq!(null("null, 1"), Ok((", 1", ())));
    assert_eq!(json_value(" true, 1"), Ok((", 1", Value::Boolean(true))));
    assert_eq!(json_value("null"), Ok(("", Value::Null)));
}

#[test]
fn plain_string_is_borrowed() {
    let input = "\"abc\"";
    let (rest, text) = string(input).unwrap();
    assert_eq!(rest, "");
    assert_eq!(text, Text::Borrowed("abc"));
    match text {
        Text::Borrowed(s) => assert_eq!(s.as_ptr(), input[1..].as_ptr()),
        Text::Owned(_) => panic!("expected a borrowed slice"),
    }
    assert_eq!(string("\"\""), Ok(("", Text::Borrowed(""))));
}

#[test]
fn escaped_string_is_decoded() {
    let (rest, text) = string("\"a\\nb\"").unwrap();
    assert_eq!(rest, "");
    assert!(matches!(text, Text::Owned(_)));
    assert_eq!(text.as_str(), "a\nb");
    assert_eq!(text.as_str().len(), 3);

    let (_, text) = string("\"\\\"\\\\\\/\\b\\f\\n\\r\\t\"").unwrap();
    assert_eq!(text.as_str(), "\"\\/\u{8}\u{c}\n\r\t");
    let (_, text) = string("\"\\u{48}i \\u{e9}\\u{1F600}\"").unwrap();
    assert_eq!(text.as_str(), "Hi \u{e9}\u{1F600}");
    let (_, text) = string("\"d\u{e9}j\u{e0} \\t vu\"").unwrap();
    assert_eq!(text.as_str(), "d\u{e9}j\u{e0} \t vu");
}

#[test]
fn string_failures() {
    assert_eq!(string("\"unterminated"), Err(fatal(ErrorKind::UnterminatedString, 13)));
    assert_eq!(string("\"ab\\x\""), Err(fatal(ErrorKind::InvalidEscape, 3)));
    assert_eq!(string("\"\\u{D800}\""), Err(fatal(ErrorKind::InvalidEscape, 1)));
    assert_eq!(string("\"\\u{110000}\""), Err(fatal(ErrorKind::InvalidEscape, 1)));
    assert_eq!(string("\"\\u{}\""), Err(fatal(ErrorKind::InvalidEscape, 1)));
    assert_eq!(string("\"ab\\"), Err(fatal(ErrorKind::UnterminatedString, 4)));
    assert_eq!(string("abc"), Err(no_match(ErrorKind::UnexpectedCharacter, 0)));
    assert!(string("\"unterminated").unwrap_err().is_fatal());
}

#[test]
fn non_ascii_text_around_strings() {
    assert_eq!(string("\"\u{e9}\"\u{fc}"), Ok(("\u{fc}", Text::Borrowed("\u{e9}"))));
    assert_eq!(whitespace(" \u{e9}"), Ok(("\u{e9}", " ")));
    assert_eq!(
        json_value("[\"\u{4e2d}\u{6587}\"]\u{fc}"),
        Ok(("\u{fc}", Value::Array(vec![Value::String(Text::Borrowed("\u{4e2d}\u{6587}"))])))
    );
}

#[test]
fn decoding_reconstructs_shapes() {
    assert_eq!(json_value("[]"), Ok(("", Value::Array(vec![]))));
    assert_eq!(json_value("[ ]"), Ok(("", Value::Array(vec![]))));
    assert_eq!(json_value("{}"), Ok(("", Value::Object(vec![]))));
    assert_eq!(json_value("{ \n}"), Ok(("", Value::Object(vec![]))));
    assert_eq!(
        json_value("[1,2,3]"),
        Ok(("", Value::Array(vec![Value::Number("1"), Value::Number("2"), Value::Number("3")])))
    );
    let (rest, v) = json_value("{\"a\":1,\"b\":[true,null]}").unwrap();
    assert_eq!(rest, "");
    assert_eq!(
        v,
        Value::Object(vec![
            (Text::Borrowed("a"), Value::Number("1")),
            (Text::Borrowed("b"), Value::Array(vec![Value::Boolean(true), Value::Null])),
        ])
    );
}

#[test]
fn whitespace_twice_consumes_nothing() {
    for input in ["  \t\r\n x", "x  ", "", "   ", "\u{e9} "] {
        let (rest, _) = whitespace(input).unwrap();
        assert_eq!(whitespace(rest), Ok((rest, "")));
    }
}

#[test]
fn number_grammar() {
    assert_eq!(number("0123"), Ok(("123", "0")));
    assert_eq!(number("1."), Ok((".", "1")));
    assert_eq!(number("1e"), Ok(("e", "1")));
    assert_eq!(number("1.5e+3x"), Ok(("x", "1.5e+3")));
    assert_eq!(number("-0.25E-2,"), Ok((",", "-0.25E-2")));
    assert_eq!(number("-"), Err(no_match(ErrorKind::InvalidNumber, 0)));
    assert_eq!(number("-x"), Err(no_match(ErrorKind::InvalidNumber, 0)));
    assert_eq!(number(".5"), Err(no_match(ErrorKind::InvalidNumber, 0)));
    assert_eq!(number("+1"), Err(no_match(ErrorKind::InvalidNumber, 0)));
    let (_, text) = number("1.5e+3").unwrap();
    assert_eq!(text.parse::<f64>().unwrap(), 1500.0);
}

#[test]
fn no_value_is_recoverable() {
    let tag = ErrorKind::UnexpectedCharacter;
    assert_eq!(json_value("not json"), Err(no_match(tag, 0)));
    assert_eq!(json_value("   ?"), Err(no_match(tag, 3)));
    assert_eq!(json_value(""), Err(no_match(tag, 0)));
    assert_eq!(json_value("-x"), Err(no_match(tag, 0)));
    assert!(!json_value("not json").unwrap_err().is_fatal());
}

#[test]
fn duplicate_keys_keep_last_value() {
    let (rest, pairs) = object("{\"k\":1,\"k\":2}").unwrap();
    assert_eq!(rest, "");
    assert_eq!(pairs, vec![(Text::Borrowed("k"), Value::Number("2"))]);

    let (_, pairs) = object("{\"a\": 1, \"b\": 2, \"\\u{61}\": 3}").unwrap();
    assert_eq!(pairs.len(), 2);
    assert_eq!(pairs[0].0.as_str(), "a");
    assert_eq!(pairs[0].1, Value::Number("3"));
    assert_eq!(pairs[1], (Text::Borrowed("b"), Value::Number("2")));
}

#[test]
fn deep_nesting() {
    let n = 100;
    let input = format!("{}{}", "[".repeat(n), "]".repeat(n));
    let (rest, v) = json_value(&input).unwrap();
    assert_eq!(rest, "");
    assert_eq!(depth(&v), n);

    let mut expected = Value::Array(vec![]);
    for _ in 1..n {
        expected = Value::Array(vec![expected]);
    }
    assert_eq!(v, expected);
}

#[test]
fn array_failures_are_fatal() {
    assert_eq!(array("[1,]"), Err(fatal(ErrorKind::UnexpectedCharacter, 3)));
    assert_eq!(array("[1"), Err(fatal(ErrorKind::UnterminatedArray, 2)));
    assert_eq!(array("[1,"), Err(fatal(ErrorKind::UnterminatedArray, 3)));
    assert_eq!(array("[1 2]"), Err(fatal(ErrorKind::UnexpectedCharacter, 3)));
    assert_eq!(array("[x]"), Err(fatal(ErrorKind::UnexpectedCharacter, 1)));
    assert_eq!(array("[\"a]"), Err(fatal(ErrorKind::UnterminatedString, 4)));
    assert_eq!(array("1"), Err(no_match(ErrorKind::UnexpectedCharacter, 0)));
    assert_eq!(json_value(" [1,"), Err(fatal(ErrorKind::UnterminatedArray, 4)));
}

#[test]
fn object_failures_are_fatal() {
    assert_eq!(object("{\"a\" 1}"), Err(fatal(ErrorKind::UnexpectedCharacter, 5)));
    assert_eq!(object("{\"a\":1"), Err(fatal(ErrorKind::UnterminatedObject, 6)));
    assert_eq!(object("{\"a\""), Err(fatal(ErrorKind::UnterminatedObject, 4)));
    assert_eq!(object("{1:2}"), Err(fatal(ErrorKind::UnexpectedCharacter, 1)));
    assert_eq!(object("{\"a\":}"), Err(fatal(ErrorKind::UnexpectedCharacter, 5)));
    assert_eq!(object("{\"a\":1,}"), Err(fatal(ErrorKind::UnexpectedCharacter, 7)));
    assert_eq!(object("{\"a\":1;"), Err(fatal(ErrorKind::UnexpectedCharacter, 6)));
    assert_eq!(object("[]"), Err(no_match(ErrorKind::UnexpectedCharacter, 0)));
}

#[test]
fn kind_names() {
    let cases = [
        ("[1]", "array"),
        ("true", "boolean"),
        ("{}", "object"),
        ("null", "null"),
        ("-2.5", "number"),
        ("\"s\"", "string"),
    ];
    for (input, name) in cases {
        let (_, v) = json_value(input).unwrap();
        assert_eq!(v.repr(), name);
    }
}

#[test]
fn nested_document_with_whitespace() {
    let input = " {\n  \"list\" : [ 1 , { \"x\" : \"y\\ty\" } ] ,\n  \"ok\":false } tail";
    let (rest, v) = json_value(input).unwrap();
    assert_eq!(rest, " tail");
    let Value::Object(pairs) = v else { panic!("expected an object") };
    assert_eq!(pairs.len(), 2);
    assert_eq!(pairs[0].0.as_str(), "list");
    let Value::Array(items) = &pairs[0].1 else { panic!("expected an array") };
    assert_eq!(items[0], Value::Number("1"));
    let Value::Object(inner) = &items[1] else { panic!("expected an object") };
    let Value::String(y) = &inner[0].1 else { panic!("expected a string") };
    assert_eq!(y.as_str(), "y\ty");
    assert_eq!(pairs[1], (Text::Borrowed("ok"), Value::Boolean(false)));
}
