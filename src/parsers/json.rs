//! Parsers for the core JSON primitive and structural types.
use vstd::prelude::*;
use vstd::string::StringSliceAdditionalSpecFns;
use vstd::utf8::{decode_utf8, encode_scalar, encode_utf8, is_char_boundary, is_scalar, valid_utf8};

use crate::error::{ErrorKind, ParseError, Severity};
use crate::parsers::grammar::{
    commit, digit_at, digits_end, exp_end, expected_at, frac_end, has_literal, insert_member,
    int_end, is_plain, lemma_skip_ws_bounds, lit_false, lit_null, lit_true, run_end, skip_ws,
    spec_array, spec_array_items, spec_boolean, spec_escape, spec_null, spec_number, spec_object,
    spec_object_members, spec_string, spec_string_body, spec_unicode, spec_value,
    string_is_plain,
};
use crate::parsers::slices::{
    lemma_after_ascii_is_boundary, lemma_ascii_is_boundary, lemma_valid_between, substr, suffix,
};
use crate::parsers::unicode::{push_scalar, unicode_at};
use crate::types::{
    keys_unique, lemma_array_view, lemma_object_view, pair_views, views, SpecValue, Text, Value,
};

verus! {

broadcast use vstd::utf8::group_utf8_lib;

/// Whether position `q` follows an ASCII byte.
pub open spec fn ends_ascii(s: Seq<u8>, q: int) -> bool {
    0 < q <= s.len() && s[q - 1] < 0x80
}

/// True for the four whitespace characters of JSON.
pub open spec fn spec_is_whitespace(c: char) -> bool {
    c == ' ' || c == '\t' || c == '\r' || c == '\n'
}

/// True for a character that may stand unescaped in a string body.
pub open spec fn spec_is_string_token(c: char) -> bool {
    c != '"' && c != '\\'
}

/// Whether `ch` is JSON whitespace: space, tab, carriage return or line feed.
pub fn is_whitespace(ch: char) -> (r: bool)
    ensures
        r == spec_is_whitespace(ch),
{
    ch == ' ' || ch == '\t' || ch == '\r' || ch == '\n'
}

/// Whether `c` may stand unescaped in a string body.
pub fn is_string_token(c: char) -> (r: bool)
    ensures
        r == spec_is_string_token(c),
{
    c != '"' && c != '\\'
}

/// The first position at or after `p` that does not hold whitespace.
fn skip_whitespace(bytes: &[u8], p: usize) -> (q: usize)
    requires
        p <= bytes@.len(),
    ensures
        q == skip_ws(bytes@, p as int),
        p <= q <= bytes@.len(),
{
    let mut q = p;
    while q < bytes.len() && is_whitespace(bytes[q] as char)
        invariant
            p <= q <= bytes@.len(),
            skip_ws(bytes@, q as int) == skip_ws(bytes@, p as int),
        decreases bytes@.len() - q,
    {
        q = q + 1;
    }
    q
}

/// Whether the bytes of `lit` stand in `bytes` from `p` on.
pub(crate) fn matches_at(bytes: &[u8], p: usize, lit: &[u8]) -> (r: bool)
    requires
        p <= bytes@.len(),
    ensures
        r == has_literal(bytes@, p as int, lit@),
{
    let len = bytes.len();
    if lit.len() > len - p {
        return false;
    }
    let mut i: usize = 0;
    while i < lit.len()
        invariant
            len == bytes@.len(),
            i <= lit@.len(),
            p + lit@.len() <= bytes@.len(),
            forall|j: int| 0 <= j < i ==> bytes@[p + j] == lit@[j],
        decreases lit@.len() - i,
    {
        if bytes[p + i] != lit[i] {
            assert(bytes@.subrange(p as int, p + lit@.len())[i as int] != lit@[i as int]);
            return false;
        }
        i = i + 1;
    }
    assert(bytes@.subrange(p as int, p + lit@.len()) =~= lit@);
    true
}

/// `null` at `p`.
fn null_at(bytes: &[u8], p: usize) -> (r: Result<usize, ParseError>)
    requires
        p <= bytes@.len(),
    ensures
        match (r, spec_null(bytes@, p as int)) {
            (Ok(q), Ok(sq)) => q == sq && p < q && ends_ascii(bytes@, q as int),
            (Err(e), Err(se)) => e == se,
            _ => false,
        },
{
    let len = bytes.len();
    let lit: [u8; 4] = [0x6e, 0x75, 0x6c, 0x6c];
    assert(lit@ =~= lit_null());
    if matches_at(bytes, p, &lit) {
        assert(bytes@[p + 3] == bytes@.subrange(p as int, p + 4)[3]);
        Ok(p + 4)
    } else {
        Err(ParseError { severity: Severity::Recoverable, kind: ErrorKind::UnexpectedCharacter, position: p })
    }
}

/// `true` or `false` at `p`.
fn boolean_at(bytes: &[u8], p: usize) -> (r: Result<(usize, bool), ParseError>)
    requires
        p <= bytes@.len(),
    ensures
        match (r, spec_boolean(bytes@, p as int)) {
            (Ok((q, b)), Ok((sq, sb))) => q == sq && b == sb && p < q && ends_ascii(bytes@, q as int),
            (Err(e), Err(se)) => e == se,
            _ => false,
        },
{
    let len = bytes.len();
    let t: [u8; 4] = [0x74, 0x72, 0x75, 0x65];
    let f: [u8; 5] = [0x66, 0x61, 0x6c, 0x73, 0x65];
    assert(t@ =~= lit_true());
    assert(f@ =~= lit_false());
    if matches_at(bytes, p, &t) {
        assert(bytes@[p + 3] == bytes@.subrange(p as int, p + 4)[3]);
        Ok((p + 4, true))
    } else if matches_at(bytes, p, &f) {
        assert(bytes@[p + 4] == bytes@.subrange(p as int, p + 5)[4]);
        Ok((p + 5, false))
    } else {
        Err(ParseError { severity: Severity::Recoverable, kind: ErrorKind::UnexpectedCharacter, position: p })
    }
}

fn is_digit_byte(b: u8) -> (r: bool)
    ensures
        r == (0x30 <= b <= 0x39),
{
    0x30 <= b && b <= 0x39
}

fn digit_at_exec(bytes: &[u8], p: usize) -> (r: bool)
    ensures
        r == digit_at(bytes@, p as int),
{
    p < bytes.len() && is_digit_byte(bytes[p])
}

fn byte_at(bytes: &[u8], p: usize, b: u8) -> (r: bool)
    ensures
        r == (p < bytes@.len() && bytes@[p as int] == b),
{
    p < bytes.len() && bytes[p] == b
}

/// The end of the run of digits that starts at `p`.
fn digits_end_at(bytes: &[u8], p: usize) -> (q: usize)
    requires
        p <= bytes@.len(),
    ensures
        q == digits_end(bytes@, p as int),
        p <= q <= bytes@.len(),
        p < q ==> ends_ascii(bytes@, q as int),
        digit_at(bytes@, p as int) ==> p < q,
{
    let len = bytes.len();
    let mut q = p;
    while digit_at_exec(bytes, q)
        invariant
            len == bytes@.len(),
            p <= q <= bytes@.len(),
            digits_end(bytes@, q as int) == digits_end(bytes@, p as int),
            p < q ==> ends_ascii(bytes@, q as int),
        decreases bytes@.len() - q,
    {
        q = q + 1;
    }
    q
}

/// A number at `p`: the end of the longest JSON number that starts there.
fn number_at(bytes: &[u8], p: usize) -> (r: Result<usize, ParseError>)
    requires
        p <= bytes@.len(),
    ensures
        match (r, spec_number(bytes@, p as int)) {
            (Ok(q), Ok(sq)) => q == sq && p < q && ends_ascii(bytes@, q as int),
            (Err(e), Err(se)) => e == se,
            _ => false,
        },
{
    let len = bytes.len();
    let a = if byte_at(bytes, p, 0x2d) {
        p + 1
    } else {
        p
    };
    if !digit_at_exec(bytes, a) {
        return Err(ParseError { severity: Severity::Recoverable, kind: ErrorKind::InvalidNumber, position: p });
    }
    let i = if byte_at(bytes, a, 0x30) {
        a + 1
    } else {
        digits_end_at(bytes, a)
    };
    assert(i == int_end(bytes@, a as int));
    let f = if byte_at(bytes, i, 0x2e) && digit_at_exec(bytes, i + 1) {
        digits_end_at(bytes, i + 1)
    } else {
        i
    };
    assert(f == frac_end(bytes@, i as int));
    let e = if byte_at(bytes, f, 0x65) || byte_at(bytes, f, 0x45) {
        let d = if byte_at(bytes, f + 1, 0x2b) || byte_at(bytes, f + 1, 0x2d) {
            f + 2
        } else {
            f + 1
        };
        if digit_at_exec(bytes, d) {
            digits_end_at(bytes, d)
        } else {
            f
        }
    } else {
        f
    };
    assert(e == exp_end(bytes@, f as int));
    Ok(e)
}

/// Relies on `String::from_utf8`: given bytes that are valid UTF-8 it returns
/// `Ok` with the string those bytes encode, so the default is never taken.
#[verifier::external_body]
fn string_from_utf8(bytes: Vec<u8>) -> (r: String)
    requires
        valid_utf8(bytes@),
    ensures
        r@ == decode_utf8(bytes@),
{
    String::from_utf8(bytes).unwrap_or_default()
}

/// The end of the run of plain string bytes that starts at `p`.
fn run_end_at(bytes: &[u8], p: usize) -> (e: usize)
    requires
        p <= bytes@.len(),
    ensures
        e == run_end(bytes@, p as int),
        p <= e <= bytes@.len(),
        e < bytes@.len() ==> !is_plain(bytes@[e as int]),
{
    let len = bytes.len();
    let mut e = p;
    while e < len && is_string_token(bytes[e] as char)
        invariant
            len == bytes@.len(),
            p <= e <= len,
            run_end(bytes@, e as int) == run_end(bytes@, p as int),
        decreases len - e,
    {
        e = e + 1;
    }
    e
}

/// Appends `bytes[from..to]` to `buf`.
fn copy_into(bytes: &[u8], from: usize, to: usize, buf: &mut Vec<u8>)
    requires
        from <= to <= bytes@.len(),
    ensures
        final(buf)@ == old(buf)@ + bytes@.subrange(from as int, to as int),
{
    let mut i = from;
    while i < to
        invariant
            from <= i <= to <= bytes@.len(),
            buf@ == old(buf)@ + bytes@.subrange(from as int, i as int),
        decreases to - i,
    {
        buf.push(bytes[i]);
        i = i + 1;
        assert(buf@ =~= old(buf)@ + bytes@.subrange(from as int, i as int));
    }
}

/// What an escape decodes to is valid UTF-8, and the escape ends with an
/// ASCII byte.
proof fn lemma_escape_valid(s: Seq<u8>, e: int)
    requires
        0 <= e,
    ensures
        match spec_escape(s, e) {
            Ok((q, d)) => valid_utf8(d) && e + 2 <= q <= s.len() && s[q - 1] < 0x80,
            Err(_) => true,
        },
{
    if e + 1 < s.len() && s[e + 1] == 0x75 {
        if let Ok((q, c)) = spec_unicode(s, e + 1) {
            let ch = c as char;
            if is_scalar(c) {
                assert(ch as u32 == c);
                assert(seq![ch].drop_first() =~= Seq::<char>::empty());
                reveal_with_fuel(encode_utf8, 2);
                assert(encode_utf8(seq![ch]) =~= encode_scalar(c));
            }
        }
    } else {
        reveal_with_fuel(valid_utf8, 2);
    }
}

/// The escape whose backslash stands at `e`; its bytes are appended to `buf`.
fn escape_at(bytes: &[u8], e: usize, buf: &mut Vec<u8>) -> (r: Result<usize, ParseError>)
    requires
        e < bytes@.len(),
        bytes@[e as int] == 0x5c,
    ensures
        match spec_escape(bytes@, e as int) {
            Ok((q, d)) => r == Ok::<usize, ParseError>(q as usize) && final(buf)@ == old(buf)@ + d,
            Err(se) => r == Err::<usize, ParseError>(se),
        },
{
    let len = bytes.len();
    if e + 1 >= len {
        return Err(ParseError { severity: Severity::Fatal, kind: ErrorKind::UnterminatedString, position: len });
    }
    let c = bytes[e + 1];
    if c == 0x75 {
        match unicode_at(bytes, e + 1) {
            Ok((q, cp)) => {
                if cp <= 0x10FFFF && !(0xD800 <= cp && cp <= 0xDFFF) {
                    push_scalar(buf, cp);
                    Ok(q)
                } else {
                    Err(ParseError { severity: Severity::Fatal, kind: ErrorKind::InvalidEscape, position: e })
                }
            },
            Err(_) => Err(ParseError { severity: Severity::Fatal, kind: ErrorKind::InvalidEscape, position: e }),
        }
    } else {
        let b: u8 = if c == 0x22 || c == 0x5c || c == 0x2f {
            c
        } else if c == 0x62 {
            0x08
        } else if c == 0x66 {
            0x0c
        } else if c == 0x6e {
            0x0a
        } else if c == 0x72 {
            0x0d
        } else if c == 0x74 {
            0x09
        } else {
            return Err(ParseError { severity: Severity::Fatal, kind: ErrorKind::InvalidEscape, position: e });
        };
        buf.push(b);
        assert(final(buf)@ =~= old(buf)@ + seq![b]);
        Ok(e + 2)
    }
}

/// A string at `p`: the position after it and its decoded text, borrowed
/// from `input` when it is written without escapes.
fn string_at<'a>(input: &'a str, bytes: &[u8], p: usize) -> (r: Result<(usize, Text<'a>), ParseError>)
    requires
        bytes@ == input.spec_bytes(),
        p <= bytes@.len(),
    ensures
        match (r, spec_string(bytes@, p as int)) {
            (Ok((q, t)), Ok((sq, d))) => {
                &&& q == sq
                &&& t@ == decode_utf8(d)
                &&& (t is Borrowed <==> string_is_plain(bytes@, p as int))
                &&& p < q
                &&& ends_ascii(bytes@, q as int)
            },
            (Err(e), Err(se)) => e == se,
            _ => false,
        },
{
    let len = bytes.len();
    if !(p < len && bytes[p] == 0x22) {
        return Err(ParseError { severity: Severity::Recoverable, kind: ErrorKind::UnexpectedCharacter, position: p });
    }
    let ghost s = bytes@;
    assert(valid_utf8(encode_utf8(input@)));
    let start = p + 1;
    proof {
        lemma_after_ascii_is_boundary(s, start as int);
    }
    let e0 = run_end_at(bytes, start);
    if e0 < len && bytes[e0] == 0x22 {
        proof {
            lemma_ascii_is_boundary(s, e0 as int);
        }
        let text = substr(input, start, e0);
        assert(Seq::<u8>::empty() + s.subrange(start as int, e0 as int) =~= s.subrange(start as int, e0 as int));
        return Ok((e0 + 1, Text::Borrowed(text)));
    }
    let mut buf: Vec<u8> = Vec::new();
    let mut pos = start;
    loop
        invariant
            len == s.len(),
            s == bytes@,
            s == input.spec_bytes(),
            valid_utf8(s),
            start == p + 1,
            start <= pos <= len,
            is_char_boundary(s, pos as int),
            valid_utf8(buf@),
            spec_string(s, p as int) == spec_string_body(s, pos as int, buf@),
            !string_is_plain(s, p as int),
        decreases len - pos,
    {
        let e = run_end_at(bytes, pos);
        if e >= len {
            return Err(ParseError { severity: Severity::Fatal, kind: ErrorKind::UnterminatedString, position: len });
        }
        proof {
            lemma_ascii_is_boundary(s, e as int);
            lemma_valid_between(s, pos as int, e as int);
        }
        copy_into(bytes, pos, e, &mut buf);
        if bytes[e] == 0x22 {
            let text = string_from_utf8(buf);
            return Ok((e + 1, Text::Owned(text)));
        }
        let ghost before = buf@;
        match escape_at(bytes, e, &mut buf) {
            Ok(q) => {
                proof {
                    lemma_escape_valid(s, e as int);
                    lemma_after_ascii_is_boundary(s, q as int);
                }
                pos = q;
            },
            Err(err) => {
                return Err(err);
            },
        }
    }
}

/// Parses a JSON value with the `string` type: `"`, a body in which `\`
/// introduces an escape, and `"`. Once the opening quote matched, every
/// failure is fatal. The text is borrowed from `input` when the body holds no
/// escape, and decoded into an owned string otherwise.
pub fn string<'a>(input: &'a str) -> (r: Result<(&'a str, Text<'a>), ParseError>)
    ensures
        match (r, spec_string(input.spec_bytes(), 0)) {
            (Ok((rest, t)), Ok((n, d))) => {
                &&& remainder_is(input, n, rest)
                &&& t@ == decode_utf8(d)
                &&& (t is Borrowed <==> string_is_plain(input.spec_bytes(), 0))
            },
            (Err(e), Err(se)) => e == se,
            _ => false,
        },
{
    let bytes = input.as_bytes();
    match string_at(input, bytes, 0) {
        Ok((q, t)) => Ok((rest_after(input, bytes, q), t)),
        Err(e) => Err(e),
    }
}

/// What a failure inside an opened array or object becomes.
fn commit_error(e: ParseError, end: usize, unterminated: ErrorKind) -> (r: ParseError)
    ensures
        r == commit(e, end as int, unterminated),
{
    if e.is_fatal() {
        e
    } else if e.position == end {
        ParseError { severity: Severity::Fatal, kind: unterminated, position: end }
    } else {
        ParseError { severity: Severity::Fatal, kind: e.kind, position: e.position }
    }
}

/// The failure where a separator or closing delimiter was expected at `c`.
fn expected_error(end: usize, c: usize, unterminated: ErrorKind) -> (r: ParseError)
    requires
        c <= end,
    ensures
        r == expected_at(end as int, c as int, unterminated),
{
    if c >= end {
        ParseError { severity: Severity::Fatal, kind: unterminated, position: end }
    } else {
        ParseError { severity: Severity::Fatal, kind: ErrorKind::UnexpectedCharacter, position: c }
    }
}

/// Whether two texts are equal, compared by their UTF-8 bytes.
fn text_eq(a: &Text, b: &Text) -> (r: bool)
    ensures
        r == (a@ == b@),
{
    let x = a.as_str().as_bytes();
    let y = b.as_str().as_bytes();
    assert(x@ == encode_utf8(a@) && y@ == encode_utf8(b@));
    assert(decode_utf8(x@) == a@ && decode_utf8(y@) == b@);
    if x.len() != y.len() {
        return false;
    }
    let mut i: usize = 0;
    while i < x.len()
        invariant
            x@ == encode_utf8(a@),
            y@ == encode_utf8(b@),
            x@.len() == y@.len(),
            i <= x@.len(),
            forall|j: int| 0 <= j < i ==> x@[j] == y@[j],
        decreases x@.len() - i,
    {
        if x[i] != y[i] {
            assert(x@[i as int] != y@[i as int]);
            return false;
        }
        i = i + 1;
    }
    assert(x@ =~= y@);
    true
}

/// Adds a pair to an object: replaces the value of the pair with an equal
/// key, or appends the pair.
fn insert_pair<'a>(pairs: &mut Vec<(Text<'a>, Value<'a>)>, key: Text<'a>, value: Value<'a>)
    requires
        keys_unique(pair_views(old(pairs)@)),
    ensures
        pair_views(final(pairs)@) == insert_member(
            pair_views(old(pairs)@),
            key@,
            value.view_value(),
        ),
        keys_unique(pair_views(final(pairs)@)),
{
    let ghost acc = pair_views(pairs@);
    let ghost k = key@;
    let ghost v = value.view_value();
    let mut i: usize = 0;
    while i < pairs.len()
        invariant
            pairs@ == old(pairs)@,
            acc == pair_views(pairs@),
            k == key@,
            v == value.view_value(),
            keys_unique(acc),
            i <= pairs@.len(),
            forall|j: int| 0 <= j < i ==> (#[trigger] acc[j]).0 != k,
        decreases pairs@.len() - i,
    {
        if text_eq(&pairs[i].0, &key) {
            pairs.set(i, (key, value));
            proof {
                assert(acc[i as int] == (old(pairs)@[i as int].0@, old(pairs)@[i as int].1.view_value()));
                assert(acc[i as int].0 == k);
                let j = choose|j: int| 0 <= j < acc.len() && (#[trigger] acc[j]).0 == k;
                assert(j == i as int);
            }
            assert(pair_views(pairs@) =~= acc.update(i as int, (k, v)));
            return;
        }
        assert(acc[i as int] == (pairs@[i as int].0@, pairs@[i as int].1.view_value()));
        i = i + 1;
    }
    pairs.push((key, value));
    assert(pair_views(pairs@) =~= acc.push((k, v)));
}

/// A value at `p`, after optional whitespace.
fn value_at<'a>(input: &'a str, bytes: &[u8], p: usize) -> (r: Result<(usize, Value<'a>), ParseError>)
    requires
        bytes@ == input.spec_bytes(),
        p <= bytes@.len(),
    ensures
        match (r, spec_value(bytes@, p as int)) {
            (Ok((q, v)), Ok((sq, sv))) => q == sq && v.view_value() == sv && p < q && ends_ascii(
                bytes@,
                q as int,
            ),
            (Err(e), Err(se)) => e == se,
            _ => false,
        },
    decreases bytes@.len() - p, 2int,
{
    let q = skip_whitespace(bytes, p);
    proof {
        lemma_skip_ws_bounds(bytes@, p as int);
    }
    match array_at(input, bytes, q) {
        Ok((r, items)) => {
            proof {
                lemma_array_view(items);
            }
            return Ok((r, Value::Array(items)));
        },
        Err(e) => {
            if e.is_fatal() {
                return Err(e);
            }
        },
    }
    if let Ok((r, b)) = boolean_at(bytes, q) {
        return Ok((r, Value::Boolean(b)));
    }
    match object_at(input, bytes, q) {
        Ok((r, pairs)) => {
            proof {
                lemma_object_view(pairs);
            }
            return Ok((r, Value::Object(pairs)));
        },
        Err(e) => {
            if e.is_fatal() {
                return Err(e);
            }
        },
    }
    if let Ok(r) = null_at(bytes, q) {
        return Ok((r, Value::Null));
    }
    if let Ok(r) = number_at(bytes, q) {
        proof {
            assert(valid_utf8(encode_utf8(input@)));
            lemma_ascii_is_boundary(bytes@, q as int);
            lemma_after_ascii_is_boundary(bytes@, r as int);
        }
        return Ok((r, Value::Number(substr(input, q, r))));
    }
    match string_at(input, bytes, q) {
        Ok((r, t)) => Ok((r, Value::String(t))),
        Err(e) => {
            if e.is_fatal() {
                Err(e)
            } else {
                Err(ParseError { severity: Severity::Recoverable, kind: ErrorKind::UnexpectedCharacter, position: q })
            }
        },
    }
}

/// An array at `p`.
fn array_at<'a>(input: &'a str, bytes: &[u8], p: usize) -> (r: Result<(usize, Vec<Value<'a>>), ParseError>)
    requires
        bytes@ == input.spec_bytes(),
        p <= bytes@.len(),
    ensures
        match (r, spec_array(bytes@, p as int)) {
            (Ok((q, items)), Ok((sq, si))) => q == sq && views(items@) == si && p < q && ends_ascii(
                bytes@,
                q as int,
            ),
            (Err(e), Err(se)) => e == se,
            _ => false,
        },
    decreases bytes@.len() - p, 1int,
{
    let len = bytes.len();
    if !(p < len && bytes[p] == 0x5b) {
        return Err(ParseError { severity: Severity::Recoverable, kind: ErrorKind::UnexpectedCharacter, position: p });
    }
    let q = skip_whitespace(bytes, p + 1);
    if q < len && bytes[q] == 0x5d {
        let items: Vec<Value<'a>> = Vec::new();
        assert(views(items@) =~= Seq::<SpecValue>::empty());
        return Ok((q + 1, items));
    }
    let mut items: Vec<Value<'a>> = Vec::new();
    assert(views(items@) =~= Seq::<SpecValue>::empty());
    let mut pos = p + 1;
    loop
        invariant
            len == bytes@.len(),
            bytes@ == input.spec_bytes(),
            p < pos <= len,
            spec_array(bytes@, p as int) == spec_array_items(bytes@, pos as int, views(items@)),
        decreases len - pos,
    {
        match value_at(input, bytes, pos) {
            Err(e) => {
                return Err(commit_error(e, len, ErrorKind::UnterminatedArray));
            },
            Ok((r, v)) => {
                let c = skip_whitespace(bytes, r);
                let ghost before = views(items@);
                let ghost vv = v.view_value();
                items.push(v);
                assert(views(items@) =~= before.push(vv));
                if c < len && bytes[c] == 0x2c {
                    pos = c + 1;
                } else if c < len && bytes[c] == 0x5d {
                    return Ok((c + 1, items));
                } else {
                    return Err(expected_error(len, c, ErrorKind::UnterminatedArray));
                }
            },
        }
    }
}

/// An object at `p`.
fn object_at<'a>(input: &'a str, bytes: &[u8], p: usize) -> (r: Result<
    (usize, Vec<(Text<'a>, Value<'a>)>),
    ParseError,
>)
    requires
        bytes@ == input.spec_bytes(),
        p <= bytes@.len(),
    ensures
        match (r, spec_object(bytes@, p as int)) {
            (Ok((q, pairs)), Ok((sq, sp))) => {
                &&& q == sq
                &&& pair_views(pairs@) == sp
                &&& keys_unique(sp)
                &&& p < q
                &&& ends_ascii(bytes@, q as int)
            },
            (Err(e), Err(se)) => e == se,
            _ => false,
        },
    decreases bytes@.len() - p, 1int,
{
    let len = bytes.len();
    if !(p < len && bytes[p] == 0x7b) {
        return Err(ParseError { severity: Severity::Recoverable, kind: ErrorKind::UnexpectedCharacter, position: p });
    }
    let q = skip_whitespace(bytes, p + 1);
    if q < len && bytes[q] == 0x7d {
        let pairs: Vec<(Text<'a>, Value<'a>)> = Vec::new();
        assert(pair_views(pairs@) =~= Seq::<(Seq<char>, SpecValue)>::empty());
        return Ok((q + 1, pairs));
    }
    let mut pairs: Vec<(Text<'a>, Value<'a>)> = Vec::new();
    assert(pair_views(pairs@) =~= Seq::<(Seq<char>, SpecValue)>::empty());
    let mut pos = p + 1;
    loop
        invariant
            len == bytes@.len(),
            bytes@ == input.spec_bytes(),
            p < pos <= len,
            spec_object(bytes@, p as int) == spec_object_members(
                bytes@,
                pos as int,
                pair_views(pairs@),
            ),
            keys_unique(pair_views(pairs@)),
        decreases len - pos,
    {
        let k = skip_whitespace(bytes, pos);
        match string_at(input, bytes, k) {
            Err(e) => {
                return Err(commit_error(e, len, ErrorKind::UnterminatedObject));
            },
            Ok((kr, key)) => {
                let colon = skip_whitespace(bytes, kr);
                if !(colon < len && bytes[colon] == 0x3a) {
                    return Err(expected_error(len, colon, ErrorKind::UnterminatedObject));
                }
                match value_at(input, bytes, colon + 1) {
                    Err(e) => {
                        return Err(commit_error(e, len, ErrorKind::UnterminatedObject));
                    },
                    Ok((r, v)) => {
                        let c = skip_whitespace(bytes, r);
                        insert_pair(&mut pairs, key, v);
                        if c < len && bytes[c] == 0x2c {
                            pos = c + 1;
                        } else if c < len && bytes[c] == 0x7d {
                            return Ok((c + 1, pairs));
                        } else {
                            return Err(expected_error(len, c, ErrorKind::UnterminatedObject));
                        }
                    },
                }
            },
        }
    }
}

/// Whether `rest` is what follows the first `n` bytes of `input`.
pub open spec fn remainder_is(input: &str, n: int, rest: &str) -> bool {
    rest.spec_bytes() == input.spec_bytes().subrange(n, input.spec_bytes().len() as int)
}

/// The text after `q`, where `q` follows an ASCII byte of the input.
fn rest_after<'a>(input: &'a str, bytes: &[u8], q: usize) -> (r: &'a str)
    requires
        bytes@ == input.spec_bytes(),
        ends_ascii(bytes@, q as int),
    ensures
        remainder_is(input, q as int, r),
{
    proof {
        assert(valid_utf8(encode_utf8(input@)));
        lemma_after_ascii_is_boundary(bytes@, q as int);
    }
    suffix(input, q)
}

/// Consumes the longest prefix made of whitespace; never fails. Gives the
/// remainder and the consumed whitespace.
pub fn whitespace<'a>(input: &'a str) -> (r: Result<(&'a str, &'a str), ParseError>)
    ensures
        match r {
            Ok((rest, ws)) => {
                let n = skip_ws(input.spec_bytes(), 0);
                &&& ws.spec_bytes() == input.spec_bytes().subrange(0, n)
                &&& remainder_is(input, n, rest)
                &&& ws@ + rest@ == input@
            },
            Err(_) => false,
        },
{
    let bytes = input.as_bytes();
    let n = skip_whitespace(bytes, 0);
    proof {
        let s = bytes@;
        assert(valid_utf8(encode_utf8(input@)));
        lemma_skip_ws_bounds(s, 0);
        if n == 0 {
            vstd::utf8::is_char_boundary_start_end_of_seq(s);
        } else {
            lemma_after_ascii_is_boundary(s, n as int);
        }
        vstd::utf8::decode_utf8_split(s, n as int);
        vstd::utf8::is_char_boundary_start_end_of_seq(s);
    }
    let ws = substr(input, 0, n);
    let rest = substr(input, n, bytes.len());
    assert(input.spec_bytes().subrange(n as int, bytes@.len() as int) == rest.spec_bytes());
    Ok((rest, ws))
}

/// Parses a JSON value with the `null` type: exactly the literal `null`.
pub fn null(input: &str) -> (r: Result<(&str, ()), ParseError>)
    ensures
        match (r, spec_null(input.spec_bytes(), 0)) {
            (Ok((rest, _)), Ok(n)) => remainder_is(input, n, rest),
            (Err(e), Err(se)) => e == se,
            _ => false,
        },
{
    let bytes = input.as_bytes();
    match null_at(bytes, 0) {
        Ok(q) => Ok((rest_after(input, bytes, q), ())),
        Err(e) => Err(e),
    }
}

/// Parses a JSON value with the `boolean` type: the literal `true` or `false`.
pub fn boolean(input: &str) -> (r: Result<(&str, bool), ParseError>)
    ensures
        match (r, spec_boolean(input.spec_bytes(), 0)) {
            (Ok((rest, b)), Ok((n, sb))) => b == sb && remainder_is(input, n, rest),
            (Err(e), Err(se)) => e == se,
            _ => false,
        },
{
    let bytes = input.as_bytes();
    match boolean_at(bytes, 0) {
        Ok((q, b)) => Ok((rest_after(input, bytes, q), b)),
        Err(e) => Err(e),
    }
}

/// Parses a JSON value with the `number` type: the longest prefix that is a
/// JSON number, given as its text.
pub fn number<'a>(input: &'a str) -> (r: Result<(&'a str, &'a str), ParseError>)
    ensures
        match (r, spec_number(input.spec_bytes(), 0)) {
            (Ok((rest, text)), Ok(n)) => {
                &&& text.spec_bytes() == input.spec_bytes().subrange(0, n)
                &&& text@ == decode_utf8(text.spec_bytes())
                &&& remainder_is(input, n, rest)
            },
            (Err(e), Err(se)) => e == se,
            _ => false,
        },
{
    let bytes = input.as_bytes();
    match number_at(bytes, 0) {
        Ok(q) => {
            proof {
                assert(valid_utf8(encode_utf8(input@)));
                lemma_after_ascii_is_boundary(bytes@, q as int);
                vstd::utf8::is_char_boundary_start_end_of_seq(bytes@);
            }
            let text = substr(input, 0, q);
            Ok((rest_after(input, bytes, q), text))
        },
        Err(e) => Err(e),
    }
}

/// Parses a JSON value with the `array` type: `[`, values separated by
/// commas, `]`. Once the opening bracket matched, every failure is fatal.
pub fn array<'a>(input: &'a str) -> (r: Result<(&'a str, Vec<Value<'a>>), ParseError>)
    ensures
        match (r, spec_array(input.spec_bytes(), 0)) {
            (Ok((rest, items)), Ok((n, si))) => views(items@) == si && remainder_is(input, n, rest),
            (Err(e), Err(se)) => e == se,
            _ => false,
        },
{
    let bytes = input.as_bytes();
    match array_at(input, bytes, 0) {
        Ok((q, items)) => Ok((rest_after(input, bytes, q), items)),
        Err(e) => Err(e),
    }
}

/// Parses a JSON value with the `object` type: `{`, pairs `key : value`
/// separated by commas, `}`. Once the opening brace matched, every failure
/// is fatal. A later pair with the same key replaces the earlier value.
pub fn object<'a>(input: &'a str) -> (r: Result<(&'a str, Vec<(Text<'a>, Value<'a>)>), ParseError>)
    ensures
        match (r, spec_object(input.spec_bytes(), 0)) {
            (Ok((rest, pairs)), Ok((n, sp))) => {
                &&& pair_views(pairs@) == sp
                &&& keys_unique(sp)
                &&& remainder_is(input, n, rest)
            },
            (Err(e), Err(se)) => e == se,
            _ => false,
        },
{
    let bytes = input.as_bytes();
    match object_at(input, bytes, 0) {
        Ok((q, pairs)) => Ok((rest_after(input, bytes, q), pairs)),
        Err(e) => Err(e),
    }
}

/// Parses one JSON value after optional whitespace, trying array, boolean,
/// object, null, number and string in turn. Text after the value is left in
/// the remainder.
pub fn json_value<'a>(input: &'a str) -> (r: Result<(&'a str, Value<'a>), ParseError>)
    ensures
        match (r, spec_value(input.spec_bytes(), 0)) {
            (Ok((rest, v)), Ok((n, sv))) => v.view_value() == sv && remainder_is(input, n, rest),
            (Err(e), Err(se)) => e == se,
            _ => false,
        },
{
    let bytes = input.as_bytes();
    match value_at(input, bytes, 0) {
        Ok((q, v)) => Ok((rest_after(input, bytes, q), v)),
        Err(e) => Err(e),
    }
}

} // verus!
