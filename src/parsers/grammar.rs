//! The grammar, stated over the UTF-8 bytes of the input. Each production
//! takes the bytes and a position and gives the position just after what it
//! recognised together with the decoded result, or the failure it reports.
use vstd::prelude::*;
use vstd::utf8::{decode_utf8, encode_scalar, is_scalar};

use crate::error::{failure, no_match, ErrorKind, ParseError, Severity};
use crate::types::SpecValue;

verus! {

/// Space, tab, carriage return or line feed.
pub open spec fn is_ws(b: u8) -> bool {
    b == 0x20 || b == 0x09 || b == 0x0d || b == 0x0a
}

/// Whether byte `b` stands at position `p`.
pub open spec fn at(s: Seq<u8>, p: int, b: u8) -> bool {
    0 <= p < s.len() && s[p] == b
}

/// The first position at or after `p` that does not hold whitespace.
pub open spec fn skip_ws(s: Seq<u8>, p: int) -> int
    decreases s.len() - p,
{
    if 0 <= p < s.len() && is_ws(s[p]) {
        skip_ws(s, p + 1)
    } else {
        p
    }
}

/// Skipping whitespace never moves back, and stops at the end of the input.
pub proof fn lemma_skip_ws_bounds(s: Seq<u8>, p: int)
    ensures
        p <= skip_ws(s, p),
        p <= s.len() ==> skip_ws(s, p) <= s.len(),
        skip_ws(s, p) == p || is_ws(s[skip_ws(s, p) - 1]),
        !(0 <= skip_ws(s, p) < s.len() && is_ws(s[skip_ws(s, p)])),
    decreases s.len() - p,
{
    if 0 <= p < s.len() && is_ws(s[p]) {
        lemma_skip_ws_bounds(s, p + 1);
    }
}

/// Whether the bytes of `lit` stand in `s` from `p` on.
pub open spec fn has_literal(s: Seq<u8>, p: int, lit: Seq<u8>) -> bool {
    0 <= p && p + lit.len() <= s.len() && s.subrange(p, p + lit.len()) == lit
}

pub open spec fn lit_null() -> Seq<u8> {
    seq![0x6e, 0x75, 0x6c, 0x6c]
}

pub open spec fn lit_true() -> Seq<u8> {
    seq![0x74, 0x72, 0x75, 0x65]
}

pub open spec fn lit_false() -> Seq<u8> {
    seq![0x66, 0x61, 0x6c, 0x73, 0x65]
}

/// `null`: the position after the literal.
pub open spec fn spec_null(s: Seq<u8>, p: int) -> Result<int, ParseError> {
    if has_literal(s, p, lit_null()) {
        Ok(p + 4)
    } else {
        Err(no_match(ErrorKind::UnexpectedCharacter, p))
    }
}

/// `true` or `false`.
pub open spec fn spec_boolean(s: Seq<u8>, p: int) -> Result<(int, bool), ParseError> {
    if has_literal(s, p, lit_true()) {
        Ok((p + 4, true))
    } else if has_literal(s, p, lit_false()) {
        Ok((p + 5, false))
    } else {
        Err(no_match(ErrorKind::UnexpectedCharacter, p))
    }
}

pub open spec fn is_digit(b: u8) -> bool {
    0x30 <= b <= 0x39
}

pub open spec fn digit_at(s: Seq<u8>, p: int) -> bool {
    0 <= p < s.len() && is_digit(s[p])
}

/// The end of the run of decimal digits that starts at `p`.
pub open spec fn digits_end(s: Seq<u8>, p: int) -> int
    decreases s.len() - p,
{
    if digit_at(s, p) {
        digits_end(s, p + 1)
    } else {
        p
    }
}

/// The end of the integer part whose first digit stands at `a`: a lone `0`,
/// or a run of digits.
pub open spec fn int_end(s: Seq<u8>, a: int) -> int {
    if at(s, a, 0x30) {
        a + 1
    } else {
        digits_end(s, a)
    }
}

/// The end of the fraction that may start at `i`: `.` and at least one digit.
pub open spec fn frac_end(s: Seq<u8>, i: int) -> int {
    if at(s, i, 0x2e) && digit_at(s, i + 1) {
        digits_end(s, i + 1)
    } else {
        i
    }
}

/// The end of the exponent that may start at `f`: `e` or `E`, a sign, and at
/// least one digit.
pub open spec fn exp_end(s: Seq<u8>, f: int) -> int {
    if at(s, f, 0x65) || at(s, f, 0x45) {
        let d = if at(s, f + 1, 0x2b) || at(s, f + 1, 0x2d) {
            f + 2
        } else {
            f + 1
        };
        if digit_at(s, d) {
            digits_end(s, d)
        } else {
            f
        }
    } else {
        f
    }
}

/// A number: the end of the longest prefix from `p` that is a JSON number.
pub open spec fn spec_number(s: Seq<u8>, p: int) -> Result<int, ParseError> {
    let a = if at(s, p, 0x2d) {
        p + 1
    } else {
        p
    };
    if digit_at(s, a) {
        Ok(exp_end(s, frac_end(s, int_end(s, a))))
    } else {
        Err(no_match(ErrorKind::InvalidNumber, p))
    }
}

pub open spec fn is_hex(b: u8) -> bool {
    is_digit(b) || (0x61 <= b <= 0x66) || (0x41 <= b <= 0x46)
}

/// The value of one hexadecimal digit.
pub open spec fn hex_digit_value(b: u8) -> nat {
    if is_digit(b) {
        (b - 0x30) as nat
    } else if 0x61 <= b <= 0x66 {
        (b - 0x61 + 10) as nat
    } else {
        (b - 0x41 + 10) as nat
    }
}

/// The value of a sequence of hexadecimal digits, most significant first.
pub open spec fn hex_value(d: Seq<u8>) -> nat
    decreases d.len(),
{
    if d.len() == 0 {
        0
    } else {
        hex_value(d.drop_last()) * 16 + hex_digit_value(d.last())
    }
}

/// How many hexadecimal digits, at most `n`, stand from `p` on.
pub open spec fn hex_run(s: Seq<u8>, p: int, n: nat) -> nat
    decreases n,
{
    if n > 0 && 0 <= p < s.len() && is_hex(s[p]) {
        1 + hex_run(s, p + 1, (n - 1) as nat)
    } else {
        0
    }
}

/// A bracketed escape `u{` + one to six hexadecimal digits + `}`: the
/// position after it and the code point.
pub open spec fn spec_unicode(s: Seq<u8>, p: int) -> Result<(int, u32), ParseError> {
    if !at(s, p, 0x75) {
        Err(no_match(ErrorKind::UnexpectedCharacter, p))
    } else if !at(s, p + 1, 0x7b) {
        Err(no_match(ErrorKind::UnexpectedCharacter, p + 1))
    } else {
        let n = hex_run(s, p + 2, 6);
        if n == 0 {
            Err(no_match(ErrorKind::UnexpectedCharacter, p + 2))
        } else if !at(s, p + 2 + n, 0x7d) {
            Err(no_match(ErrorKind::UnexpectedCharacter, p + 2 + n))
        } else {
            Ok((p + 3 + n, hex_value(s.subrange(p + 2, p + 2 + n)) as u32))
        }
    }
}

/// A byte that stands for itself in a string body.
pub open spec fn is_plain(b: u8) -> bool {
    b != 0x22 && b != 0x5c
}

/// The end of the run of plain bytes that starts at `p`.
pub open spec fn run_end(s: Seq<u8>, p: int) -> int
    decreases s.len() - p,
{
    if 0 <= p < s.len() && is_plain(s[p]) {
        run_end(s, p + 1)
    } else {
        p
    }
}

/// The byte that a one-character escape stands for.
pub open spec fn escaped_byte(b: u8) -> Option<u8> {
    if b == 0x22 || b == 0x5c || b == 0x2f {
        Some(b)
    } else if b == 0x62 {
        Some(0x08u8)
    } else if b == 0x66 {
        Some(0x0cu8)
    } else if b == 0x6e {
        Some(0x0au8)
    } else if b == 0x72 {
        Some(0x0du8)
    } else if b == 0x74 {
        Some(0x09u8)
    } else {
        None
    }
}

/// The escape whose backslash stands at `e`: the position after it and the
/// UTF-8 bytes it stands for.
pub open spec fn spec_escape(s: Seq<u8>, e: int) -> Result<(int, Seq<u8>), ParseError> {
    if e + 1 >= s.len() {
        Err(failure(ErrorKind::UnterminatedString, s.len() as int))
    } else if s[e + 1] == 0x75 {
        match spec_unicode(s, e + 1) {
            Ok((q, c)) => if is_scalar(c) {
                Ok((q, encode_scalar(c)))
            } else {
                Err(failure(ErrorKind::InvalidEscape, e))
            },
            Err(_) => Err(failure(ErrorKind::InvalidEscape, e)),
        }
    } else {
        match escaped_byte(s[e + 1]) {
            Some(b) => Ok((e + 2, seq![b])),
            None => Err(failure(ErrorKind::InvalidEscape, e)),
        }
    }
}

/// A string body from `p` on, `acc` being what was decoded before `p`: the
/// position after the closing quote and the decoded bytes.
pub open spec fn spec_string_body(s: Seq<u8>, p: int, acc: Seq<u8>) -> Result<
    (int, Seq<u8>),
    ParseError,
>
    decreases s.len() - p,
{
    let e = run_end(s, p);
    let so_far = acc + s.subrange(p, e);
    // `run_end` never moves back, so this is the end of the input reached.
    if !(0 <= p <= e < s.len()) {
        Err(failure(ErrorKind::UnterminatedString, s.len() as int))
    } else if s[e] == 0x22 {
        Ok((e + 1, so_far))
    } else {
        match spec_escape(s, e) {
            Ok((q, bytes)) => spec_string_body(s, q, so_far + bytes),
            Err(err) => Err(err),
        }
    }
}

/// A string: the position after its closing quote and the UTF-8 bytes of
/// its decoded text.
pub open spec fn spec_string(s: Seq<u8>, p: int) -> Result<(int, Seq<u8>), ParseError> {
    if at(s, p, 0x22) {
        spec_string_body(s, p + 1, Seq::empty())
    } else {
        Err(no_match(ErrorKind::UnexpectedCharacter, p))
    }
}

/// Whether the string that opens at `p` is written without any escape.
pub open spec fn string_is_plain(s: Seq<u8>, p: int) -> bool {
    at(s, run_end(s, p + 1), 0x22)
}

/// What a failure inside an opened array or object becomes: a fatal failure
/// stays as it is; a recoverable one turns fatal, and at the end of the input
/// it reports the container as unterminated.
pub open spec fn commit(e: ParseError, end: int, unterminated: ErrorKind) -> ParseError {
    if e.severity == Severity::Fatal {
        e
    } else if e.position == end {
        failure(unterminated, end)
    } else {
        failure(e.kind, e.position as int)
    }
}

/// The failure where a separator or closing delimiter was expected at `c`.
pub open spec fn expected_at(end: int, c: int, unterminated: ErrorKind) -> ParseError {
    if c >= end {
        failure(unterminated, end)
    } else {
        failure(ErrorKind::UnexpectedCharacter, c)
    }
}

/// The pairs of an object after `(k, v)` is added: the value of an existing
/// pair with key `k` is replaced, else the pair is appended.
pub open spec fn insert_member(
    acc: Seq<(Seq<char>, SpecValue)>,
    k: Seq<char>,
    v: SpecValue,
) -> Seq<(Seq<char>, SpecValue)> {
    if exists|i: int| 0 <= i < acc.len() && (#[trigger] acc[i]).0 == k {
        let i = choose|i: int| 0 <= i < acc.len() && (#[trigger] acc[i]).0 == k;
        acc.update(i, (k, v))
    } else {
        acc.push((k, v))
    }
}

/// A value, after optional leading whitespace. The productions are tried in
/// a fixed order; the first that succeeds gives the result, a fatal failure
/// ends the attempt, and when none matches the failure is a recoverable one
/// at the first non-whitespace position.
pub open spec fn spec_value(s: Seq<u8>, p: int) -> Result<(int, SpecValue), ParseError>
    decreases s.len() - p, 2int,
{
    let q = skip_ws(s, p);
    proof {
        lemma_skip_ws_bounds(s, p);
    }
    // Never taken: skipping whitespace does not move back. The test makes
    // the recursion's measure evident.
    if !(p <= q) {
        Err(no_match(ErrorKind::UnexpectedCharacter, q))
    } else {
        match spec_array(s, q) {
            Ok((r, items)) => Ok((r, SpecValue::Array(items))),
            Err(e) => if e.severity == Severity::Fatal {
                Err(e)
            } else {
                match spec_boolean(s, q) {
                    Ok((r, b)) => Ok((r, SpecValue::Boolean(b))),
                    Err(_) => match spec_object(s, q) {
                        Ok((r, pairs)) => Ok((r, SpecValue::Object(pairs))),
                        Err(e) => if e.severity == Severity::Fatal {
                            Err(e)
                        } else {
                            match spec_null(s, q) {
                                Ok(r) => Ok((r, SpecValue::Null)),
                                Err(_) => match spec_number(s, q) {
                                    Ok(r) => Ok((r, SpecValue::Number(decode_utf8(s.subrange(q, r))))),
                                    Err(_) => match spec_string(s, q) {
                                        Ok((r, d)) => Ok((r, SpecValue::String(decode_utf8(d)))),
                                        Err(e) => if e.severity == Severity::Fatal {
                                            Err(e)
                                        } else {
                                            Err(no_match(ErrorKind::UnexpectedCharacter, q))
                                        },
                                    },
                                },
                            }
                        },
                    },
                }
            },
        }
    }
}

/// An array: `[`, then values separated by commas, then `]`, with
/// whitespace allowed around each.
pub open spec fn spec_array(s: Seq<u8>, p: int) -> Result<(int, Seq<SpecValue>), ParseError>
    decreases s.len() - p, 1int,
{
    if !at(s, p, 0x5b) {
        Err(no_match(ErrorKind::UnexpectedCharacter, p))
    } else {
        let q = skip_ws(s, p + 1);
        if at(s, q, 0x5d) {
            Ok((q + 1, Seq::empty()))
        } else {
            spec_array_items(s, p + 1, Seq::empty())
        }
    }
}

/// The elements of an array from `q` on, `acc` holding those before `q`:
/// the position after the closing bracket and all the elements.
pub open spec fn spec_array_items(s: Seq<u8>, q: int, acc: Seq<SpecValue>) -> Result<
    (int, Seq<SpecValue>),
    ParseError,
>
    decreases s.len() - q, 3int,
{
    match spec_value(s, q) {
        Err(e) => Err(commit(e, s.len() as int, ErrorKind::UnterminatedArray)),
        Ok((r, v)) => {
            let c = skip_ws(s, r);
            // Never taken: a value consumes input, as the contract of the
            // executable value parser shows for every input text. The test
            // makes the recursion's measure evident.
            if !(q < r <= c) {
                Err(failure(ErrorKind::UnexpectedCharacter, q))
            } else if at(s, c, 0x2c) {
                spec_array_items(s, c + 1, acc.push(v))
            } else if at(s, c, 0x5d) {
                Ok((c + 1, acc.push(v)))
            } else {
                Err(expected_at(s.len() as int, c, ErrorKind::UnterminatedArray))
            }
        },
    }
}

/// An object: `{`, then pairs `key : value` separated by commas, then `}`,
/// with whitespace allowed around each token. A later pair with the same key
/// replaces the value of an earlier one.
pub open spec fn spec_object(s: Seq<u8>, p: int) -> Result<
    (int, Seq<(Seq<char>, SpecValue)>),
    ParseError,
>
    decreases s.len() - p, 1int,
{
    if !at(s, p, 0x7b) {
        Err(no_match(ErrorKind::UnexpectedCharacter, p))
    } else {
        let q = skip_ws(s, p + 1);
        if at(s, q, 0x7d) {
            Ok((q + 1, Seq::empty()))
        } else {
            spec_object_members(s, p + 1, Seq::empty())
        }
    }
}

/// The pairs of an object from `q` on, `acc` holding those before `q`: the
/// position after the closing brace and all the pairs.
pub open spec fn spec_object_members(
    s: Seq<u8>,
    q: int,
    acc: Seq<(Seq<char>, SpecValue)>,
) -> Result<(int, Seq<(Seq<char>, SpecValue)>), ParseError>
    decreases s.len() - q, 3int,
{
    let k = skip_ws(s, q);
    match spec_string(s, k) {
        Err(e) => Err(commit(e, s.len() as int, ErrorKind::UnterminatedObject)),
        Ok((kr, key)) => {
            let colon = skip_ws(s, kr);
            // Never taken, like the test on the value below.
            if !(q <= k < kr <= colon) {
                Err(failure(ErrorKind::UnexpectedCharacter, q))
            } else if !at(s, colon, 0x3a) {
                Err(expected_at(s.len() as int, colon, ErrorKind::UnterminatedObject))
            } else {
                match spec_value(s, colon + 1) {
                    Err(e) => Err(commit(e, s.len() as int, ErrorKind::UnterminatedObject)),
                    Ok((r, v)) => {
                        let c = skip_ws(s, r);
                        let pairs = insert_member(acc, decode_utf8(key), v);
                        // Never taken: a value consumes input.
                        if !(colon < r <= c) {
                            Err(failure(ErrorKind::UnexpectedCharacter, q))
                        } else if at(s, c, 0x2c) {
                            spec_object_members(s, c + 1, pairs)
                        } else if at(s, c, 0x7d) {
                            Ok((c + 1, pairs))
                        } else {
                            Err(expected_at(s.len() as int, c, ErrorKind::UnterminatedObject))
                        }
                    },
                }
            }
        },
    }
}

} // verus!
