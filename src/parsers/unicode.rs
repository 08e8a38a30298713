//! Parsers and functions specific to escaped unicode sequences.
use vstd::prelude::*;
use vstd::string::StringSliceAdditionalSpecFns;
use vstd::utf8::{encode_scalar, is_scalar};

use crate::error::{ErrorKind, ParseError, Severity};
use crate::parsers::grammar::{hex_digit_value, hex_run, hex_value, is_hex, spec_unicode};
use crate::parsers::slices::{lemma_after_ascii_is_boundary, suffix};

verus! {

broadcast use vstd::utf8::group_utf8_lib;

/// Sixteen to the power `n`.
pub open spec fn pow16(n: nat) -> nat
    decreases n,
{
    if n == 0 {
        1
    } else {
        16 * pow16((n - 1) as nat)
    }
}

proof fn lemma_pow16_bound(n: nat)
    requires
        n <= 6,
    ensures
        pow16(n) <= 16777216,
    decreases 6 - n,
{
    if n < 6 {
        lemma_pow16_bound(n + 1);
    } else {
        reveal_with_fuel(pow16, 7);
    }
}

/// The value of the hexadecimal digit `b`, if it is one.
fn hex_digit(b: u8) -> (r: Option<u32>)
    ensures
        r is Some <==> is_hex(b),
        r is Some ==> r->0 == hex_digit_value(b) && r->0 < 16,
{
    if 0x30 <= b && b <= 0x39 {
        Some((b - 0x30) as u32)
    } else if 0x61 <= b && b <= 0x66 {
        Some((b - 0x61 + 10) as u32)
    } else if 0x41 <= b && b <= 0x46 {
        Some((b - 0x41 + 10) as u32)
    } else {
        None
    }
}

/// The bracketed escape `u{...}` at `p`.
pub(crate) fn unicode_at(bytes: &[u8], p: usize) -> (r: Result<(usize, u32), ParseError>)
    requires
        p <= bytes@.len(),
    ensures
        match (r, spec_unicode(bytes@, p as int)) {
            (Ok((q, c)), Ok((sq, sc))) => q == sq && c == sc && p < q && bytes@[q - 1] == 0x7d,
            (Err(e), Err(se)) => e == se,
            _ => false,
        },
{
    let len = bytes.len();
    if !(p < len && bytes[p] == 0x75) {
        return Err(ParseError { severity: Severity::Recoverable, kind: ErrorKind::UnexpectedCharacter, position: p });
    }
    if !(p + 1 < len && bytes[p + 1] == 0x7b) {
        return Err(ParseError { severity: Severity::Recoverable, kind: ErrorKind::UnexpectedCharacter, position: p + 1 });
    }
    let start = p + 2;
    let mut n: usize = 0;
    let mut value: u32 = 0;
    let ghost s = bytes@;
    loop
        invariant
            len == s.len(),
            s == bytes@,
            start == p + 2,
            start <= len,
            n <= 6,
            start + n <= len,
            hex_run(s, start as int, 6) == n + hex_run(s, start + n, (6 - n) as nat),
            value == hex_value(s.subrange(start as int, start + n)),
            value < pow16(n as nat),
        ensures
            n == 6 || start + n >= len || !is_hex(s[start + n]),
            start + n <= len,
            hex_run(s, start as int, 6) == n + hex_run(s, start + n, (6 - n) as nat),
            value == hex_value(s.subrange(start as int, start + n)),
        decreases 6 - n,
    {
        if n == 6 || start + n >= len {
            break;
        }
        match hex_digit(bytes[start + n]) {
            None => break,
            Some(d) => {
                proof {
                    lemma_pow16_bound((n + 1) as nat);
                }
                assert(pow16((n + 1) as nat) == 16 * pow16(n as nat));
                assert(value * 16 + d < pow16((n + 1) as nat)) by (nonlinear_arith)
                    requires
                        value < pow16(n as nat),
                        d < 16,
                        pow16((n + 1) as nat) == 16 * pow16(n as nat),
                ;
                assert(s.subrange(start as int, start + n + 1).drop_last() =~= s.subrange(
                    start as int,
                    start + n,
                ));
                value = value * 16 + d;
                n = n + 1;
            },
        }
    }
    assert(hex_run(s, start + n, (6 - n) as nat) == 0);
    if n == 0 {
        return Err(ParseError { severity: Severity::Recoverable, kind: ErrorKind::UnexpectedCharacter, position: start });
    }
    if !(start + n < len && bytes[start + n] == 0x7d) {
        return Err(ParseError { severity: Severity::Recoverable, kind: ErrorKind::UnexpectedCharacter, position: start + n });
    }
    Ok((start + n + 1, value))
}

/// Parses a bracketed unicode escape `u{...}` (the part after a backslash):
/// one to six hexadecimal digits between braces, giving the code point they
/// spell in base sixteen. Every failure is recoverable; the error's position
/// is where the escape stopped matching.
pub fn unicode_sequence(input: &str) -> (r: Result<(&str, u32), ParseError>)
    ensures
        match (r, spec_unicode(input.spec_bytes(), 0)) {
            (Ok((rest, c)), Ok((n, sc))) => c == sc && rest.spec_bytes() == input.spec_bytes().subrange(
                n,
                input.spec_bytes().len() as int,
            ),
            (Err(e), Err(se)) => e == se,
            _ => false,
        },
{
    let bytes = input.as_bytes();
    match unicode_at(bytes, 0) {
        Ok((q, c)) => {
            proof {
                lemma_after_ascii_is_boundary(bytes@, q as int);
            }
            Ok((suffix(input, q), c))
        },
        Err(e) => Err(e),
    }
}

/// Appends the UTF-8 encoding of the scalar value `c`.
pub(crate) fn push_scalar(buf: &mut Vec<u8>, c: u32)
    requires
        is_scalar(c),
    ensures
        final(buf)@ == old(buf)@ + encode_scalar(c),
{
    if c <= 0x7f {
        buf.push((c & 0x7f) as u8);
    } else if c <= 0x7ff {
        buf.push(0xC0 | ((c >> 6) & 0x1F) as u8);
        buf.push(0x80 | (c & 0x3F) as u8);
    } else if c <= 0xffff {
        buf.push(0xE0 | ((c >> 12) & 0x0F) as u8);
        buf.push(0x80 | ((c >> 6) & 0x3F) as u8);
        buf.push(0x80 | (c & 0x3F) as u8);
    } else {
        buf.push(0xF0 | ((c >> 18) & 0x7) as u8);
        buf.push(0x80 | ((c >> 12) & 0x3F) as u8);
        buf.push(0x80 | ((c >> 6) & 0x3F) as u8);
        buf.push(0x80 | (c & 0x3F) as u8);
    }
    assert(final(buf)@ =~= old(buf)@ + encode_scalar(c));
}

} // verus!
