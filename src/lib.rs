//! A JSON value parser whose grammar is stated as spec functions over the
//! UTF-8 bytes of the input and proved against them.
use vstd::prelude::*;

use crate::error::{no_match, ErrorKind, ParseError, Severity};
use crate::parsers::grammar::{has_literal, lit_false, lit_true};
use crate::parsers::json::matches_at;

pub mod error;
pub mod types;
pub mod parsers;

verus! {

/// Recognises the literal `true` at the start of `input`.
pub fn parse_true(input: &[u8]) -> (r: Result<(&[u8], bool), ParseError>)
    ensures
        match r {
            Ok((rest, b)) => {
                &&& has_literal(input@, 0, lit_true())
                &&& b
                &&& rest@ == input@.subrange(4, input@.len() as int)
            },
            Err(e) => !has_literal(input@, 0, lit_true()) && e == no_match(
                ErrorKind::UnexpectedCharacter,
                0,
            ),
        },
{
    let lit: [u8; 4] = [0x74, 0x72, 0x75, 0x65];
    assert(lit@ =~= lit_true());
    if matches_at(input, 0, &lit) {
        let (_, rest) = input.split_at(4);
        Ok((rest, true))
    } else {
        Err(ParseError { severity: Severity::Recoverable, kind: ErrorKind::UnexpectedCharacter, position: 0 })
    }
}

/// Recognises the literal `false` at the start of `input`.
pub fn parse_false(input: &[u8]) -> (r: Result<(&[u8], bool), ParseError>)
    ensures
        match r {
            Ok((rest, b)) => {
                &&& has_literal(input@, 0, lit_false())
                &&& !b
                &&& rest@ == input@.subrange(5, input@.len() as int)
            },
            Err(e) => !has_literal(input@, 0, lit_false()) && e == no_match(
                ErrorKind::UnexpectedCharacter,
                0,
            ),
        },
{
    let lit: [u8; 5] = [0x66, 0x61, 0x6c, 0x73, 0x65];
    assert(lit@ =~= lit_false());
    if matches_at(input, 0, &lit) {
        let (_, rest) = input.split_at(5);
        Ok((rest, false))
    } else {
        Err(ParseError { severity: Severity::Recoverable, kind: ErrorKind::UnexpectedCharacter, position: 0 })
    }
}

} // verus!
