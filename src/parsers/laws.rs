//! Properties of the grammar that hold for every input.
use vstd::prelude::*;
use vstd::utf8::decode_utf8;

use crate::error::{ParseError, Severity};
use crate::parsers::grammar::{
    at, has_literal, is_plain, lemma_skip_ws_bounds, lit_false, lit_null, lit_true,
    run_end, skip_ws, spec_array, spec_array_items, spec_boolean, spec_null, spec_string,
    spec_value, string_is_plain, spec_string_body, spec_object, spec_object_members, insert_member,
    spec_escape,
};
use crate::types::{keys_unique, SpecValue};

verus! {

/// Each literal parser consumes exactly its literal, gives its value, and
/// leaves what follows.
pub proof fn literals_consume_exactly(s: Seq<u8>, p: int)
    ensures
        has_literal(s, p, lit_true()) ==> spec_boolean(s, p) == Ok::<(int, bool), ParseError>((p + 4, true)),
        has_literal(s, p, lit_false()) ==> spec_boolean(s, p) == Ok::<(int, bool), ParseError>((p + 5, false)),
        has_literal(s, p, lit_null()) ==> spec_null(s, p) == Ok::<int, ParseError>(p + 4),
{
    if has_literal(s, p, lit_true()) {
        assert(s.subrange(p, p + 4)[0] == 0x74);
        assert(!has_literal(s, p, lit_false()) || s.subrange(p, p + 5)[0] == 0x66);
    }
}

/// Skipping whitespace a second time, from where the first pass stopped,
/// consumes nothing.
pub proof fn whitespace_idempotent(s: Seq<u8>, p: int)
    requires
        0 <= p <= s.len(),
    ensures
        skip_ws(s, skip_ws(s, p)) == skip_ws(s, p),
        skip_ws(s.subrange(skip_ws(s, p), s.len() as int), 0) == 0,
{
    lemma_skip_ws_bounds(s, p);
    let n = skip_ws(s, p);
    let t = s.subrange(n, s.len() as int);
    if t.len() > 0 {
        assert(t[0] == s[n]);
    }
}

/// A string written without escapes decodes to the bytes between its quotes.
pub proof fn plain_string_is_its_body(s: Seq<u8>, p: int, e: int)
    requires
        0 <= p < e < s.len(),
        s[p] == 0x22,
        s[e] == 0x22,
        forall|i: int| p < i < e ==> is_plain(#[trigger] s[i]),
    ensures
        string_is_plain(s, p),
        spec_string(s, p) == Ok::<(int, Seq<u8>), ParseError>((e + 1, s.subrange(p + 1, e))),
{
    lemma_run_end_plain(s, p + 1, e);
    assert(Seq::<u8>::empty() + s.subrange(p + 1, e) =~= s.subrange(p + 1, e));
}

proof fn lemma_run_end_plain(s: Seq<u8>, q: int, e: int)
    requires
        0 <= q <= e < s.len(),
        !is_plain(s[e]),
        forall|i: int| q <= i < e ==> is_plain(#[trigger] s[i]),
    ensures
        run_end(s, q) == e,
    decreases e - q,
{
    if q < e {
        lemma_run_end_plain(s, q + 1, e);
    }
}

/// Arrays nested `n` deep, the innermost one empty.
pub open spec fn nested(n: nat) -> SpecValue
    decreases n,
{
    if n <= 1 {
        SpecValue::Array(Seq::empty())
    } else {
        SpecValue::Array(seq![nested((n - 1) as nat)])
    }
}

/// `n` opening brackets followed by `n` closing ones parse as arrays nested
/// `n` deep, and the parse ends right after the last bracket.
pub proof fn nested_arrays_parse(s: Seq<u8>, p: int, n: nat)
    requires
        n >= 1,
        0 <= p,
        p + 2 * n <= s.len(),
        forall|i: int| p <= i < p + n ==> #[trigger] s[i] == 0x5b,
        forall|i: int| p + n <= i < p + 2 * n ==> #[trigger] s[i] == 0x5d,
    ensures
        spec_value(s, p) == Ok::<(int, SpecValue), ParseError>((p + 2 * n, nested(n))),
    decreases n,
{
    assert(s[p] == 0x5b);
    assert(skip_ws(s, p) == p);
    assert(s[p + 1] == if n == 1 { 0x5du8 } else { 0x5bu8 });
    assert(skip_ws(s, p + 1) == p + 1);
    if n == 1 {
        assert(spec_array(s, p) == Ok::<(int, Seq<SpecValue>), ParseError>((p + 2, Seq::<SpecValue>::empty())));
    } else {
        nested_arrays_parse(s, p + 1, (n - 1) as nat);
        let c = p + 2 * n - 1;
        assert(s[c] == 0x5d);
        assert(skip_ws(s, c) == c);
        assert(spec_array_items(s, p + 1, Seq::empty()) == Ok::<(int, Seq<SpecValue>), ParseError>((c + 1, seq![nested((n - 1) as nat)])));
        assert(spec_array(s, p) == Ok::<(int, Seq<SpecValue>), ParseError>((p + 2 * n, seq![nested((n - 1) as nat)])));
    }
}

/// Once the opening quote of a string matched, the string either parses or
/// fails fatally.
pub proof fn opened_string_fails_fatally(s: Seq<u8>, p: int)
    requires
        0 <= p,
        at(s, p, 0x22),
    ensures
        spec_string(s, p) is Err ==> spec_string(s, p)->Err_0.severity == Severity::Fatal,
{
    lemma_string_body_fatal(s, p + 1, Seq::empty());
}

proof fn lemma_string_body_fatal(s: Seq<u8>, q: int, acc: Seq<u8>)
    requires
        0 <= q,
    ensures
        spec_string_body(s, q, acc) is Err ==> spec_string_body(s, q, acc)->Err_0.severity
            == Severity::Fatal,
    decreases s.len() - q,
{
    let e = run_end(s, q);
    if 0 <= q <= e < s.len() && s[e] != 0x22 {
        if let Ok((r, d)) = spec_escape(s, e) {
            lemma_string_body_fatal(s, r, acc + s.subrange(q, e) + d);
        }
    }
}

/// Once the opening bracket of an array matched, the array either parses or
/// fails fatally.
pub proof fn opened_array_fails_fatally(s: Seq<u8>, p: int)
    requires
        0 <= p,
        at(s, p, 0x5b),
    ensures
        spec_array(s, p) is Err ==> spec_array(s, p)->Err_0.severity == Severity::Fatal,
{
    lemma_array_items_fatal(s, p + 1, Seq::empty());
}

proof fn lemma_array_items_fatal(s: Seq<u8>, q: int, acc: Seq<SpecValue>)
    requires
        0 <= q,
    ensures
        spec_array_items(s, q, acc) is Err ==> spec_array_items(s, q, acc)->Err_0.severity
            == Severity::Fatal,
    decreases s.len() - q,
{
    if let Ok((r, v)) = spec_value(s, q) {
        let c = skip_ws(s, r);
        if q < r <= c && at(s, c, 0x2c) {
            lemma_array_items_fatal(s, c + 1, acc.push(v));
        }
    }
}

/// Once the opening brace of an object matched, the object either parses or
/// fails fatally.
pub proof fn opened_object_fails_fatally(s: Seq<u8>, p: int)
    requires
        0 <= p,
        at(s, p, 0x7b),
    ensures
        spec_object(s, p) is Err ==> spec_object(s, p)->Err_0.severity == Severity::Fatal,
{
    lemma_object_members_fatal(s, p + 1, Seq::empty());
}

proof fn lemma_object_members_fatal(s: Seq<u8>, q: int, acc: Seq<(Seq<char>, SpecValue)>)
    requires
        0 <= q,
    ensures
        spec_object_members(s, q, acc) is Err ==> spec_object_members(s, q, acc)->Err_0.severity
            == Severity::Fatal,
    decreases s.len() - q,
{
    let k = skip_ws(s, q);
    if let Ok((kr, key)) = spec_string(s, k) {
        let colon = skip_ws(s, kr);
        if q <= k < kr <= colon && at(s, colon, 0x3a) {
            if let Ok((r, v)) = spec_value(s, colon + 1) {
                let c = skip_ws(s, r);
                if colon < r <= c && at(s, c, 0x2c) {
                    lemma_object_members_fatal(
                        s,
                        c + 1,
                        insert_member(acc, decode_utf8(key), v),
                    );
                }
            }
        }
    }
}

/// Within an object a later pair replaces the value of an earlier pair with
/// the same key: adding `(k, v1)` and then `(k, v2)` gives what adding
/// `(k, v2)` alone gives, and keys stay unique.
pub proof fn later_pair_replaces_earlier(
    acc: Seq<(Seq<char>, SpecValue)>,
    k: Seq<char>,
    v1: SpecValue,
    v2: SpecValue,
)
    requires
        keys_unique(acc),
    ensures
        insert_member(insert_member(acc, k, v1), k, v2) == insert_member(acc, k, v2),
        keys_unique(insert_member(acc, k, v2)),
{
    let once = insert_member(acc, k, v1);
    if exists|i: int| 0 <= i < acc.len() && (#[trigger] acc[i]).0 == k {
        let i = choose|i: int| 0 <= i < acc.len() && (#[trigger] acc[i]).0 == k;
        assert(once[i].0 == k);
        let j = choose|j: int| 0 <= j < once.len() && (#[trigger] once[j]).0 == k;
        assert(j == i);
        assert(insert_member(once, k, v2) =~= acc.update(i, (k, v2)));
    } else {
        let n = acc.len() as int;
        assert(once[n].0 == k);
        let j = choose|j: int| 0 <= j < once.len() && (#[trigger] once[j]).0 == k;
        assert(j == n);
        assert(insert_member(once, k, v2) =~= acc.push((k, v2)));
    }
}

} // verus!
