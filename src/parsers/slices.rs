//! Facts about character boundaries in UTF-8 text, and the slicing of the
//! input at positions that the parsers reach.
use vstd::prelude::*;
use vstd::string::StringSliceAdditionalSpecFns;
use vstd::utf8::*;

verus! {

broadcast use vstd::utf8::group_utf8_lib;

/// An ASCII byte of valid UTF-8 starts a character.
pub proof fn lemma_ascii_is_boundary(s: Seq<u8>, i: int)
    requires
        valid_utf8(s),
        0 <= i < s.len(),
        s[i] < 0x80,
    ensures
        is_char_boundary(s, i),
{
    is_char_boundary_iff_not_is_continuation_byte(s, i);
}

/// The position after an ASCII byte of valid UTF-8 is a character boundary.
pub proof fn lemma_after_ascii_is_boundary(s: Seq<u8>, i: int)
    requires
        valid_utf8(s),
        0 < i <= s.len(),
        s[i - 1] < 0x80,
    ensures
        is_char_boundary(s, i),
{
    if i == s.len() {
        is_char_boundary_start_end_of_seq(s);
    } else {
        lemma_ascii_is_boundary(s, i - 1);
        valid_utf8_split(s, i - 1);
        let t = s.subrange(i - 1, s.len() as int);
        assert(valid_first_scalar(t) && valid_utf8(pop_first_scalar(t)));
        assert(pop_first_scalar(t) =~= s.subrange(i, s.len() as int));
        let u = s.subrange(i, s.len() as int);
        assert(valid_first_scalar(u));
        assert(u[0] == s[i]);
        is_char_boundary_iff_not_is_continuation_byte(s, i);
    }
}

/// A boundary of valid UTF-8 stays one in the suffix that starts at an
/// earlier boundary, and that suffix is valid UTF-8.
pub proof fn lemma_boundary_in_suffix(s: Seq<u8>, a: int, b: int)
    requires
        valid_utf8(s),
        0 <= a <= b <= s.len(),
        is_char_boundary(s, a),
        is_char_boundary(s, b),
    ensures
        valid_utf8(s.subrange(a, s.len() as int)),
        is_char_boundary(s.subrange(a, s.len() as int), b - a),
{
    valid_utf8_split(s, a);
    let t = s.subrange(a, s.len() as int);
    if b == s.len() {
        is_char_boundary_start_end_of_seq(t);
    } else {
        is_char_boundary_iff_not_is_continuation_byte(s, b);
        assert(t[b - a] == s[b]);
        is_char_boundary_iff_not_is_continuation_byte(t, b - a);
    }
}

/// The bytes between two boundaries of valid UTF-8 are valid UTF-8.
pub proof fn lemma_valid_between(s: Seq<u8>, a: int, b: int)
    requires
        valid_utf8(s),
        0 <= a <= b <= s.len(),
        is_char_boundary(s, a),
        is_char_boundary(s, b),
    ensures
        valid_utf8(s.subrange(a, b)),
{
    lemma_boundary_in_suffix(s, a, b);
    let t = s.subrange(a, s.len() as int);
    valid_utf8_split(t, b - a);
    assert(t.subrange(0, b - a) =~= s.subrange(a, b));
}

/// The text of `input` from byte `from` up to byte `to`.
pub fn substr<'a>(input: &'a str, from: usize, to: usize) -> (r: &'a str)
    requires
        from <= to <= input.spec_bytes().len(),
        is_char_boundary(input.spec_bytes(), from as int),
        is_char_boundary(input.spec_bytes(), to as int),
    ensures
        r.spec_bytes() == input.spec_bytes().subrange(from as int, to as int),
        r@ == decode_utf8(r.spec_bytes()),
{
    let s = Ghost(input.spec_bytes());
    proof {
        lemma_boundary_in_suffix(s@, from as int, to as int);
    }
    let (_, tail) = input.split_at(from);
    assert(tail.spec_bytes() =~= s@.subrange(from as int, s@.len() as int));
    let (mid, _) = tail.split_at(to - from);
    assert(mid.spec_bytes() =~= s@.subrange(from as int, to as int));
    mid
}

/// The text of `input` from byte `from` to its end.
pub fn suffix<'a>(input: &'a str, from: usize) -> (r: &'a str)
    requires
        from <= input.spec_bytes().len(),
        is_char_boundary(input.spec_bytes(), from as int),
    ensures
        r.spec_bytes() == input.spec_bytes().subrange(from as int, input.spec_bytes().len() as int),
{
    let (_, tail) = input.split_at(from);
    tail
}

} // verus!
