//! Helpers for string slices described by their UTF-8 bytes.

use vstd::prelude::*;
use vstd::string::StringSliceAdditionalSpecFns;
use vstd::utf8::*;

verus! {

/// The bytes of an ASCII character sequence.
pub open spec fn ascii_bytes(s: Seq<char>) -> Seq<u8> {
    s.map_values(|c: char| c as u8)
}

/// The bytes of an ASCII string slice are its characters.
pub proof fn lemma_ascii_str(s: &str)
    requires
        vstd::string::is_ascii(s),
    ensures
        s.spec_bytes() == ascii_bytes(s@),
{
    vstd::string::is_ascii_spec_bytes(s);
    assert(s.spec_bytes() =~= ascii_bytes(s@));
}

/// A byte position that may split a valid UTF-8 sequence: either its end, or a byte
/// that does not continue a multi-byte character.
pub open spec fn splittable(b: Seq<u8>, i: int) -> bool {
    0 <= i <= b.len() && (i == b.len() || !is_continuation_byte(b[i]))
}

/// The bytes of every string slice are valid UTF-8.
pub proof fn lemma_str_valid(s: &str)
    ensures
        valid_utf8(s.spec_bytes()),
{
    encode_utf8_valid_utf8(s@);
}

/// Two string slices have the same characters exactly when they have the same bytes.
pub proof fn lemma_str_bytes_eq(a: &str, b: &str)
    ensures
        (a@ == b@) <==> (a.spec_bytes() == b.spec_bytes()),
{
    encode_utf8_decode_utf8(a@);
    encode_utf8_decode_utf8(b@);
}

/// Splittable positions of a valid sequence are character boundaries.
pub proof fn lemma_splittable_boundary(b: Seq<u8>, i: int)
    requires
        valid_utf8(b),
        splittable(b, i),
    ensures
        is_char_boundary(b, i),
{
    if i == b.len() {
        is_char_boundary_start_end_of_seq(b);
    } else {
        is_char_boundary_iff_not_is_continuation_byte(b, i);
    }
}

/// An ASCII byte of a valid sequence, and the position just after it, may split it.
pub proof fn lemma_ascii_splittable(b: Seq<u8>, p: int)
    requires
        valid_utf8(b),
        0 <= p < b.len(),
        b[p] < 128,
    ensures
        splittable(b, p),
        splittable(b, p + 1),
{
    if p + 1 < b.len() {
        is_char_boundary_iff_not_is_continuation_byte(b, p);
        valid_utf8_split(b, p);
        let t = b.subrange(p, b.len() as int);
        assert(t[0] == b[p]);
        assert(valid_first_scalar(t) && valid_utf8(pop_first_scalar(t)));
        assert(length_of_first_scalar(t) == 1);
        let t1 = pop_first_scalar(t);
        assert(t1.len() > 0);
        assert(t1[0] == b[p + 1]);
        assert(is_char_boundary(t1, 0));
        is_char_boundary_iff_not_is_continuation_byte(t1, 0);
    }
}

/// The start of a valid sequence may split it.
pub proof fn lemma_splittable_zero(b: Seq<u8>)
    requires
        valid_utf8(b),
    ensures
        splittable(b, 0),
{
    if b.len() > 0 {
        is_char_boundary_start_end_of_seq(b);
        is_char_boundary_iff_not_is_continuation_byte(b, 0);
    }
}

/// Decode UTF-8 bytes into a string slice (std's `str::from_utf8`): `Some` exactly when
/// the bytes are valid UTF-8, and then the slice has exactly those bytes.
#[verifier::external_body]
pub fn str_from_utf8<'a>(b: &'a [u8]) -> (r: Option<&'a str>)
    ensures
        r is Some <==> valid_utf8(b@),
        r matches Some(s) ==> s.spec_bytes() == b@,
{
    std::str::from_utf8(b).ok()
}

/// The sub-slice of `s` between two byte positions that do not split a character.
pub fn substr<'a>(s: &'a str, from: usize, to: usize) -> (r: &'a str)
    requires
        from <= to,
        splittable(s.spec_bytes(), from as int),
        splittable(s.spec_bytes(), to as int),
    ensures
        r.spec_bytes() == s.spec_bytes().subrange(from as int, to as int),
{
    let ghost b = s.spec_bytes();
    proof {
        lemma_str_valid(s);
        lemma_splittable_boundary(b, to as int);
    }
    let (head, _tail) = s.split_at(to);
    let ghost hb = head.spec_bytes();
    proof {
        assert(hb =~= b.subrange(0, to as int));
        lemma_str_valid(head);
        if from < to {
            assert(hb[from as int] == b[from as int]);
        }
        lemma_splittable_boundary(hb, from as int);
    }
    let (_pre, r) = head.split_at(from);
    proof {
        assert(r.spec_bytes() =~= b.subrange(from as int, to as int));
    }
    r
}

/// Whether two strings are equal.
pub fn str_eq(a: &str, b: &str) -> (r: bool)
    ensures
        r == (a@ == b@),
{
    proof {
        lemma_str_bytes_eq(a, b);
    }
    crate::bytes::bytes_eq(a.as_bytes(), b.as_bytes())
}

/// Every byte of `s` is ASCII.
pub open spec fn all_ascii(s: Seq<u8>) -> bool {
    forall|i: int| 0 <= i < s.len() ==> s[i] < 128
}

/// ASCII bytes are valid UTF-8.
pub proof fn lemma_ascii_valid(s: Seq<u8>)
    requires
        all_ascii(s),
    ensures
        valid_utf8(s),
{
    let cs = s.map_values(|b: u8| b as char);
    assert(vstd::utf8::is_ascii_chars(cs)) by {
        assert forall|i: int| 0 <= i < cs.len() implies '\0' <= #[trigger] cs[i] <= '\u{7f}' by {
            assert(s[i] < 128);
        }
    }
    vstd::utf8::is_ascii_chars_encode_utf8(cs);
    assert(encode_utf8(cs) =~= s);
    vstd::utf8::encode_utf8_valid_utf8(cs);
}

/// The part of a valid sequence between two splittable positions is valid.
pub proof fn lemma_valid_between(b: Seq<u8>, i: int, j: int)
    requires
        valid_utf8(b),
        i <= j,
        splittable(b, i),
        splittable(b, j),
    ensures
        valid_utf8(b.subrange(i, j)),
{
    lemma_splittable_boundary(b, j);
    valid_utf8_split(b, j);
    let h = b.subrange(0, j);
    assert(splittable(h, i)) by {
        if i < j {
            assert(h[i] == b[i]);
        }
    }
    lemma_splittable_boundary(h, i);
    valid_utf8_split(h, i);
    assert(h.subrange(i, j) =~= b.subrange(i, j));
}

} // verus!
