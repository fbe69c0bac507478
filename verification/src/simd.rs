//! Byte search primitives.

use vstd::prelude::*;
use crate::bytes::{find_byte, find_first};
use crate::http::parser::crlf_from;

verus! {

/// `s` has `a` or `b` at `i` and neither before.
pub open spec fn first_of_two(s: Seq<u8>, a: u8, b: u8, i: int) -> bool {
    &&& 0 <= i < s.len()
    &&& (s[i] == a || s[i] == b)
    &&& forall|j: int| 0 <= j < i ==> s[j] != a && s[j] != b
}

/// Position of the first occurrence of `needle`.
pub fn memchr(needle: u8, haystack: &[u8]) -> (r: Option<usize>)
    ensures
        find_first(haystack@, needle, r),
{
    find_byte(needle, haystack)
}

/// Position of the first byte equal to `needle1` or `needle2`.
pub fn memchr2(needle1: u8, needle2: u8, haystack: &[u8]) -> (r: Option<usize>)
    ensures
        match r {
            Some(i) => first_of_two(haystack@, needle1, needle2, i as int),
            None => forall|j: int| 0 <= j < haystack@.len() ==> haystack@[j] != needle1 && haystack@[j] != needle2,
        },
{
    let mut i: usize = 0;
    while i < haystack.len()
        invariant
            i <= haystack@.len(),
            forall|j: int| 0 <= j < i ==> haystack@[j] != needle1 && haystack@[j] != needle2,
        decreases haystack@.len() - i,
    {
        let b = haystack[i];
        if b == needle1 || b == needle2 {
            return Some(i);
        }
        i += 1;
    }
    None
}

/// Position of the first `\r\n`.
pub fn find_crlf(haystack: &[u8]) -> (r: Option<usize>)
    ensures
        match r {
            Some(i) => crlf_from(haystack@, 0) == Some(i as int),
            None => crlf_from(haystack@, 0) is None,
        },
{
    crate::http::parser::find_crlf(haystack)
}

} // verus!
