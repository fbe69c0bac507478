//! Fast scanning primitives over JSON text.

use vstd::prelude::*;
use vstd::string::StringSliceAdditionalSpecFns;
use crate::bytes::{all_digits, digits_value, index_of, index_of_from, is_digit, lemma_index_of, range_eq};
use crate::json::decode::{digits_end, unescape, unescape_bytes};

verus! {

/// JSON insignificant whitespace: space, tab, newline, carriage return.
pub open spec fn is_json_ws(b: u8) -> bool {
    b == 32 || b == 9 || b == 10 || b == 13
}

/// First position at or after `i` that is not whitespace (or the length).
pub open spec fn skip_ws(s: Seq<u8>, i: int) -> int
    decreases s.len() - i,
{
    if 0 <= i < s.len() && is_json_ws(s[i]) {
        skip_ws(s, i + 1)
    } else {
        i
    }
}

/// What follows a matched `"key"` at `i`: `None` when no colon comes after the blanks
/// (the search goes on), `Some(None)` when the input ends after the colon (the search
/// stops), `Some(Some(p))` with the position of the value.
pub open spec fn after_key(s: Seq<u8>, i: int) -> Option<Option<int>> {
    let j = skip_ws(s, i);
    if 0 <= j < s.len() && s[j] == 58 {
        let k = skip_ws(s, j + 1);
        if k < s.len() {
            Some(Some(k))
        } else {
            Some(None)
        }
    } else {
        None
    }
}

/// `"key"` as bytes.
pub open spec fn quoted(key: Seq<u8>) -> Seq<u8> {
    seq![34u8] + key + seq![34u8]
}

/// Search for `"key"` followed by a colon, from position `pos`.
pub open spec fn find_key_from(s: Seq<u8>, pat: Seq<u8>, pos: int) -> Option<int>
    decreases s.len() - pos,
{
    if pos < 0 || !(pos + pat.len() < s.len()) {
        None
    } else {
        let start = pos + index_of(s.subrange(pos, s.len() as int), 34);
        if start >= s.len() {
            None
        } else {
            let m = if start + pat.len() <= s.len() && s.subrange(start, start + pat.len()) == pat {
                after_key(s, start + pat.len())
            } else {
                None
            };
            match m {
                Some(r) => r,
                None => {
                    proof {
                        lemma_index_of(s.subrange(pos, s.len() as int), 34);
                    }
                    find_key_from(s, pat, start + 1)
                },
            }
        }
    }
}

pub proof fn lemma_skip_ws_bounds(s: Seq<u8>, i: int)
    requires
        0 <= i,
    ensures
        i <= skip_ws(s, i),
        i <= s.len() ==> skip_ws(s, i) <= s.len(),
    decreases s.len() - i,
{
    if 0 <= i < s.len() && is_json_ws(s[i]) {
        lemma_skip_ws_bounds(s, i + 1);
    }
}

/// Skip whitespace from `start`.
pub fn skip_whitespace(input: &[u8], start: usize) -> (r: usize)
    ensures
        r == skip_ws(input@, start as int),
{
    let mut pos = start;
    while pos < input.len() && (input[pos] == 32 || input[pos] == 9 || input[pos] == 10 || input[pos] == 13)
        invariant
            start <= pos,
            skip_ws(input@, start as int) == skip_ws(input@, pos as int),
        decreases input@.len() - pos,
    {
        pos += 1;
    }
    pos
}

/// Position of the value of `key` in a JSON text: after `"key"`, blanks, a colon and
/// blanks.
pub fn find_key(input: &[u8], key: &str) -> (r: Option<usize>)
    ensures
        match r {
            Some(p) => find_key_from(input@, quoted(key.spec_bytes()), 0) == Some(p as int),
            None => find_key_from(input@, quoted(key.spec_bytes()), 0) is None,
        },
{
    let kb = key.as_bytes();
    let mut pattern: Vec<u8> = Vec::new();
    pattern.push(34);
    crate::bytes::push_all(&mut pattern, kb);
    pattern.push(34);
    let ghost pat = pattern@;
    proof {
        assert(pat =~= quoted(key.spec_bytes()));
    }
    let n = input.len();
    let plen = pattern.len();
    let mut pos: usize = 0;
    while plen < n && pos < n - plen
        invariant
            n == input@.len(),
            plen == pat.len(),
            pattern@ == pat,
            pat == quoted(key.spec_bytes()),
            find_key_from(input@, pat, 0) == find_key_from(input@, pat, pos as int),
        decreases n - pos,
    {
        let start = index_of_from(input, pos, 34);
        proof {
            lemma_index_of(input@.subrange(pos as int, n as int), 34);
        }
        if start >= n {
            return None;
        }
        let ghost s = input@;
        if plen <= n - start && range_eq(input, start, start + plen, pattern.as_slice()) {
            let after = start + plen;
            let j = skip_whitespace(input, after);
            proof {
                lemma_skip_ws_bounds(s, after as int);
            }
            if j < n && input[j] == 58 {
                let k = skip_whitespace(input, j + 1);
                proof {
                    assert(after_key(s, after as int) == (if k < n { Some(Some(k as int)) } else { Some(None::<int>) }));
                }
                if k < n {
                    return Some(k);
                }
                return None;
            }
            proof {
                assert(after_key(s, after as int) is None);
            }
        }
        pos = start + 1;
    }
    None
}

/// Digits of an integer starting at `p`: the longest run of ASCII digits.
pub open spec fn digit_run_end(s: Seq<u8>, p: int) -> int
    decreases s.len() - p,
{
    if 0 <= p < s.len() && is_digit(s[p]) {
        digit_run_end(s, p + 1)
    } else {
        p
    }
}

/// Where the digits of an integer at `start` begin (after an optional `-`).
pub open spec fn int_digits_start(s: Seq<u8>, start: int) -> int {
    if start < s.len() && s[start] == 45 {
        start + 1
    } else {
        start
    }
}

/// The integer at `start` (an optional `-` and at least one digit) and the position after
/// it.
pub open spec fn spec_parse_int(s: Seq<u8>, start: int) -> Option<(int, int)> {
    let p = int_digits_start(s, start);
    if start >= s.len() || p >= s.len() || !is_digit(s[p]) {
        None
    } else {
        let e = digit_run_end(s, p);
        let v = digits_value(s.subrange(p, e)) as int;
        Some((if p > start { -v } else { v }, e))
    }
}

proof fn lemma_digit_run(s: Seq<u8>, p: int)
    requires
        0 <= p <= s.len(),
    ensures
        p <= digit_run_end(s, p) <= s.len(),
        all_digits(s.subrange(p, digit_run_end(s, p))),
    decreases s.len() - p,
{
    if p < s.len() && is_digit(s[p]) {
        lemma_digit_run(s, p + 1);
        let e = digit_run_end(s, p);
        assert forall|i: int| 0 <= i < s.subrange(p, e).len() implies is_digit(s.subrange(p, e)[i]) by {
            if i > 0 {
                assert(s.subrange(p, e)[i] == s.subrange(p + 1, e)[i - 1]);
            }
        }
    }
}

proof fn lemma_digits_prefix_le(d: Seq<u8>, k: int)
    requires
        0 <= k <= d.len(),
        all_digits(d),
    ensures
        digits_value(d.subrange(0, k)) <= digits_value(d),
    decreases d.len() - k,
{
    if k < d.len() {
        lemma_digits_prefix_le(d, k + 1);
        assert(d.subrange(0, k + 1).drop_last() =~= d.subrange(0, k));
    } else {
        assert(d.subrange(0, k) =~= d);
    }
}

/// Parse an integer at `start`: an optional `-` then one or more digits.
pub fn parse_int_fast(input: &[u8], start: usize) -> (r: Option<(i64, usize)>)
    requires
        start < input@.len() && int_digits_start(input@, start as int) < input@.len() ==>
            digits_value(input@.subrange(
                int_digits_start(input@, start as int),
                digit_run_end(input@, int_digits_start(input@, start as int)),
            )) <= i64::MAX,
    ensures
        match r {
            Some((v, e)) => spec_parse_int(input@, start as int) == Some((v as int, e as int)),
            None => spec_parse_int(input@, start as int) is None,
        },
{
    if start >= input.len() {
        return None;
    }
    let mut pos = start;
    let negative = if input[pos] == 45 {
        pos += 1;
        true
    } else {
        false
    };
    if pos >= input.len() || !(input[pos] >= 48 && input[pos] <= 57) {
        return None;
    }
    let ghost p = pos as int;
    let ghost e = digit_run_end(input@, p);
    proof {
        lemma_digit_run(input@, p);
    }
    let mut value: i64 = 0;
    while pos < input.len() && input[pos] >= 48 && input[pos] <= 57
        invariant
            0 <= p <= pos <= e,
            e <= input@.len(),
            digit_run_end(input@, pos as int) == e,
            all_digits(input@.subrange(p, e)),
            digits_value(input@.subrange(p, e)) <= i64::MAX,
            value as int == digits_value(input@.subrange(p, pos as int)),
        decreases input@.len() - pos,
    {
        let ghost pre = input@.subrange(p, pos as int);
        let ghost next = input@.subrange(p, pos + 1);
        proof {
            lemma_digit_run(input@, pos + 1);
            assert(next.drop_last() =~= pre);
            assert(input@.subrange(p, e).subrange(0, pos + 1 - p) =~= next);
            lemma_digits_prefix_le(input@.subrange(p, e), pos + 1 - p);
        }
        value = value * 10 + (input[pos] - 48) as i64;
        pos += 1;
    }
    if negative {
        value = -value;
    }
    Some((value, pos))
}

/// End of the number text at `p`: an optional `-`, digits, optionally `.` and digits,
/// optionally `e` or `E`, an optional sign and digits.
pub open spec fn number_text_end(b: Seq<u8>, p: int) -> int {
    let p1 = if p < b.len() && b[p] == 45 { p + 1 } else { p };
    let p2 = digits_end(b, p1);
    let p3 = if p2 < b.len() && b[p2] == 46 { digits_end(b, p2 + 1) } else { p2 };
    if p3 < b.len() && (b[p3] == 101 || b[p3] == 69) {
        let q = p3 + 1;
        let q2 = if q < b.len() && (b[q] == 43 || b[q] == 45) { q + 1 } else { q };
        digits_end(b, q2)
    } else {
        p3
    }
}

/// Skip decimal digits from `pos`.
pub(crate) fn skip_digits_end(input: &[u8], pos: usize) -> (r: usize)
    requires
        pos <= input@.len(),
    ensures
        r == digits_end(input@, pos as int),
        pos <= r <= input@.len(),
{
    let n = input.len();
    let mut i = pos;
    while i < n && input[i] >= 48 && input[i] <= 57
        invariant
            pos <= i <= n,
            n == input@.len(),
            digits_end(input@, i as int) == digits_end(input@, pos as int),
        decreases n - i,
    {
        i += 1;
    }
    i
}

/// End of the number at `start`: optional `-`, digits, optional fraction, optional
/// exponent.
pub fn find_number_end(input: &[u8], start: usize) -> (r: usize)
    requires
        start <= input@.len(),
    ensures
        r == number_text_end(input@, start as int),
        start <= r <= input@.len(),
{
    let n = input.len();
    let mut pos = start;
    if pos < n && input[pos] == 45 {
        pos += 1;
    }
    pos = skip_digits_end(input, pos);
    if pos < n && input[pos] == 46 {
        pos = skip_digits_end(input, pos + 1);
    }
    if pos < n && (input[pos] == 101 || input[pos] == 69) {
        pos += 1;
        if pos < n && (input[pos] == 43 || input[pos] == 45) {
            pos += 1;
        }
        pos = skip_digits_end(input, pos);
    }
    pos
}

/// Closing quote of the string starting at `pos`: a backslash skips the next byte.
pub open spec fn string_end_from(s: Seq<u8>, pos: int) -> Option<int>
    decreases s.len() + 1 - pos,
{
    if pos < 0 || pos >= s.len() {
        None
    } else if s[pos] == 34 {
        Some(pos)
    } else if s[pos] == 92 {
        string_end_from(s, pos + 2)
    } else {
        string_end_from(s, pos + 1)
    }
}

/// The closing quote of the JSON string whose opening quote is at `start`.
pub open spec fn spec_string_end(s: Seq<u8>, start: int) -> Option<int> {
    if start < 0 || start >= s.len() || s[start] != 34 {
        None
    } else {
        string_end_from(s, start + 1)
    }
}

/// Position of the closing quote of the string that opens at `start`.
pub fn find_string_end(input: &[u8], start: usize) -> (r: Option<usize>)
    requires
        input@.len() < usize::MAX,
    ensures
        match r {
            Some(e) => spec_string_end(input@, start as int) == Some(e as int),
            None => spec_string_end(input@, start as int) is None,
        },
{
    if start >= input.len() || input[start] != 34 {
        return None;
    }
    let mut pos = start + 1;
    while pos < input.len()
        invariant
            input@.len() < usize::MAX,
            start < pos,
            start < input@.len(),
            input@[start as int] == 34,
            string_end_from(input@, start + 1) == string_end_from(input@, pos as int),
        decreases input@.len() + 1 - pos,
    {
        let b = input[pos];
        if b == 34 {
            return Some(pos);
        } else if b == 92 {
            pos += 2;
        } else {
            pos += 1;
        }
    }
    None
}

proof fn lemma_string_end_bounds(s: Seq<u8>, pos: int)
    ensures
        string_end_from(s, pos) matches Some(e) ==> pos <= e < s.len() && s[e] == 34,
    decreases s.len() + 1 - pos,
{
    if 0 <= pos < s.len() && s[pos] != 34 {
        if s[pos] == 92 {
            lemma_string_end_bounds(s, pos + 2);
        } else {
            lemma_string_end_bounds(s, pos + 1);
        }
    }
}

/// The contents of the string opening at `start`, without the quotes and with its
/// escapes processed (see `unescape`), and the position after its closing quote.
pub fn extract_string(input: &[u8], start: usize) -> (r: Option<(Vec<u8>, usize)>)
    requires
        input@.len() < usize::MAX,
    ensures
        match r {
            Some((c, next)) => spec_string_end(input@, start as int) matches Some(e)
                && c@ == unescape(input@.subrange(start + 1, e)) && next == e + 1,
            None => spec_string_end(input@, start as int) is None,
        },
{
    let end = match find_string_end(input, start) {
        Some(e) => e,
        None => {
            return None;
        },
    };
    proof {
        lemma_string_end_bounds(input@, start + 1);
    }
    Some((unescape_bytes(input, start + 1, end), end + 1))
}

/// Structural characters of JSON.
#[derive(Debug, Clone, Copy, PartialEq, Eq, Structural)]
pub enum JsonChar {
    ObjectStart,
    ObjectEnd,
    ArrayStart,
    ArrayEnd,
    Colon,
    Comma,
    Quote,
    Other,
}

/// The structural class of a byte.
pub open spec fn spec_classify(b: u8) -> JsonChar {
    if b == 123 {
        JsonChar::ObjectStart
    } else if b == 125 {
        JsonChar::ObjectEnd
    } else if b == 91 {
        JsonChar::ArrayStart
    } else if b == 93 {
        JsonChar::ArrayEnd
    } else if b == 58 {
        JsonChar::Colon
    } else if b == 44 {
        JsonChar::Comma
    } else if b == 34 {
        JsonChar::Quote
    } else {
        JsonChar::Other
    }
}

/// Classify a byte: `{` `}` `[` `]` `:` `,` `"` or other.
pub fn classify(b: u8) -> (r: JsonChar)
    ensures
        r == spec_classify(b),
{
    match b {
        123 => JsonChar::ObjectStart,
        125 => JsonChar::ObjectEnd,
        91 => JsonChar::ArrayStart,
        93 => JsonChar::ArrayEnd,
        58 => JsonChar::Colon,
        44 => JsonChar::Comma,
        34 => JsonChar::Quote,
        _ => JsonChar::Other,
    }
}

} // verus!
