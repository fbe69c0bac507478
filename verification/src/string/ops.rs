//! String operations of the runtime (the PHP string functions).

use vstd::prelude::*;
use vstd::string::{StringExecFns, StrSliceExecFns, StringSliceAdditionalSpecFns};
use vstd::std_specs::iter::IteratorSpec;
use crate::string::SmartString;
use crate::bytes::range_eq;
use crate::text::{splittable, substr};

verus! {

/// The characters of a string slice.
pub fn chars_of(s: &str) -> (r: Vec<char>)
    ensures
        r@ == s@,
{
    let mut out: Vec<char> = Vec::new();
    let mut it = s.chars();
    loop
        invariant
            out@ + it.remaining() == s@,
            it.obeys_prophetic_iter_laws(),
            it.decrease() is Some,
        ensures
            out@ == s@,
        decreases it.decrease()->0,
    {
        let ghost before = it.remaining();
        match it.next() {
            Some(c) => {
                out.push(c);
                proof {
                    assert(out@ + it.remaining() =~= s@) by {
                        assert(before.drop_first() == it.remaining());
                        assert(before[0] == c);
                        assert(s@ =~= (out@.drop_last() + before));
                    }
                }
            },
            None => {
                proof {
                    assert(out@ =~= s@);
                }
                break;
            },
        }
    }
    out
}

/// Appends a character (std's `String::push`).
#[verifier::external_body]
pub(crate) fn push_char(s: &mut String, c: char)
    ensures
        final(s)@ == old(s)@.push(c),
{
    s.push(c);
}

/// A string of the given characters.
pub fn string_of(cs: &[char]) -> (r: String)
    ensures
        r@ == cs@,
{
    let mut out = String::new();
    let n = cs.len();
    let mut i: usize = 0;
    while i < n
        invariant
            n == cs@.len(),
            0 <= i <= n,
            out@ == cs@.subrange(0, i as int),
        decreases n - i,
    {
        push_char(&mut out, cs[i]);
        proof {
            assert(out@ =~= cs@.subrange(0, i + 1));
        }
        i = i + 1;
    }
    proof {
        assert(cs@.subrange(0, n as int) =~= cs@);
    }
    out
}

/// `n` occurs in `h` at byte `i`.
pub open spec fn occurs_at(h: Seq<u8>, n: Seq<u8>, i: int) -> bool {
    0 <= i && i + n.len() <= h.len() && h.subrange(i, i + n.len()) == n
}

/// `i` is the first byte where `n` occurs in `h`.
pub open spec fn first_occurrence(h: Seq<u8>, n: Seq<u8>, i: int) -> bool {
    occurs_at(h, n, i) && forall|j: int| 0 <= j < i ==> !occurs_at(h, n, j)
}

/// Length in bytes (PHP `strlen`).
pub fn rt_strlen(s: &SmartString) -> (r: i64)
    ensures
        r == s.spec_bytes().len() as i64,
{
    s.len() as i64
}

/// Byte offset of the first occurrence of `needle` in `haystack` (PHP `strpos`): 0 for
/// an empty needle, -1 when there is none.
pub fn rt_strpos(haystack: &SmartString, needle: &SmartString) -> (r: i64)
    requires
        haystack.spec_bytes().len() <= i64::MAX,
    ensures
        needle.spec_bytes().len() == 0 ==> r == 0,
        needle.spec_bytes().len() > 0 ==> {
            &&& (r == -1) == (forall|i: int| !occurs_at(haystack.spec_bytes(), needle.spec_bytes(), i))
            &&& r != -1 ==> first_occurrence(haystack.spec_bytes(), needle.spec_bytes(), r as int)
        },
{
    if needle.is_empty() {
        return 0;
    }
    let h = haystack.as_bytes();
    let n = needle.as_bytes();
    proof {
        if n@.len() == 0 {
            lemma_empty_bytes_view(needle);
        }
    }
    if h.len() < n.len() {
        proof {
            assert forall|i: int| !occurs_at(h@, n@, i) by {}
        }
        return -1;
    }
    let hl = h.len();
    let last = hl - n.len();
    let mut i: usize = 0;
    while i <= last
        invariant
            hl == h@.len(),
            h@ == haystack.spec_bytes(),
            n@ == needle.spec_bytes(),
            n@.len() <= h@.len(),
            last == h@.len() - n@.len(),
            n@.len() > 0,
            h@.len() <= i64::MAX,
            0 <= i <= last + 1,
            forall|j: int| 0 <= j < i ==> !occurs_at(h@, n@, j),
        decreases last + 1 - i,
    {
        if range_eq(h, i, i + n.len(), n) {
            proof {
                assert(occurs_at(h@, n@, i as int));
                assert(first_occurrence(h@, n@, i as int));
            }
            return i as i64;
        }
        i = i + 1;
    }
    proof {
        assert forall|j: int| !occurs_at(h@, n@, j) by {
            if 0 <= j < i {
            }
        }
    }
    -1
}

proof fn lemma_empty_bytes_view(s: &SmartString)
    requires
        s.spec_bytes().len() == 0,
    ensures
        s.view().len() == 0,
{
    vstd::utf8::encode_utf8_decode_utf8(s.view());
    assert(s.spec_bytes() =~= Seq::<u8>::empty());
}

/// Whether `needle` occurs in `haystack` (PHP `str_contains`).
pub fn rt_str_contains(haystack: &SmartString, needle: &SmartString) -> (r: bool)
    requires
        haystack.spec_bytes().len() <= i64::MAX,
    ensures
        r == (needle.spec_bytes().len() == 0 || exists|i: int| occurs_at(haystack.spec_bytes(), needle.spec_bytes(), i)),
{
    let p = rt_strpos(haystack, needle);
    proof {
        if needle.spec_bytes().len() > 0 && p != -1 {
            assert(occurs_at(haystack.spec_bytes(), needle.spec_bytes(), p as int));
        }
    }
    p >= 0
}

/// Whether `haystack` starts with `needle` (PHP `str_starts_with`).
pub fn rt_str_starts_with(haystack: &SmartString, needle: &SmartString) -> (r: bool)
    ensures
        r == occurs_at(haystack.spec_bytes(), needle.spec_bytes(), 0),
{
    let h = haystack.as_bytes();
    let n = needle.as_bytes();
    if n.len() > h.len() {
        return false;
    }
    range_eq(h, 0, n.len(), n)
}

/// Whether `haystack` ends with `needle` (PHP `str_ends_with`).
pub fn rt_str_ends_with(haystack: &SmartString, needle: &SmartString) -> (r: bool)
    ensures
        r == (needle.spec_bytes().len() <= haystack.spec_bytes().len() && occurs_at(
            haystack.spec_bytes(),
            needle.spec_bytes(),
            haystack.spec_bytes().len() - needle.spec_bytes().len(),
        )),
{
    let h = haystack.as_bytes();
    let n = needle.as_bytes();
    if n.len() > h.len() {
        return false;
    }
    range_eq(h, h.len() - n.len(), h.len(), n)
}

/// Where `substr` starts: a negative start counts from the end (clamped at 0), a
/// positive one is clamped at the length.
pub open spec fn substr_start(len: int, start: int) -> int {
    if start < 0 {
        if len + start < 0 { 0 } else { len + start }
    } else {
        if start < len { start } else { len }
    }
}

/// How many bytes `substr` takes from `from`: a negative length stops that many bytes
/// before the end, `i64::MAX` takes the rest, any other length is clamped to the rest.
pub open spec fn substr_count(len: int, from: int, length: int) -> int {
    if length < 0 {
        if len + length <= from { 0 } else { len + length - from }
    } else if length == i64::MAX {
        len - from
    } else {
        if length < len - from { length } else { len - from }
    }
}

/// The bytes `substr` takes do not split a character.
pub open spec fn substr_ok(b: Seq<u8>, start: int, length: int) -> bool {
    let from = substr_start(b.len() as int, start);
    let count = substr_count(b.len() as int, from, length);
    b.len() > 0 ==> (count > 0 ==> splittable(b, from) && splittable(b, from + count))
}

/// Part of a string by byte positions (PHP `substr`).
pub fn rt_substr(s: &SmartString, start: i64, length: i64) -> (r: SmartString)
    requires
        s.spec_bytes().len() <= i64::MAX,
        substr_ok(s.spec_bytes(), start as int, length as int),
    ensures
        ({
            let b = s.spec_bytes();
            let from = substr_start(b.len() as int, start as int);
            let count = substr_count(b.len() as int, from, length as int);
            r.spec_bytes() == if b.len() == 0 || count <= 0 { Seq::<u8>::empty() } else { b.subrange(from, from + count) }
        }),
{
    let len = s.len();
    let str_len = len as i64;
    if str_len == 0 {
        let r = SmartString::new();
        return r;
    }
    let actual_start: usize = if start < 0 {
        if str_len + start < 0 { 0 } else { (str_len + start) as usize }
    } else {
        if start < str_len { start as usize } else { len }
    };
    let rest = len - actual_start;
    let actual_len: usize = if length < 0 {
        let end = str_len + length;
        if end <= actual_start as i64 { 0 } else { end as usize - actual_start }
    } else if length == i64::MAX {
        rest
    } else {
        if length < rest as i64 { length as usize } else { rest }
    };
    proof {
        let b = s.spec_bytes();
        assert(len == b.len());
        assert(actual_start as int == substr_start(b.len() as int, start as int));
        assert(actual_len as int == substr_count(b.len() as int, actual_start as int, length as int));
    }
    if actual_len == 0 {
        let r = SmartString::new();
        return r;
    }
    let text = s.as_str();
    proof {
        assert(text.spec_bytes() == s.spec_bytes());
    }
    let part = substr(text, actual_start, actual_start + actual_len);
    let r = SmartString::from_str(part);
    proof {
        assert(r.spec_bytes() == part.spec_bytes());
    }
    r
}

/// Where `char_at` reads: a negative index counts from the end.
pub open spec fn char_at_pos(len: int, index: int) -> int {
    if index < 0 { len + index } else { index }
}

/// The byte at a position, as a one-byte string (PHP `$s[$i]`); empty out of range. The
/// byte read must be a whole character.
pub fn rt_char_at(s: &SmartString, index: i64) -> (r: SmartString)
    requires
        s.spec_bytes().len() <= i64::MAX,
        ({
            let b = s.spec_bytes();
            let pos = char_at_pos(b.len() as int, index as int);
            0 <= pos < b.len() ==> splittable(b, pos) && splittable(b, pos + 1)
        }),
    ensures
        ({
            let b = s.spec_bytes();
            let pos = char_at_pos(b.len() as int, index as int);
            r.spec_bytes() == if 0 <= pos < b.len() { b.subrange(pos, pos + 1) } else { Seq::<u8>::empty() }
        }),
{
    let len = s.len();
    let slen = len as i64;
    let pos: i64 = if index < 0 { slen + index } else { index };
    if pos < 0 || pos >= slen {
        return SmartString::new();
    }
    let text = s.as_str();
    let at = pos as usize;
    let part = substr(text, at, at + 1);
    SmartString::from_str(part)
}

/// The first byte, or 0 for an empty string (PHP `ord`).
pub fn rt_ord(s: &SmartString) -> (r: i64)
    ensures
        r == if s.spec_bytes().len() > 0 { s.spec_bytes()[0] as i64 } else { 0 },
{
    let b = s.as_bytes();
    if b.len() > 0 { b[0] as i64 } else { 0 }
}

/// The one-character string of an ASCII code (PHP `chr`): the code is taken modulo 256,
/// and must then be ASCII.
pub fn rt_chr(code: i64) -> (r: SmartString)
    requires
        code & 0xFF < 128,
    ensures
        r.spec_bytes() == seq![(code & 0xFF) as u8],
{
    let byte = (code & 0xFF) as u8;
    proof {
        assert((code & 0xFF) < 128 ==> ((code & 0xFF) as u8) < 128 && ((code & 0xFF) as u8) as i64 == (code & 0xFF)) by (bit_vector);
    }
    let c = byte as char;
    let mut text = String::new();
    push_char(&mut text, c);
    let r = SmartString::from_str(text.as_str());
    proof {
        let cs = seq![c];
        assert(r.view() == cs);
        assert(c as u32 == byte as u32);
        assert('\0' <= cs[0] <= '\u{7f}');
        assert(vstd::utf8::is_ascii_chars(cs));
        vstd::utf8::is_ascii_chars_encode_utf8(cs);
        assert(r.spec_bytes() =~= seq![byte]);
    }
    r
}

/// `s` repeated `n` times.
pub open spec fn repeated(s: Seq<char>, n: nat) -> Seq<char>
    decreases n,
{
    if n == 0 { Seq::empty() } else { repeated(s, (n - 1) as nat) + s }
}

/// The string repeated `count` times, empty for a count of zero or less (PHP
/// `str_repeat`).
pub fn rt_str_repeat(s: &SmartString, count: i64) -> (r: SmartString)
    requires
        count > 0 && s.spec_bytes().len() > 0 ==> count * s.spec_bytes().len() <= usize::MAX,
    ensures
        r.view() == if count <= 0 { Seq::<char>::empty() } else { repeated(s.view(), count as nat) },
{
    if count <= 0 || s.is_empty() {
        proof {
            if count > 0 {
                lemma_repeated_empty(s.view(), count as nat);
            }
        }
        return SmartString::new();
    }
    let text = s.as_str();
    let mut out = String::new();
    let mut i: i64 = 0;
    while i < count
        invariant
            0 <= i <= count,
            text@ == s.view(),
            out@ == repeated(s.view(), i as nat),
        decreases count - i,
    {
        out.append(text);
        i = i + 1;
    }
    SmartString::from_str(out.as_str())
}

proof fn lemma_repeated_empty(s: Seq<char>, n: nat)
    requires
        s.len() == 0,
    ensures
        repeated(s, n) == s,
    decreases n,
{
    if n > 0 {
        lemma_repeated_empty(s, (n - 1) as nat);
        assert(repeated(s, (n - 1) as nat) + s =~= s);
    }
}

/// The characters of each string.
pub open spec fn views(ps: Seq<SmartString>) -> Seq<Seq<char>> {
    Seq::new(ps.len(), |i: int| ps[i].view())
}

/// The strings joined with `glue` between them.
pub open spec fn joined(ps: Seq<Seq<char>>, glue: Seq<char>) -> Seq<char>
    decreases ps.len(),
{
    if ps.len() == 0 {
        Seq::empty()
    } else if ps.len() == 1 {
        ps[0]
    } else {
        joined(ps.drop_last(), glue) + glue + ps.last()
    }
}

/// The parts joined with `glue` between them (PHP `implode`).
pub fn rt_implode(glue: &SmartString, parts: &[SmartString]) -> (r: SmartString)
    ensures
        r.view() == joined(views(parts@), glue.view()),
{
    if parts.len() == 0 {
        return SmartString::new();
    }
    let glue_str = glue.as_str();
    let mut result = String::new();
    let n = parts.len();
    let mut i: usize = 0;
    while i < n
        invariant
            n == parts@.len(),
            0 <= i <= n,
            glue_str@ == glue.view(),
            result@ == joined(views(parts@.subrange(0, i as int)), glue.view()),
        decreases n - i,
    {
        if i > 0 {
            result.append(glue_str);
        }
        result.append(parts[i].as_str());
        proof {
            let pre = views(parts@.subrange(0, i as int));
            let next = views(parts@.subrange(0, i + 1));
            assert(next.drop_last() =~= pre);
            assert(next.last() == parts@[i as int].view());
            if i == 0 {
                assert(pre =~= Seq::<Seq<char>>::empty());
            }
        }
        i = i + 1;
    }
    proof {
        assert(parts@.subrange(0, n as int) =~= parts@);
    }
    SmartString::from_str(result.as_str())
}

/// The characters in reverse order (PHP `strrev`).
pub fn rt_strrev(s: &SmartString) -> (r: SmartString)
    ensures
        r.view() == s.view().reverse(),
{
    let cs = chars_of(s.as_str());
    let n = cs.len();
    let mut rev: Vec<char> = Vec::new();
    let mut i: usize = n;
    while i > 0
        invariant
            n == cs@.len(),
            0 <= i <= n,
            rev@ == cs@.subrange(i as int, n as int).reverse(),
        decreases i,
    {
        i = i - 1;
        rev.push(cs[i]);
        proof {
            assert(rev@ =~= cs@.subrange(i as int, n as int).reverse());
        }
    }
    proof {
        assert(cs@.subrange(0, n as int) =~= cs@);
    }
    let text = string_of(rev.as_slice());
    SmartString::from_str(text.as_str())
}

/// `s` with every occurrence of `p` replaced by `rep`, left to right, matches not
/// overlapping (`p` non-empty).
pub open spec fn replaced(s: Seq<char>, p: Seq<char>, rep: Seq<char>) -> Seq<char>
    decreases s.len(),
{
    if p.len() == 0 || s.len() < p.len() {
        s
    } else if s.subrange(0, p.len() as int) == p {
        rep + replaced(s.subrange(p.len() as int, s.len() as int), p, rep)
    } else {
        seq![s[0]] + replaced(s.subrange(1, s.len() as int), p, rep)
    }
}

/// Whether `b` occurs in `a` at `i`.
fn chars_at(a: &[char], i: usize, b: &[char]) -> (r: bool)
    requires
        i <= a@.len(),
    ensures
        r == (i + b@.len() <= a@.len() && a@.subrange(i as int, i + b@.len()) == b@),
{
    if b.len() > a.len() - i {
        return false;
    }
    let n = b.len();
    let al = a.len();
    let mut k: usize = 0;
    while k < n
        invariant
            n == b@.len(),
            al == a@.len(),
            i + n <= a@.len(),
            0 <= k <= n,
            forall|j: int| 0 <= j < k ==> a@[i + j] == b@[j],
        decreases n - k,
    {
        if a[i + k] != b[k] {
            proof {
                assert(a@.subrange(i as int, i + n)[k as int] != b@[k as int]);
            }
            return false;
        }
        k = k + 1;
    }
    proof {
        assert(a@.subrange(i as int, i + n) =~= b@);
    }
    true
}

/// Appends all of `b` to `out`.
fn extend_chars(out: &mut Vec<char>, b: &[char])
    ensures
        final(out)@ == old(out)@ + b@,
{
    let n = b.len();
    let mut k: usize = 0;
    while k < n
        invariant
            n == b@.len(),
            0 <= k <= n,
            out@ == old(out)@ + b@.subrange(0, k as int),
        decreases n - k,
    {
        out.push(b[k]);
        proof {
            assert(out@ =~= old(out)@ + b@.subrange(0, k + 1));
        }
        k = k + 1;
    }
    proof {
        assert(b@.subrange(0, n as int) =~= b@);
    }
}

/// Replaces every occurrence of `search` in `subject` by `replace` (PHP `str_replace`);
/// an empty `search` changes nothing.
pub fn rt_str_replace(search: &SmartString, replace: &SmartString, subject: &SmartString) -> (r: SmartString)
    ensures
        r.view() == replaced(subject.view(), search.view(), replace.view()),
{
    if search.is_empty() || subject.is_empty() {
        return subject.clone();
    }
    let sc = chars_of(subject.as_str());
    let pc = chars_of(search.as_str());
    let rc = chars_of(replace.as_str());
    let ghost sv = sc@;
    let ghost pv = pc@;
    let ghost rv = rc@;
    let n = sc.len();
    let mut out: Vec<char> = Vec::new();
    let mut i: usize = 0;
    proof {
        assert(sv.subrange(0, n as int) =~= sv);
    }
    while i < n
        invariant
            n == sv.len(),
            sv == sc@,
            pv == pc@,
            rv == rc@,
            pv.len() > 0,
            0 <= i <= n,
            out@ + replaced(sv.subrange(i as int, n as int), pv, rv) == replaced(sv, pv, rv),
        decreases n - i,
    {
        let ghost rest = sv.subrange(i as int, n as int);
        if chars_at(sc.as_slice(), i, pc.as_slice()) {
            proof {
                assert(rest.subrange(0, pv.len() as int) =~= sv.subrange(i as int, i + pv.len()));
                assert(rest.subrange(pv.len() as int, rest.len() as int) =~= sv.subrange(i + pv.len(), n as int));
            }
            extend_chars(&mut out, rc.as_slice());
            i = i + pc.len();
            proof {
                assert(out@ + replaced(sv.subrange(i as int, n as int), pv, rv) =~= replaced(sv, pv, rv));
            }
        } else {
            proof {
                if rest.len() >= pv.len() {
                    assert(rest.subrange(0, pv.len() as int) =~= sv.subrange(i as int, i + pv.len()));
                }
                assert(rest.subrange(1, rest.len() as int) =~= sv.subrange(i + 1, n as int));
                if rest.len() < pv.len() {
                    assert(replaced(rest, pv, rv) == rest);
                    lemma_replaced_short(sv.subrange(i + 1, n as int), pv, rv);
                    assert(rest =~= seq![sv[i as int]] + sv.subrange(i + 1, n as int));
                }
            }
            out.push(sc[i]);
            i = i + 1;
            proof {
                assert(out@ + replaced(sv.subrange(i as int, n as int), pv, rv) =~= replaced(sv, pv, rv));
            }
        }
    }
    proof {
        assert(sv.subrange(n as int, n as int) =~= Seq::<char>::empty());
        assert(out@ =~= replaced(sv, pv, rv));
    }
    let text = string_of(out.as_slice());
    SmartString::from_str(text.as_str())
}

proof fn lemma_replaced_short(s: Seq<char>, p: Seq<char>, rep: Seq<char>)
    requires
        s.len() < p.len(),
    ensures
        replaced(s, p, rep) == s,
{
}

/// Unicode white space (the characters std's `char::is_whitespace` accepts).
pub open spec fn is_ws(c: char) -> bool {
    let u = c as u32;
    (0x09 <= u <= 0x0D) || u == 0x20 || u == 0x85 || u == 0xA0 || u == 0x1680 || (0x2000 <= u <= 0x200A)
        || u == 0x2028 || u == 0x2029 || u == 0x202F || u == 0x205F || u == 0x3000
}

/// Whether a character is Unicode white space.
pub fn is_whitespace(c: char) -> (r: bool)
    ensures
        r == is_ws(c),
{
    let u = c as u32;
    (0x09 <= u && u <= 0x0D) || u == 0x20 || u == 0x85 || u == 0xA0 || u == 0x1680 || (0x2000 <= u && u
        <= 0x200A) || u == 0x2028 || u == 0x2029 || u == 0x202F || u == 0x205F || u == 0x3000
}

/// Number of white-space characters at the start.
pub open spec fn ws_prefix(s: Seq<char>) -> nat
    decreases s.len(),
{
    if s.len() > 0 && is_ws(s[0]) { 1 + ws_prefix(s.subrange(1, s.len() as int)) } else { 0 }
}

/// Number of white-space characters at the end.
pub open spec fn ws_suffix(s: Seq<char>) -> nat
    decreases s.len(),
{
    if s.len() > 0 && is_ws(s.last()) { 1 + ws_suffix(s.drop_last()) } else { 0 }
}

/// `s` without white space at the start.
pub open spec fn trimmed_start(s: Seq<char>) -> Seq<char> {
    s.subrange(ws_prefix(s) as int, s.len() as int)
}

/// `s` without white space at the end.
pub open spec fn trimmed_end(s: Seq<char>) -> Seq<char> {
    s.subrange(0, s.len() - ws_suffix(s))
}

proof fn lemma_ws_prefix_bound(s: Seq<char>)
    ensures
        ws_prefix(s) <= s.len(),
    decreases s.len(),
{
    if s.len() > 0 && is_ws(s[0]) {
        lemma_ws_prefix_bound(s.subrange(1, s.len() as int));
    }
}

proof fn lemma_ws_suffix_bound(s: Seq<char>)
    ensures
        ws_suffix(s) <= s.len(),
    decreases s.len(),
{
    if s.len() > 0 && is_ws(s.last()) {
        lemma_ws_suffix_bound(s.drop_last());
    }
}

proof fn lemma_ws_prefix_push(s: Seq<char>, c: char)
    ensures
        ws_prefix(s.push(c)) == if ws_prefix(s) < s.len() {
            ws_prefix(s) as int
        } else if is_ws(c) {
            s.len() + 1int
        } else {
            s.len() as int
        },
    decreases s.len(),
{
    lemma_ws_prefix_bound(s);
    let sc = s.push(c);
    if s.len() == 0 {
        assert(sc.subrange(1, sc.len() as int) =~= Seq::<char>::empty());
        assert(sc[0] == c);
        assert(ws_prefix(Seq::<char>::empty()) == 0);
        assert(ws_prefix(s) == 0);
    } else {
        assert(sc[0] == s[0]);
        if is_ws(s[0]) {
            let t = s.subrange(1, s.len() as int);
            assert(sc.subrange(1, sc.len() as int) =~= t.push(c));
            lemma_ws_prefix_push(t, c);
            assert(ws_prefix(s) == 1 + ws_prefix(t));
            assert(ws_prefix(sc) == 1 + ws_prefix(t.push(c)));
        } else {
            assert(ws_prefix(s) == 0);
            assert(ws_prefix(sc) == 0);
        }
    }
}

/// A string trimmed at both ends (PHP `trim`).
pub open spec fn trimmed(s: Seq<char>) -> Seq<char> {
    trimmed_end(trimmed_start(s))
}

/// Each character of Unicode's White_Space set, the line feed among them, is trimmed:
/// putting one before or after a string changes neither end's trimming nor the full
/// trim.
pub proof fn law_trim_white_space(s: Seq<char>, c: char)
    requires
        c == '\t' || c == '\n' || c == '\u{0B}' || c == '\u{0C}' || c == '\r' || c == ' '
            || c == '\u{85}' || c == '\u{A0}' || c == '\u{1680}' || (0x2000 <= c as u32 <= 0x200A)
            || c == '\u{2028}' || c == '\u{2029}' || c == '\u{202F}' || c == '\u{205F}'
            || c == '\u{3000}',
    ensures
        trimmed_start(seq![c] + s) == trimmed_start(s),
        trimmed_end(s.push(c)) == trimmed_end(s),
        trimmed(seq![c] + s) == trimmed(s),
        trimmed(s.push(c)) == trimmed(s),
{
    assert(is_ws(c));
    lemma_ws_prefix_bound(s);
    lemma_ws_suffix_bound(s);
    let cs = seq![c] + s;
    assert(cs[0] == c);
    assert(cs.subrange(1, cs.len() as int) =~= s);
    assert(trimmed_start(cs) =~= trimmed_start(s));
    let sc = s.push(c);
    assert(sc.drop_last() =~= s);
    assert(trimmed_end(sc) =~= trimmed_end(s));
    lemma_ws_prefix_push(s, c);
    let x = trimmed_start(s);
    if ws_prefix(s) < s.len() {
        assert(trimmed_start(sc) =~= x.push(c));
        lemma_ws_suffix_bound(x);
        assert(x.push(c).drop_last() =~= x);
        assert(trimmed_end(x.push(c)) =~= trimmed_end(x));
    } else {
        assert(trimmed_start(sc) =~= Seq::<char>::empty());
        assert(x =~= Seq::<char>::empty());
    }
}

/// An ASCII character outside tab, line feed, vertical tab, form feed, carriage return
/// and space is not trimmed: it stays at the end or start it is put at.
pub proof fn law_trim_keeps_other_ascii(s: Seq<char>, c: char)
    requires
        (c as u32) < 0x80,
        !(0x09 <= c as u32 <= 0x0D),
        c != ' ',
    ensures
        trimmed_end(s.push(c)) == s.push(c),
        trimmed_start(seq![c] + s) == seq![c] + s,
{
    let sc = s.push(c);
    assert(sc.last() == c);
    assert(sc.subrange(0, sc.len() as int) =~= sc);
    let cs = seq![c] + s;
    assert(cs[0] == c);
    assert(cs.subrange(0, cs.len() as int) =~= cs);
}

/// Index of the first character that is not white space (or the length).
fn skip_ws_start(cs: &[char]) -> (r: usize)
    ensures
        r == ws_prefix(cs@),
{
    let n = cs.len();
    let mut i: usize = 0;
    proof {
        assert(cs@.subrange(0, n as int) =~= cs@);
    }
    while i < n && is_whitespace(cs[i])
        invariant
            n == cs@.len(),
            0 <= i <= n,
            ws_prefix(cs@) == i + ws_prefix(cs@.subrange(i as int, n as int)),
        decreases n - i,
    {
        proof {
            let rest = cs@.subrange(i as int, n as int);
            assert(rest.subrange(1, rest.len() as int) =~= cs@.subrange(i + 1, n as int));
        }
        i = i + 1;
    }
    proof {
        let rest = cs@.subrange(i as int, n as int);
        if i < n {
            assert(rest[0] == cs@[i as int]);
        }
    }
    i
}

/// Index just past the last character that is not white space (or 0).
fn skip_ws_end(cs: &[char]) -> (r: usize)
    ensures
        r == cs@.len() - ws_suffix(cs@),
{
    let n = cs.len();
    let mut j: usize = n;
    proof {
        assert(cs@.subrange(0, n as int) =~= cs@);
    }
    while j > 0 && is_whitespace(cs[j - 1])
        invariant
            n == cs@.len(),
            0 <= j <= n,
            ws_suffix(cs@) == (n - j) + ws_suffix(cs@.subrange(0, j as int)),
        decreases j,
    {
        proof {
            let pre = cs@.subrange(0, j as int);
            assert(pre.drop_last() =~= cs@.subrange(0, j - 1));
        }
        j = j - 1;
    }
    proof {
        let pre = cs@.subrange(0, j as int);
        if j > 0 {
            assert(pre.last() == cs@[j - 1]);
        }
    }
    j
}

/// The string without white space at both ends (PHP `trim`).
pub fn rt_trim(s: &SmartString) -> (r: SmartString)
    ensures
        r.view() == trimmed_end(trimmed_start(s.view())),
{
    let cs = chars_of(s.as_str());
    let a = skip_ws_start(cs.as_slice());
    proof {
        lemma_ws_prefix_bound(cs@);
    }
    let rest = vstd::slice::slice_subrange(cs.as_slice(), a, cs.len());
    let b = skip_ws_end(rest);
    proof {
        lemma_ws_suffix_bound(rest@);
    }
    let part = vstd::slice::slice_subrange(rest, 0, b);
    let text = string_of(part);
    SmartString::from_str(text.as_str())
}

/// The string without white space at the start (PHP `ltrim`).
pub fn rt_ltrim(s: &SmartString) -> (r: SmartString)
    ensures
        r.view() == trimmed_start(s.view()),
{
    let cs = chars_of(s.as_str());
    let a = skip_ws_start(cs.as_slice());
    proof {
        lemma_ws_prefix_bound(cs@);
    }
    let part = vstd::slice::slice_subrange(cs.as_slice(), a, cs.len());
    let text = string_of(part);
    SmartString::from_str(text.as_str())
}

/// The string without white space at the end (PHP `rtrim`).
pub fn rt_rtrim(s: &SmartString) -> (r: SmartString)
    ensures
        r.view() == trimmed_end(s.view()),
{
    let cs = chars_of(s.as_str());
    let b = skip_ws_end(cs.as_slice());
    proof {
        lemma_ws_suffix_bound(cs@);
    }
    let part = vstd::slice::slice_subrange(cs.as_slice(), 0, b);
    let text = string_of(part);
    SmartString::from_str(text.as_str())
}

/// The lower-case form of a string, as std's `str::to_lowercase` computes it by the
/// Unicode case mappings.
pub uninterp spec fn lowercase(s: Seq<char>) -> Seq<char>;

/// The upper-case form of a string, as std's `str::to_uppercase` computes it by the
/// Unicode case mappings.
pub uninterp spec fn uppercase(s: Seq<char>) -> Seq<char>;

/// std's `str::to_lowercase`: the result is named, as a function of the string alone.
#[verifier::external_body]
fn str_to_lowercase(s: &str) -> (r: String)
    ensures
        r@ == lowercase(s@),
{
    s.to_lowercase()
}

/// std's `str::to_uppercase`: the result is named, as a function of the string alone.
#[verifier::external_body]
fn str_to_uppercase(s: &str) -> (r: String)
    ensures
        r@ == uppercase(s@),
{
    s.to_uppercase()
}

/// The string in lower case (PHP `strtolower`).
pub fn rt_strtolower(s: &SmartString) -> (r: SmartString)
    ensures
        r.view() == lowercase(s.view()),
{
    let lower = str_to_lowercase(s.as_str());
    SmartString::from_str(lower.as_str())
}

/// The string in upper case (PHP `strtoupper`).
pub fn rt_strtoupper(s: &SmartString) -> (r: SmartString)
    ensures
        r.view() == uppercase(s.view()),
{
    let upper = str_to_uppercase(s.as_str());
    SmartString::from_str(upper.as_str())
}

/// The first `n` characters of `p` repeated without end (`p` non-empty).
pub open spec fn cycle_take(p: Seq<char>, n: int) -> Seq<char> {
    Seq::new(n as nat, |i: int| p[i % p.len() as int])
}

/// The padding of PHP `str_pad`: to reach `target` bytes from `cur` bytes, `target - cur`
/// characters of the pad string repeated, put right (any type but 1 and 2), left (1), or
/// split in two halves, the larger one right (2).
pub open spec fn padded(s: Seq<char>, cur: int, target: int, p: Seq<char>, pad_type: i64) -> Seq<char> {
    if target <= cur || p.len() == 0 {
        s
    } else {
        let n = target - cur;
        if pad_type == 1 {
            cycle_take(p, n) + s
        } else if pad_type == 2 {
            cycle_take(p, n / 2) + s + cycle_take(p, n - n / 2)
        } else {
            s + cycle_take(p, n)
        }
    }
}

/// `n` characters of `p` repeated without end.
fn cycle_chars(p: &[char], n: usize) -> (r: Vec<char>)
    requires
        p@.len() > 0,
    ensures
        r@ == cycle_take(p@, n as int),
{
    let m = p.len();
    let mut out: Vec<char> = Vec::new();
    let mut i: usize = 0;
    while i < n
        invariant
            m == p@.len(),
            m > 0,
            0 <= i <= n,
            out@ == cycle_take(p@, i as int),
        decreases n - i,
    {
        out.push(p[i % m]);
        proof {
            assert(out@ =~= cycle_take(p@, i + 1));
        }
        i = i + 1;
    }
    out
}

/// The string padded to `length` bytes with the pad string (PHP `str_pad`): right for
/// `pad_type` 0 and any other value, left for 1, both sides for 2. Nothing changes when
/// the string is long enough or the pad string is empty.
pub fn rt_str_pad(s: &SmartString, length: i64, pad_string: &SmartString, pad_type: i64) -> (r: SmartString)
    requires
        length < 0 ==> pad_string.view().len() == 0,
    ensures
        r.view() == padded(s.view(), s.spec_bytes().len() as int, (length as usize) as int, pad_string.view(), pad_type),
{
    let current_len = s.len();
    let target_len = length as usize;
    if target_len <= current_len || pad_string.is_empty() {
        return s.clone();
    }
    let pad_len = target_len - current_len;
    let pc = chars_of(pad_string.as_str());
    let sc = chars_of(s.as_str());
    let mut out: Vec<char> = Vec::new();
    if pad_type == 1 {
        let padding = cycle_chars(pc.as_slice(), pad_len);
        extend_chars(&mut out, padding.as_slice());
        extend_chars(&mut out, sc.as_slice());
    } else if pad_type == 2 {
        let left_pad = pad_len / 2;
        let right_pad = pad_len - left_pad;
        let left = cycle_chars(pc.as_slice(), left_pad);
        let right = cycle_chars(pc.as_slice(), right_pad);
        extend_chars(&mut out, left.as_slice());
        extend_chars(&mut out, sc.as_slice());
        extend_chars(&mut out, right.as_slice());
    } else {
        let padding = cycle_chars(pc.as_slice(), pad_len);
        extend_chars(&mut out, sc.as_slice());
        extend_chars(&mut out, padding.as_slice());
    }
    proof {
        assert(out@ =~= padded(s.view(), current_len as int, target_len as int, pad_string.view(), pad_type));
    }
    let text = string_of(out.as_slice());
    SmartString::from_str(text.as_str())
}

/// `p` occurs in `s` at `j`.
pub open spec fn chars_occur(s: Seq<char>, p: Seq<char>, j: int) -> bool {
    0 <= j && j + p.len() <= s.len() && s.subrange(j, j + p.len()) == p
}

/// `i` is the first position where `p` occurs in `s`.
pub open spec fn first_match(s: Seq<char>, p: Seq<char>, i: int) -> bool {
    &&& 0 <= i && i + p.len() <= s.len()
    &&& chars_occur(s, p, i)
    &&& forall|j: int| 0 <= j < i ==> !#[trigger] chars_occur(s, p, j)
}

/// `p` occurs in `s`.
pub open spec fn has_match(s: Seq<char>, p: Seq<char>) -> bool {
    exists|i: int| first_match(s, p, i)
}

/// Where `p` first occurs in `s` (meaningful when it does).
pub open spec fn match_at(s: Seq<char>, p: Seq<char>) -> int {
    choose|i: int| first_match(s, p, i)
}

/// The pieces of `s` between occurrences of the non-empty `p`, taking at most `limit`
/// pieces when `limit` is `Some` (the last piece is then the rest of `s`).
pub open spec fn split_pieces(s: Seq<char>, p: Seq<char>, limit: Option<nat>) -> Seq<Seq<char>>
    decreases s.len(), (match limit { Some(n) => n, None => 0 }),
{
    if p.len() == 0 {
        Seq::empty()
    } else if limit == Some(0nat) {
        Seq::empty()
    } else if limit == Some(1nat) || !has_match(s, p) {
        seq![s]
    } else {
        let i = match_at(s, p);
        let rest_limit = match limit {
            Some(n) => Some((n - 1) as nat),
            None => None,
        };
        if 0 <= i && i + p.len() <= s.len() {
            seq![s.subrange(0, i)] + split_pieces(s.subrange(i + p.len(), s.len() as int), p, rest_limit)
        } else {
            Seq::empty()
        }
    }
}

/// The pieces std's `split("")` gives: an empty piece, each character, an empty piece;
/// with at most `limit` pieces, the last one is the rest of `s`.
pub open spec fn split_empty_pieces(s: Seq<char>, limit: Option<nat>) -> Seq<Seq<char>> {
    let all = seq![Seq::<char>::empty()] + Seq::new(s.len(), |i: int| seq![s[i]]) + seq![Seq::<char>::empty()];
    match limit {
        None => all,
        Some(n) => if n == 0 {
            Seq::empty()
        } else if n >= all.len() {
            all
        } else if n == 1 {
            seq![s]
        } else {
            all.subrange(0, n - 1).push(s.subrange(n - 2, s.len() as int))
        },
    }
}

/// The pieces of `explode`: split at every occurrence of the delimiter, or into at most
/// `limit` pieces for a positive limit.
pub open spec fn exploded(delim: Seq<char>, s: Seq<char>, limit: i64) -> Seq<Seq<char>> {
    let lim = if limit <= 0 { None } else { Some((limit as usize) as nat) };
    if delim.len() == 0 { split_empty_pieces(s, lim) } else { split_pieces(s, delim, lim) }
}

proof fn lemma_joined_cons(a: Seq<char>, ps: Seq<Seq<char>>, g: Seq<char>)
    requires
        ps.len() > 0,
    ensures
        joined(seq![a] + ps, g) == a + g + joined(ps, g),
    decreases ps.len(),
{
    let t = seq![a] + ps;
    if ps.len() == 1 {
        assert(t.drop_last() =~= seq![a]);
        assert(t.last() == ps[0]);
        assert(joined(seq![a], g) == a);
        assert(joined(ps, g) == ps[0]);
    } else {
        lemma_joined_cons(a, ps.drop_last(), g);
        assert(t.drop_last() =~= seq![a] + ps.drop_last());
        assert(t.last() == ps.last());
        assert(joined(t, g) =~= a + g + joined(ps, g));
    }
}

/// Joining the pieces of a split at a non-empty separator with that separator gives the
/// string back.
proof fn lemma_split_joined(s: Seq<char>, p: Seq<char>, limit: Option<nat>)
    requires
        p.len() > 0,
        limit != Some(0nat),
    ensures
        split_pieces(s, p, limit).len() > 0,
        joined(split_pieces(s, p, limit), p) == s,
    decreases s.len(), (match limit { Some(n) => n, None => 0 }),
{
    if !(limit == Some(1nat) || !has_match(s, p)) {
        let i = match_at(s, p);
        assert(first_match(s, p, i));
        let rest = s.subrange(i + p.len(), s.len() as int);
        let rest_limit = match limit {
            Some(n) => Some((n - 1) as nat),
            None => None,
        };
        lemma_split_joined(rest, p, rest_limit);
        lemma_joined_cons(s.subrange(0, i), split_pieces(rest, p, rest_limit), p);
        assert(s.subrange(i, i + p.len()) == p);
        assert(s.subrange(0, i) + p + rest =~= s);
    }
}

/// The first `m` pieces of a split at the empty separator, joined, are the first `m - 1`
/// characters.
proof fn lemma_split_empty_prefix(s: Seq<char>, m: int)
    requires
        1 <= m <= s.len() + 1,
    ensures
        joined(
            (seq![Seq::<char>::empty()] + Seq::new(s.len(), |i: int| seq![s[i]]) + seq![Seq::<char>::empty()]).subrange(0, m),
            Seq::<char>::empty(),
        ) == s.subrange(0, m - 1),
    decreases m,
{
    let all = seq![Seq::<char>::empty()] + Seq::new(s.len(), |i: int| seq![s[i]]) + seq![Seq::<char>::empty()];
    let e = Seq::<char>::empty();
    if m == 1 {
        assert(all.subrange(0, 1) =~= seq![e]);
        assert(s.subrange(0, 0) =~= e);
    } else {
        lemma_split_empty_prefix(s, m - 1);
        assert(all.subrange(0, m).drop_last() =~= all.subrange(0, m - 1));
        assert(all.subrange(0, m).last() == seq![s[m - 2]]);
        assert(s.subrange(0, m - 2) + e + seq![s[m - 2]] =~= s.subrange(0, m - 1));
    }
}

/// Joining the pieces of `explode` with its delimiter gives the string back (PHP
/// `implode` undoes `explode`), for every limit that a `usize` holds.
pub proof fn law_implode_explode(delim: Seq<char>, s: Seq<char>, limit: i64)
    requires
        limit <= 0 || #[verifier::truncate] (limit as usize) > 0,
    ensures
        joined(exploded(delim, s, limit), delim) == s,
{
    let lim: Option<nat> = if limit <= 0 { None } else { Some((limit as usize) as nat) };
    if delim.len() == 0 {
        let e = Seq::<char>::empty();
        assert(delim =~= e);
        let all = seq![e] + Seq::new(s.len(), |i: int| seq![s[i]]) + seq![e];
        assert(exploded(delim, s, limit) == split_empty_pieces(s, lim));
        lemma_split_empty_prefix(s, s.len() + 1int);
        assert(all.subrange(0, s.len() + 1int) =~= all.drop_last());
        assert(s.subrange(0, s.len() as int) =~= s);
        assert(joined(all, e) =~= s);
        match lim {
            None => {},
            Some(n) => {
                if n >= all.len() {
                } else if n == 1 {
                    assert(joined(seq![s], e) == s);
                } else {
                    let t = all.subrange(0, n - 1).push(s.subrange(n - 2, s.len() as int));
                    lemma_split_empty_prefix(s, n - 1);
                    assert(t.drop_last() =~= all.subrange(0, n - 1));
                    assert(s.subrange(0, n - 2) + e + s.subrange(n - 2, s.len() as int) =~= s);
                    assert(joined(t, e) == joined(t.drop_last(), e) + e + t.last());
                    assert(exploded(delim, s, limit) == t);
                }
            },
        }
    } else {
        lemma_split_joined(s, delim, lim);
        assert(exploded(delim, s, limit) == split_pieces(s, delim, lim));
    }
}

/// The first occurrence of `p` in `cs` at or after `from`, if any.
fn find_chars(cs: &[char], from: usize, p: &[char]) -> (r: Option<usize>)
    requires
        from <= cs@.len(),
        p@.len() > 0,
    ensures
        match r {
            Some(i) => from <= i && first_match(cs@.subrange(from as int, cs@.len() as int), p@, i - from),
            None => !has_match(cs@.subrange(from as int, cs@.len() as int), p@),
        },
{
    let n = cs.len();
    let ghost rest = cs@.subrange(from as int, n as int);
    let mut i = from;
    while i < n
        invariant
            n == cs@.len(),
            from <= i <= n,
            p@.len() > 0,
            rest == cs@.subrange(from as int, n as int),
            forall|j: int| 0 <= j < i - from ==> !#[trigger] chars_occur(rest, p@, j),
        decreases n - i,
    {
        if chars_at(cs, i, p) {
            proof {
                assert(rest.subrange(i - from, i - from + p@.len()) =~= cs@.subrange(i as int, i + p@.len()));
            }
            return Some(i);
        }
        proof {
            if i - from + p@.len() <= rest.len() {
                assert(rest.subrange(i - from, i - from + p@.len()) =~= cs@.subrange(i as int, i + p@.len()));
            }
        }
        i = i + 1;
    }
    proof {
        if has_match(rest, p@) {
            let k = choose|k: int| first_match(rest, p@, k);
            assert(k < n - from);
        }
    }
    None
}

proof fn lemma_first_match_unique(s: Seq<char>, p: Seq<char>, i: int)
    requires
        first_match(s, p, i),
    ensures
        has_match(s, p),
        match_at(s, p) == i,
{
    let k = match_at(s, p);
    assert(first_match(s, p, k));
    if k < i {
        assert(!chars_occur(s, p, k));
    } else if k > i {
        assert(!chars_occur(s, p, i));
    }
}

/// The string split at every occurrence of `delimiter` (PHP `explode`), into at most
/// `limit` pieces when `limit` is positive (the last piece then holds the rest). An empty
/// delimiter splits before and after every character.
pub fn rt_explode(delimiter: &SmartString, string: &SmartString, limit: i64) -> (r: Vec<SmartString>)
    ensures
        views(r@) == exploded(delimiter.view(), string.view(), limit),
{
    let sc = chars_of(string.as_str());
    let dc = chars_of(delimiter.as_str());
    let ghost sv = sc@;
    let ghost lim: Option<nat> = if limit <= 0 { None } else { Some((limit as usize) as nat) };
    let mut out: Vec<SmartString> = Vec::new();
    let n = sc.len();
    if dc.len() == 0 {
        let max_pieces: usize = if limit <= 0 { 0 } else { limit as usize };
        let ghost all = seq![Seq::<char>::empty()] + Seq::new(sv.len(), |i: int| seq![sv[i]]) + seq![Seq::<char>::empty()];
        if limit > 0 && max_pieces == 0 {
            proof {
                assert(views(out@) =~= Seq::<Seq<char>>::empty());
            }
            return out;
        }
        if limit > 0 && max_pieces == 1 {
            out.push(SmartString::from_str(string.as_str()));
            proof {
                assert(views(out@) =~= seq![sv]);
            }
            return out;
        }
        // an empty piece, then single characters, then the rest
        let whole = limit <= 0 || max_pieces - 2 >= n;
        let m: usize = if whole { n } else { max_pieces - 2 };
        out.push(SmartString::new());
        proof {
            assert(views(out@) =~= all.subrange(0, 1));
        }
        let mut k: usize = 0;
        while k < m
            invariant
                n == sv.len(),
                sv == sc@,
                m <= n,
                0 <= k <= m,
                all == seq![Seq::<char>::empty()] + Seq::new(sv.len(), |i: int| seq![sv[i]]) + seq![Seq::<char>::empty()],
                out@.len() == k + 1,
                views(out@) == all.subrange(0, k + 1),
            decreases m - k,
        {
            let one = vstd::slice::slice_subrange(sc.as_slice(), k, k + 1);
            let text = string_of(one);
            let piece = SmartString::from_str(text.as_str());
            let ghost before = out@;
            let ghost pv = piece.view();
            proof {
                assert(all[k + 1] =~= seq![sv[k as int]]);
                assert(pv =~= seq![sv[k as int]]);
            }
            out.push(piece);
            proof {
                assert(out@ == before.push(piece));
                assert forall|j: int| 0 <= j < k + 2 implies #[trigger] views(out@)[j] == all.subrange(0, k + 2)[j] by {
                    if j < k + 1 {
                        assert(out@[j] == before[j]);
                        assert(views(before)[j] == all.subrange(0, k + 1)[j]);
                    } else {
                        assert(out@[j].view() == pv);
                    }
                }
                assert(views(out@) =~= all.subrange(0, k + 2));
            }
            k = k + 1;
        }
        let tail = vstd::slice::slice_subrange(sc.as_slice(), m, n);
        let text = string_of(tail);
        let last = SmartString::from_str(text.as_str());
        let ghost lv = last.view();
        let ghost before = out@;
        out.push(last);
        proof {
            let want = if whole { all } else { all.subrange(0, m + 1).push(sv.subrange(m as int, n as int)) };
            if whole {
                assert(lv =~= Seq::<char>::empty());
            }
            assert(want.len() == m + 2);
            assert forall|j: int| 0 <= j < want.len() implies #[trigger] views(out@)[j] == want[j] by {
                if j < m + 1 {
                    assert(out@[j] == before[j]);
                    assert(views(before)[j] == all.subrange(0, m + 1)[j]);
                } else {
                    assert(out@[j].view() == lv);
                }
            }
            assert(views(out@) =~= want);
            assert(want == split_empty_pieces(sv, lim));
        }
        return out;
    }
    let mut from: usize = 0;
    let mut left: usize = if limit <= 0 { 0 } else { limit as usize };
    let ghost mut lim_left: Option<nat> = lim;
    proof {
        assert(sv.subrange(0, n as int) =~= sv);
    }
    loop
        invariant
            n == sv.len(),
            sv == sc@,
            sv == string.view(),
            dc@ == delimiter.view(),
            lim == (if limit <= 0 { None } else { Some((limit as usize) as nat) }),
            dc@.len() > 0,
            0 <= from <= n,
            limit <= 0 ==> lim_left is None,
            limit > 0 ==> lim_left == Some(left as nat),
            views(out@) + split_pieces(sv.subrange(from as int, n as int), dc@, lim_left) == split_pieces(sv, dc@, lim),
        decreases n - from, left,
    {
        let ghost rest = sv.subrange(from as int, n as int);
        if limit > 0 && left == 0 {
            proof {
                assert(split_pieces(rest, dc@, lim_left) == Seq::<Seq<char>>::empty());
                assert(views(out@) =~= split_pieces(sv, dc@, lim));
                assert(exploded(delimiter.view(), string.view(), limit) == split_pieces(sv, dc@, lim));
            }
            return out;
        }
        let found = if limit > 0 && left == 1 { None } else { find_chars(sc.as_slice(), from, dc.as_slice()) };
        match found {
            None => {
                let tail = vstd::slice::slice_subrange(sc.as_slice(), from, n);
                let text = string_of(tail);
                let last = SmartString::from_str(text.as_str());
                let ghost lv = last.view();
                let ghost before = out@;
                out.push(last);
                proof {
                    assert(lv == rest);
                    assert(split_pieces(rest, dc@, lim_left) == seq![rest]);
                    assert forall|j: int| 0 <= j < before.len() + 1 implies #[trigger] views(out@)[j] == (views(before) + seq![rest])[j] by {
                        if j < before.len() {
                            assert(out@[j] == before[j]);
                        }
                    }
                    assert(views(out@) =~= views(before) + seq![rest]);
                    assert(views(out@) =~= split_pieces(sv, dc@, lim));
                    assert(exploded(delimiter.view(), string.view(), limit) == split_pieces(sv, dc@, lim));
                }
                return out;
            },
            Some(at) => {
                let piece = vstd::slice::slice_subrange(sc.as_slice(), from, at);
                let text = string_of(piece);
                let part = SmartString::from_str(text.as_str());
                let ghost pv = part.view();
                let ghost before = out@;
                out.push(part);
                proof {
                    assert(pv == sv.subrange(from as int, at as int));
                    assert forall|j: int| 0 <= j < before.len() + 1 implies #[trigger] views(out@)[j] == (views(before) + seq![pv])[j] by {
                        if j < before.len() {
                            assert(out@[j] == before[j]);
                        }
                    }
                    assert(views(out@) =~= views(before) + seq![pv]);
                    lemma_first_match_unique(rest, dc@, at - from);
                    assert(rest.subrange(0, at - from) =~= sv.subrange(from as int, at as int));
                    assert(rest.subrange(at - from + dc@.len(), rest.len() as int) =~= sv.subrange(at + dc@.len(), n as int));
                    if limit > 0 {
                        lim_left = Some((left - 1) as nat);
                    }
                }
                from = at + dc.len();
                if limit > 0 {
                    left = left - 1;
                }
                proof {
                    assert(views(out@) + split_pieces(sv.subrange(from as int, n as int), dc@, lim_left) =~= split_pieces(sv, dc@, lim));
                }
            },
        }
    }
}

} // verus!
