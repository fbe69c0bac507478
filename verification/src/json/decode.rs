//! JSON decoding: a recursive-descent decoder over the bytes of a JSON text.
//!
//! Numbers with a fraction or an exponent are kept as their text; turning that text
//! into a floating-point number is left to the caller.

use vstd::prelude::*;
use vstd::string::StringSliceAdditionalSpecFns;
use vstd::utf8::{encode_scalar, encode_utf8, encode_utf8_valid_utf8, valid_utf8, valid_utf8_concat, valid_utf8_split};
use crate::bytes::{digits_value, is_digit, lemma_digits_monotone};
use crate::json::error::JsonError;
use crate::json::simd::{is_json_ws, lemma_skip_ws_bounds, skip_ws};
use crate::string::ops::push_char;
use crate::string::SmartString;
use crate::text::{all_ascii, lemma_ascii_splittable, lemma_ascii_valid, lemma_splittable_boundary, lemma_str_valid, lemma_valid_between, str_from_utf8};

verus! {

/// What a decoded JSON value is.
pub enum JsonModel {
    Null,
    Bool(bool),
    Int(i64),
    /// A number with a fraction or an exponent, as written.
    Float(Seq<u8>),
    /// A string, as UTF-8 bytes.
    Str(Seq<u8>),
    /// An array's values, in order.
    List(Seq<JsonModel>),
    /// An object's members in order of first appearance, each key once, with the last
    /// value given for it.
    Object(Seq<(Seq<u8>, JsonModel)>),
}

/// A decoded JSON value.
#[derive(Debug)]
pub enum JsonValue {
    Null,
    Bool(bool),
    Int(i64),
    /// A number with a fraction or an exponent, as written.
    Float(String),
    Str(SmartString),
    List(Vec<JsonValue>),
    /// Members in order of first appearance, each key once.
    Object(Vec<(SmartString, JsonValue)>),
}

impl JsonValue {
    /// What this value is.
    pub open spec fn model(self) -> JsonModel
        decreases self,
    {
        match self {
            JsonValue::Null => JsonModel::Null,
            JsonValue::Bool(b) => JsonModel::Bool(b),
            JsonValue::Int(i) => JsonModel::Int(i),
            JsonValue::Float(t) => JsonModel::Float(encode_utf8(t@)),
            JsonValue::Str(s) => JsonModel::Str(s.spec_bytes()),
            JsonValue::List(v) => JsonModel::List(list_model(v@)),
            JsonValue::Object(v) => JsonModel::Object(members_model(v@)),
        }
    }
}

/// What the values of a list are.
pub open spec fn list_model(s: Seq<JsonValue>) -> Seq<JsonModel>
    decreases s,
{
    if s.len() == 0 {
        Seq::empty()
    } else {
        list_model(s.subrange(0, s.len() - 1)).push(s[s.len() - 1].model())
    }
}

/// What the members of an object are.
pub open spec fn members_model(s: Seq<(SmartString, JsonValue)>) -> Seq<(Seq<u8>, JsonModel)>
    decreases s,
{
    if s.len() == 0 {
        Seq::empty()
    } else {
        members_model(s.subrange(0, s.len() - 1)).push((s[s.len() - 1].0.spec_bytes(), s[s.len() - 1].1.model()))
    }
}

pub proof fn lemma_list_model_len(s: Seq<JsonValue>)
    ensures
        list_model(s).len() == s.len(),
        forall|i: int| 0 <= i < s.len() ==> #[trigger] list_model(s)[i] == s[i].model(),
    decreases s.len(),
{
    if s.len() > 0 {
        lemma_list_model_len(s.subrange(0, s.len() - 1));
    }
}

pub proof fn lemma_members_model_len(s: Seq<(SmartString, JsonValue)>)
    ensures
        members_model(s).len() == s.len(),
        forall|i: int| 0 <= i < s.len() ==> #[trigger] members_model(s)[i] == (s[i].0.spec_bytes(), s[i].1.model()),
    decreases s.len(),
{
    if s.len() > 0 {
        lemma_members_model_len(s.subrange(0, s.len() - 1));
    }
}

/// The members after setting key `k` to `v`: the first member with that key gets the
/// value, or the member is added at the end.
pub open spec fn obj_set(m: Seq<(Seq<u8>, JsonModel)>, k: Seq<u8>, v: JsonModel) -> Seq<(Seq<u8>, JsonModel)>
    decreases m.len(),
{
    if m.len() == 0 {
        seq![(k, v)]
    } else if m[0].0 == k {
        m.update(0, (k, v))
    } else {
        seq![m[0]] + obj_set(m.skip(1), k, v)
    }
}

proof fn lemma_obj_set_at(m: Seq<(Seq<u8>, JsonModel)>, k: Seq<u8>, v: JsonModel, i: int)
    requires
        0 <= i < m.len(),
        m[i].0 == k,
        forall|j: int| 0 <= j < i ==> m[j].0 != k,
    ensures
        obj_set(m, k, v) == m.update(i, (k, v)),
    decreases m.len(),
{
    if i > 0 {
        lemma_obj_set_at(m.skip(1), k, v, i - 1);
        assert(seq![m[0]] + m.skip(1).update(i - 1, (k, v)) =~= m.update(i, (k, v)));
    }
}

pub proof fn lemma_obj_set_new(m: Seq<(Seq<u8>, JsonModel)>, k: Seq<u8>, v: JsonModel)
    requires
        forall|j: int| 0 <= j < m.len() ==> m[j].0 != k,
    ensures
        obj_set(m, k, v) == m.push((k, v)),
    decreases m.len(),
{
    if m.len() > 0 {
        lemma_obj_set_new(m.skip(1), k, v);
        assert(seq![m[0]] + m.skip(1).push((k, v)) =~= m.push((k, v)));
    }
}

/// Position of the closing quote of a string whose contents start at `i`: a backslash
/// takes the byte after it along.
pub open spec fn string_end(b: Seq<u8>, i: int) -> Option<int>
    decreases b.len() - i,
{
    if i < 0 || i >= b.len() {
        None
    } else if b[i] == 34 {
        Some(i)
    } else if b[i] == 92 {
        if i + 2 <= b.len() {
            string_end(b, i + 2)
        } else {
            None
        }
    } else {
        string_end(b, i + 1)
    }
}

pub proof fn lemma_string_end(b: Seq<u8>, i: int)
    requires
        0 <= i,
    ensures
        string_end(b, i) matches Some(e) ==> i <= e < b.len() && b[e] == 34,
    decreases b.len() - i,
{
    if 0 <= i < b.len() && b[i] != 34 {
        if b[i] == 92 {
            if i + 2 <= b.len() {
                lemma_string_end(b, i + 2);
            }
        } else {
            lemma_string_end(b, i + 1);
        }
    }
}

/// A hexadecimal digit's value.
pub open spec fn hex_value(c: u8) -> Option<u16> {
    if 48 <= c <= 57 {
        Some((c - 48) as u16)
    } else if 97 <= c <= 102 {
        Some((c - 87) as u16)
    } else if 65 <= c <= 70 {
        Some((c - 55) as u16)
    } else {
        None
    }
}

/// The value of hexadecimal digits.
pub open spec fn hex_digits(h: Seq<u8>) -> Option<u16>
    decreases h.len(),
{
    if h.len() == 0 {
        Some(0)
    } else {
        match (hex_digits(h.drop_last()), hex_value(h.last())) {
            (Some(a), Some(d)) => if a * 16 + d <= u16::MAX { Some((a * 16 + d) as u16) } else { None },
            _ => None,
        }
    }
}

/// What `u16::from_str_radix(h, 16)` gives for four bytes: an optional `+`, then
/// hexadecimal digits only.
pub open spec fn hex4(h: Seq<u8>) -> Option<u16> {
    if h.len() == 4 && h[0] == 43 {
        hex_digits(h.skip(1))
    } else {
        hex_digits(h)
    }
}

/// The UTF-8 bytes of the character with code `code`; a surrogate code stands for the
/// replacement character.
pub open spec fn code_bytes(code: u16) -> Seq<u8> {
    if 0xD800 <= code <= 0xDFFF {
        encode_scalar(0xFFFDu32)
    } else {
        encode_scalar(code as u32)
    }
}

/// The byte an escape `\c` stands for, for the escapes other than `\u`: the named
/// control characters, and the byte `c` itself otherwise.
pub open spec fn escaped(c: u8) -> u8 {
    if c == 98 {
        8
    } else if c == 102 {
        12
    } else if c == 110 {
        10
    } else if c == 114 {
        13
    } else if c == 116 {
        9
    } else {
        c
    }
}

/// The bytes a string's contents stand for, once escapes are processed. A `\u` escape
/// needs four more bytes after the `u`, forming a hexadecimal number; without them the
/// `\u` is dropped.
pub open spec fn unescape(s: Seq<u8>) -> Seq<u8>
    decreases s.len(),
{
    if s.len() == 0 {
        Seq::empty()
    } else if s[0] == 92 && s.len() >= 2 {
        if s[1] == 117 {
            if s.len() >= 6 && hex4(s.subrange(2, 6)) is Some {
                code_bytes(hex4(s.subrange(2, 6))->0) + unescape(s.skip(6))
            } else {
                unescape(s.skip(2))
            }
        } else {
            seq![escaped(s[1])] + unescape(s.skip(2))
        }
    } else {
        seq![s[0]] + unescape(s.skip(1))
    }
}

proof fn lemma_unescape_plain(s: Seq<u8>)
    requires
        forall|i: int| 0 <= i < s.len() ==> s[i] != 92,
    ensures
        unescape(s) == s,
    decreases s.len(),
{
    if s.len() > 0 {
        lemma_unescape_plain(s.skip(1));
        assert(seq![s[0]] + s.skip(1) =~= s);
    }
}

/// The character with code `code`, if it is a Unicode scalar value (std's
/// `char::from_u32`): `None` exactly for surrogates and codes above `0x10FFFF`.
#[verifier::external_body]
fn char_from_u32(code: u32) -> (r: Option<char>)
    ensures
        r is None <==> (0xD800 <= code <= 0xDFFF || code > 0x10FFFF),
        r matches Some(c) ==> c as u32 == code,
{
    char::from_u32(code)
}

/// Replacing a nonempty run of ASCII bytes by valid UTF-8 keeps UTF-8 valid.
proof fn lemma_replace_ascii(a: Seq<u8>, x: Seq<u8>, c: Seq<u8>, y: Seq<u8>)
    requires
        valid_utf8(a + x + c),
        x.len() >= 1,
        all_ascii(x),
        valid_utf8(y),
    ensures
        valid_utf8(a + y + c),
{
    let w = a + x + c;
    let p = a.len() as int;
    let q = (a.len() + x.len()) as int;
    assert(w[p] == x[0]);
    lemma_ascii_splittable(w, p);
    assert(w[q - 1] == x[x.len() - 1]);
    lemma_ascii_splittable(w, q - 1);
    lemma_splittable_boundary(w, p);
    lemma_splittable_boundary(w, q);
    valid_utf8_split(w, p);
    valid_utf8_split(w, q);
    assert(w.subrange(0, p) =~= a);
    assert(w.subrange(q, w.len() as int) =~= c);
    valid_utf8_concat(a, y);
    valid_utf8_concat(a + y, c);
}

/// The bytes of the characters of `code` (see `code_bytes`).
fn push_code(out: &mut Vec<u8>, code: u16)
    ensures
        final(out)@ == old(out)@ + code_bytes(code),
        valid_utf8(code_bytes(code)),
{
    let c = match char_from_u32(code as u32) {
        Some(c) => c,
        None => '\u{FFFD}',
    };
    let mut s = String::new();
    push_char(&mut s, c);
    let bytes = s.as_str().as_bytes();
    proof {
        assert(s@ =~= seq![c]);
        encode_utf8_valid_utf8(seq![c]);
        assert(seq![c].drop_first() =~= Seq::<char>::empty());
        assert(encode_utf8(Seq::<char>::empty()) =~= Seq::<u8>::empty());
        assert(encode_utf8(seq![c]) =~= encode_scalar(c as u32) + encode_utf8(seq![c].drop_first()));
    }
    let mut i: usize = 0;
    let ghost start = out@;
    while i < bytes.len()
        invariant
            0 <= i <= bytes@.len(),
            bytes@ == encode_utf8(seq![c]),
            out@ == start + bytes@.subrange(0, i as int),
        decreases bytes@.len() - i,
    {
        out.push(bytes[i]);
        i = i + 1;
        proof {
            assert(out@ =~= start + bytes@.subrange(0, i as int));
        }
    }
    proof {
        assert(bytes@.subrange(0, i as int) =~= bytes@);
    }
}

/// The value of one hexadecimal digit.
fn hex_digit(c: u8) -> (r: Option<u16>)
    ensures
        r == hex_value(c),
{
    if 48 <= c && c <= 57 {
        Some((c - 48) as u16)
    } else if 97 <= c && c <= 102 {
        Some((c - 87) as u16)
    } else if 65 <= c && c <= 70 {
        Some((c - 55) as u16)
    } else {
        None
    }
}

/// The value of the four bytes `b[i..i + 4]` read as by `u16::from_str_radix(_, 16)`.
fn parse_hex4(b: &[u8], i: usize) -> (r: Option<u16>)
    requires
        i + 4 <= b@.len(),
    ensures
        r == hex4(b@.subrange(i as int, i + 4)),
{
    let ghost h = b@.subrange(i as int, i + 4);
    let mut k: usize = if b[i] == 43 { i + 1 } else { i };
    let ghost d = b@.subrange(k as int, i + 4);
    proof {
        if b@[i as int] == 43 {
            assert(h.skip(1) =~= d);
        } else {
            assert(h =~= d);
        }
    }
    let mut value: u16 = 0;
    let start = k;
    let end = i + 4;
    while k < end
        invariant
            end == i + 4,
            i <= start <= k <= i + 4,
            i + 4 <= b@.len(),
            d == b@.subrange(start as int, i + 4),
            hex4(b@.subrange(i as int, i + 4)) == hex_digits(d),
            hex_digits(b@.subrange(start as int, k as int)) == Some(value),
            value as int <= pow16((k - start) as nat) - 1,
        decreases i + 4 - k,
    {
        let ghost pre = b@.subrange(start as int, k as int);
        let ghost next = b@.subrange(start as int, k + 1);
        proof {
            assert(next.drop_last() =~= pre);
        }
        match hex_digit(b[k]) {
            Some(v) => {
                let ghost old_value = value;
                proof {
                    lemma_pow16_bound((k - start) as nat);
                    assert(value as int * 16 + v <= pow16((k - start) as nat) * 16 - 1) by (nonlinear_arith)
                        requires
                            value as int <= pow16((k - start) as nat) - 1,
                            v < 16,
                    ;
                }
                value = value * 16 + v;
                k = k + 1;
                proof {
                    let e = (k - 1 - start) as nat;
                    assert(pow16(e + 1) == 16 * pow16(e));
                    assert(hex_digits(next) == Some(value));
                }
            },
            None => {
                proof {
                    lemma_hex_digits_none(d, (k - start) as int);
                }
                return None;
            },
        }
    }
    proof {
        assert(b@.subrange(start as int, k as int) =~= d);
    }
    Some(value)
}

/// `16` to the power `n`.
pub open spec fn pow16(n: nat) -> int
    decreases n,
{
    if n == 0 { 1 } else { 16 * pow16((n - 1) as nat) }
}

proof fn lemma_pow16_bound(n: nat)
    requires
        n <= 3,
    ensures
        pow16(n) <= 0x1000,
{
    reveal_with_fuel(pow16, 4);
}

proof fn lemma_hex_digits_none(d: Seq<u8>, k: int)
    requires
        0 <= k < d.len(),
        hex_value(d[k]) is None,
    ensures
        hex_digits(d) is None,
    decreases d.len(),
{
    if k < d.len() - 1 {
        lemma_hex_digits_none(d.drop_last(), k);
    }
}

proof fn lemma_hex_digits_ascii(d: Seq<u8>)
    requires
        hex_digits(d) is Some,
    ensures
        all_ascii(d),
    decreases d.len(),
{
    if d.len() > 0 {
        lemma_hex_digits_ascii(d.drop_last());
        assert forall|i: int| 0 <= i < d.len() implies d[i] < 128 by {
            if i < d.len() - 1 {
                assert(d.drop_last()[i] == d[i]);
            }
        }
    }
}

proof fn lemma_hex4_ascii(h: Seq<u8>)
    requires
        h.len() == 4,
        hex4(h) is Some,
    ensures
        all_ascii(h),
{
    if h[0] == 43 {
        lemma_hex_digits_ascii(h.skip(1));
        assert forall|i: int| 0 <= i < h.len() implies h[i] < 128 by {
            if i > 0 {
                assert(h.skip(1)[i - 1] == h[i]);
            }
        }
    } else {
        lemma_hex_digits_ascii(h);
    }
}

/// The bytes `b[start..end]` with escapes processed (see `unescape`); valid UTF-8 when
/// the range is a valid piece of UTF-8.
#[verifier::spinoff_prover]
#[verifier::rlimit(40)]
pub(crate) fn unescape_bytes(b: &[u8], start: usize, end: usize) -> (r: Vec<u8>)
    requires
        start <= end <= b@.len(),
    ensures
        r@ == unescape(b@.subrange(start as int, end as int)),
        valid_utf8(b@.subrange(start as int, end as int)) ==> valid_utf8(r@),
{
    let ghost whole = b@.subrange(start as int, end as int);
    let ghost ok = valid_utf8(whole);
    let mut result: Vec<u8> = Vec::new();
    let mut i = start;
    proof {
        assert(result@ + whole =~= whole);
    }
    while i < end
        invariant
            start <= i <= end <= b@.len(),
            whole == b@.subrange(start as int, end as int),
            ok == valid_utf8(whole),
            result@ + unescape(b@.subrange(i as int, end as int)) == unescape(whole),
            ok ==> valid_utf8(result@ + b@.subrange(i as int, end as int)),
        decreases end - i,
    {
        let ghost s = b@.subrange(i as int, end as int);
        let ghost before = result@;
        if b[i] == 92 && i + 1 < end {
            let c = b[i + 1];
            proof {
                assert(s[0] == 92 && s[1] == c && s.len() >= 2);
            }
            if c == 117 {
                let mut done = false;
                if end - i > 5 {
                    match parse_hex4(b, i + 2) {
                        Some(code) => {
                            push_code(&mut result, code);
                            proof {
                                assert(s.subrange(2, 6) =~= b@.subrange(i + 2, i + 6));
                                assert(s.skip(6) =~= b@.subrange(i + 6, end as int));
                                assert(unescape(s) == code_bytes(code) + unescape(s.skip(6)));
                                assert(result@ + unescape(s.skip(6)) =~= before + unescape(s));
                                if ok {
                                    let x = b@.subrange(i as int, i + 6);
                                    lemma_hex4_ascii(b@.subrange(i + 2, i + 6));
                                    assert forall|k: int| 0 <= k < x.len() implies x[k] < 128 by {
                                        if k >= 2 {
                                            assert(x[k] == b@.subrange(i + 2, i + 6)[k - 2]);
                                        }
                                    }
                                    assert(before + s =~= before + x + b@.subrange(i + 6, end as int));
                                    lemma_replace_ascii(before, x, b@.subrange(i + 6, end as int), code_bytes(code));
                                    assert(result@ + b@.subrange(i + 6, end as int) =~= before + code_bytes(code)
                                        + b@.subrange(i + 6, end as int));
                                }
                            }
                            i = i + 6;
                            done = true;
                        },
                        None => {
                            proof {
                                assert(s.subrange(2, 6) =~= b@.subrange(i + 2, i + 6));
                            }
                        },
                    }
                }
                if !done {
                    proof {
                        assert(s.len() < 6 || hex4(s.subrange(2, 6)) is None);
                        assert(unescape(s) == unescape(s.skip(2)));
                        assert(s.skip(2) =~= b@.subrange(i + 2, end as int));
                        if ok {
                            let x = b@.subrange(i as int, i + 2);
                            assert(before + s =~= before + x + b@.subrange(i + 2, end as int));
                            lemma_ascii_valid(Seq::<u8>::empty());
                            lemma_replace_ascii(before, x, b@.subrange(i + 2, end as int), Seq::<u8>::empty());
                            assert(before + Seq::<u8>::empty() + b@.subrange(i + 2, end as int) =~= result@
                                + b@.subrange(i + 2, end as int));
                        }
                    }
                    i = i + 2;
                }
            } else {
                let e = if c == 98 {
                    8u8
                } else if c == 102 {
                    12u8
                } else if c == 110 {
                    10u8
                } else if c == 114 {
                    13u8
                } else if c == 116 {
                    9u8
                } else {
                    c
                };
                result.push(e);
                proof {
                    assert(s.skip(2) =~= b@.subrange(i + 2, end as int));
                    assert(result@ + unescape(s.skip(2)) =~= before + unescape(s));
                    if ok {
                        let rest = b@.subrange(i + 2, end as int);
                        if c < 128 {
                            let x = b@.subrange(i as int, i + 2);
                            assert(before + s =~= before + x + rest);
                            lemma_ascii_valid(seq![e]);
                            lemma_replace_ascii(before, x, rest, seq![e]);
                            assert(before + seq![e] + rest =~= result@ + rest);
                        } else {
                            let x = b@.subrange(i as int, i + 1);
                            let rest1 = b@.subrange(i + 1, end as int);
                            assert(before + s =~= before + x + rest1);
                            lemma_ascii_valid(Seq::<u8>::empty());
                            lemma_replace_ascii(before, x, rest1, Seq::<u8>::empty());
                            assert(before + Seq::<u8>::empty() + rest1 =~= result@ + rest);
                        }
                    }
                }
                i = i + 2;
            }
        } else {
            result.push(b[i]);
            proof {
                assert(s.skip(1) =~= b@.subrange(i + 1, end as int));
                assert(result@ + unescape(s.skip(1)) =~= before + unescape(s));
                assert(result@ + b@.subrange(i + 1, end as int) =~= before + s);
            }
            i = i + 1;
        }
    }
    proof {
        assert(b@.subrange(i as int, end as int) =~= Seq::<u8>::empty());
        assert(result@ + Seq::<u8>::empty() =~= result@);
    }
    result
}

/// First position at or after `i` that is not a decimal digit.
pub open spec fn digits_end(b: Seq<u8>, i: int) -> int
    decreases b.len() - i,
{
    if 0 <= i < b.len() && is_digit(b[i]) {
        digits_end(b, i + 1)
    } else {
        i
    }
}

pub proof fn lemma_digits_end(b: Seq<u8>, i: int)
    requires
        0 <= i <= b.len(),
    ensures
        i <= digits_end(b, i) <= b.len(),
        forall|k: int| i <= k < digits_end(b, i) ==> is_digit(#[trigger] b[k]),
        digits_end(b, i) < b.len() ==> !is_digit(b[digits_end(b, i)]),
    decreases b.len() - i,
{
    if i < b.len() && is_digit(b[i]) {
        lemma_digits_end(b, i + 1);
    }
}

/// A number starting at `p`: after the optional minus sign.
pub open spec fn after_sign(b: Seq<u8>, p: int) -> int {
    if p < b.len() && b[p] == 45 { p + 1 } else { p }
}

/// After the integer part: a single `0`, or a run of digits (possibly empty).
pub open spec fn after_int(b: Seq<u8>, p: int) -> int {
    let p1 = after_sign(b, p);
    if p1 < b.len() && b[p1] == 48 { p1 + 1 } else { digits_end(b, p1) }
}

/// A `.` follows the integer part.
pub open spec fn has_frac(b: Seq<u8>, p: int) -> bool {
    after_int(b, p) < b.len() && b[after_int(b, p)] == 46
}

/// After the fraction digits, if there is a fraction.
pub open spec fn after_frac(b: Seq<u8>, p: int) -> int {
    if has_frac(b, p) { digits_end(b, after_int(b, p) + 1) } else { after_int(b, p) }
}

/// An `e` or `E` follows.
pub open spec fn has_exp(b: Seq<u8>, p: int) -> bool {
    after_frac(b, p) < b.len() && (b[after_frac(b, p)] == 101 || b[after_frac(b, p)] == 69)
}

/// Where the exponent digits start: after the `e` and an optional sign.
pub open spec fn exp_start(b: Seq<u8>, p: int) -> int {
    let q = after_frac(b, p) + 1;
    if q < b.len() && (b[q] == 43 || b[q] == 45) { q + 1 } else { q }
}

/// Where the number ends.
pub open spec fn number_end(b: Seq<u8>, p: int) -> int {
    if has_exp(b, p) { digits_end(b, exp_start(b, p)) } else { after_frac(b, p) }
}

/// The number text is one that `f64::from_str` accepts: at least one digit before or
/// after the point, and digits after an exponent mark.
pub open spec fn float_ok(b: Seq<u8>, p: int) -> bool {
    &&& (after_int(b, p) - after_sign(b, p)) + (if has_frac(b, p) { after_frac(b, p) - after_int(b, p) - 1 } else { 0 }) >= 1
    &&& has_exp(b, p) ==> number_end(b, p) > exp_start(b, p)
}

/// The integer written at `p`, if `i64::from_str` accepts it: at least one digit, and
/// in range.
pub open spec fn int_value(b: Seq<u8>, p: int) -> Option<i64> {
    let d = b.subrange(after_sign(b, p), after_int(b, p));
    let v = digits_value(d);
    if d.len() == 0 {
        None
    } else if after_sign(b, p) > p {
        if v <= 0x8000_0000_0000_0000 { Some((-v) as i64) } else { None }
    } else {
        if v <= i64::MAX { Some(v as i64) } else { None }
    }
}

/// The number at `p` and the position after it: an integer when there is neither a
/// fraction nor an exponent, else a floating-point number kept as its text.
pub open spec fn number_at(b: Seq<u8>, p: int) -> Result<(JsonModel, int), JsonError> {
    if has_frac(b, p) || has_exp(b, p) {
        if float_ok(b, p) {
            Ok((JsonModel::Float(b.subrange(p, number_end(b, p))), number_end(b, p)))
        } else {
            Err(JsonError::InvalidNumber(p as usize))
        }
    } else {
        match int_value(b, p) {
            Some(v) => Ok((JsonModel::Int(v), after_int(b, p))),
            None => Err(JsonError::InvalidNumber(p as usize)),
        }
    }
}

/// The literal `word` standing for `v` at `p`, and the position after it.
pub open spec fn literal_at(b: Seq<u8>, p: int, word: Seq<u8>, v: JsonModel) -> Result<(JsonModel, int), JsonError> {
    if p + word.len() <= b.len() && b.subrange(p, p + word.len()) == word {
        Ok((v, p + word.len()))
    } else {
        Err(JsonError::InvalidLiteral(p as usize))
    }
}

/// The string whose opening quote is at `p` (its bytes once unescaped) and the position
/// after its closing quote.
pub open spec fn string_at(b: Seq<u8>, p: int) -> Result<(Seq<u8>, int), JsonError> {
    match string_end(b, p + 1) {
        Some(e) => Ok((unescape(b.subrange(p + 1, e)), e + 1)),
        None => Err(JsonError::UnterminatedString((p + 1) as usize)),
    }
}

/// The value of decimal digits `b[from..to]`, as an unsigned number no larger than
/// `limit`, or `None` when it is larger.
fn digits_upto(b: &[u8], from: usize, to: usize, limit: u64) -> (r: Option<u64>)
    requires
        from <= to <= b@.len(),
        forall|k: int| from <= k < to ==> is_digit(#[trigger] b@[k]),
    ensures
        match r {
            Some(v) => v == digits_value(b@.subrange(from as int, to as int)) && v <= limit,
            None => digits_value(b@.subrange(from as int, to as int)) > limit,
        },
{
    let mut v: u64 = 0;
    let mut i = from;
    while i < to
        invariant
            from <= i <= to <= b@.len(),
            forall|k: int| from <= k < to ==> is_digit(#[trigger] b@[k]),
            v == digits_value(b@.subrange(from as int, i as int)),
            v <= limit,
        decreases to - i,
    {
        let d = (b[i] - 48) as u64;
        let ghost pre = b@.subrange(from as int, i as int);
        let ghost next = b@.subrange(from as int, i + 1);
        proof {
            assert(next.drop_last() =~= pre);
            assert(is_digit(b@[i as int]));
            assert(digits_value(next) == v * 10 + d);
        }
        if d > limit || v > (limit - d) / 10 {
            proof {
                if d <= limit {
                    assert(v * 10 + d > limit) by (nonlinear_arith)
                        requires
                            v > (limit - d) / 10,
                            d <= limit,
                    ;
                }
                let whole = b@.subrange(from as int, to as int);
                assert forall|k: int| 0 <= k < whole.len() implies is_digit(whole[k]) by {
                    assert(whole[k] == b@[from + k]);
                }
                assert(whole.subrange(0, (i + 1 - from) as int) =~= next);
                lemma_digits_monotone(whole, (i + 1 - from) as int);
            }
            return None;
        }
        proof {
            assert(v * 10 + d <= limit) by (nonlinear_arith)
                requires
                    v <= (limit - d) / 10,
                    d <= limit,
            ;
        }
        v = v * 10 + d;
        i = i + 1;
    }
    Some(v)
}

/// `true`
pub open spec fn true_bytes() -> Seq<u8> {
    seq![116u8, 114, 117, 101]
}

/// `false`
pub open spec fn false_bytes() -> Seq<u8> {
    seq![102u8, 97, 108, 115, 101]
}

/// `null`
pub open spec fn null_bytes() -> Seq<u8> {
    seq![110u8, 117, 108, 108]
}

/// The value at `p` (after blanks) and the position after it.
pub open spec fn value_at(b: Seq<u8>, p: int) -> Result<(JsonModel, int), JsonError>
    decreases b.len() - p, 2int,
{
    if p < 0 || p > b.len() {
        Err(JsonError::UnexpectedEof)
    } else {
        let q = skip_ws(b, p);
        proof {
            lemma_skip_ws_bounds(b, p);
        }
        if q >= b.len() {
            Err(JsonError::UnexpectedEof)
        } else {
            let c = b[q];
            if c == 123 {
                object_at(b, q + 1)
            } else if c == 91 {
                array_at(b, q + 1)
            } else if c == 34 {
                match string_at(b, q) {
                    Ok((text, e)) => Ok((JsonModel::Str(text), e)),
                    Err(e) => Err(e),
                }
            } else if c == 116 {
                literal_at(b, q, true_bytes(), JsonModel::Bool(true))
            } else if c == 102 {
                literal_at(b, q, false_bytes(), JsonModel::Bool(false))
            } else if c == 110 {
                literal_at(b, q, null_bytes(), JsonModel::Null)
            } else if c == 45 || is_digit(c) {
                number_at(b, q)
            } else {
                Err(JsonError::UnexpectedChar(c as char, q as usize))
            }
        }
    }
}

/// The object whose `{` is just before `i`, and the position after its `}`.
pub open spec fn object_at(b: Seq<u8>, i: int) -> Result<(JsonModel, int), JsonError>
    decreases b.len() - i, 1int,
{
    if i < 0 || i > b.len() {
        Err(JsonError::UnexpectedEof)
    } else {
        let j = skip_ws(b, i);
        proof {
            lemma_skip_ws_bounds(b, i);
        }
        if j < b.len() && b[j] == 125 {
            Ok((JsonModel::Object(Seq::empty()), j + 1))
        } else {
            members_at(b, j, Seq::empty())
        }
    }
}

/// The members of an object from `i` on, added to `acc`, and the position after its `}`.
pub open spec fn members_at(b: Seq<u8>, i: int, acc: Seq<(Seq<u8>, JsonModel)>) -> Result<(JsonModel, int), JsonError>
    decreases b.len() - i, 0int,
{
    if i < 0 || i > b.len() {
        Err(JsonError::UnexpectedEof)
    } else {
        let j = skip_ws(b, i);
        proof {
            lemma_skip_ws_bounds(b, i);
        }
        if !(j < b.len() && b[j] == 34) {
            Err(JsonError::ExpectedString(j as usize))
        } else {
            match string_at(b, j) {
                Err(e) => Err(e),
                Ok((key, k1)) => {
                    let k2 = skip_ws(b, k1);
                    proof {
                        lemma_string_end(b, j + 1);
                        lemma_skip_ws_bounds(b, k1);
                    }
                    if !(k2 < b.len() && b[k2] == 58) {
                        Err(JsonError::ExpectedColon(k2 as usize))
                    } else {
                        match value_at(b, k2 + 1) {
                            Err(e) => Err(e),
                            Ok((v, r)) => {
                                let acc2 = obj_set(acc, key, v);
                                let s = skip_ws(b, r);
                                if s < b.len() && b[s] == 44 {
                                    if i < s + 1 {
                                        members_at(b, s + 1, acc2)
                                    } else {
                                        Err(JsonError::ExpectedCommaOrBrace(s as usize))
                                    }
                                } else if s < b.len() && b[s] == 125 {
                                    Ok((JsonModel::Object(acc2), s + 1))
                                } else {
                                    Err(JsonError::ExpectedCommaOrBrace(s as usize))
                                }
                            },
                        }
                    }
                },
            }
        }
    }
}

/// The array whose `[` is just before `i`, and the position after its `]`.
pub open spec fn array_at(b: Seq<u8>, i: int) -> Result<(JsonModel, int), JsonError>
    decreases b.len() - i, 4int,
{
    if i < 0 || i > b.len() {
        Err(JsonError::UnexpectedEof)
    } else {
        let j = skip_ws(b, i);
        proof {
            lemma_skip_ws_bounds(b, i);
        }
        if j < b.len() && b[j] == 93 {
            Ok((JsonModel::List(Seq::empty()), j + 1))
        } else {
            items_at(b, j, Seq::empty())
        }
    }
}

/// The items of an array from `i` on, added to `acc`, and the position after its `]`.
pub open spec fn items_at(b: Seq<u8>, i: int, acc: Seq<JsonModel>) -> Result<(JsonModel, int), JsonError>
    decreases b.len() - i, 3int,
{
    match value_at(b, i) {
        Err(e) => Err(e),
        Ok((v, r)) => {
            let acc2 = acc.push(v);
            let s = skip_ws(b, r);
            if s < b.len() && b[s] == 44 {
                if i < s + 1 <= b.len() {
                    items_at(b, s + 1, acc2)
                } else {
                    Err(JsonError::ExpectedCommaOrBracket(s as usize))
                }
            } else if s < b.len() && b[s] == 93 {
                Ok((JsonModel::List(acc2), s + 1))
            } else {
                Err(JsonError::ExpectedCommaOrBracket(s as usize))
            }
        },
    }
}

proof fn lemma_members_model_push(s: Seq<(SmartString, JsonValue)>, x: (SmartString, JsonValue))
    ensures
        members_model(s.push(x)) == members_model(s).push((x.0.spec_bytes(), x.1.model())),
{
    assert(s.push(x).subrange(0, s.len() as int) =~= s);
}

proof fn lemma_list_model_push(s: Seq<JsonValue>, x: JsonValue)
    ensures
        list_model(s.push(x)) == list_model(s).push(x.model()),
{
    assert(s.push(x).subrange(0, s.len() as int) =~= s);
}

proof fn lemma_members_model_update(s: Seq<(SmartString, JsonValue)>, i: int, x: (SmartString, JsonValue))
    requires
        0 <= i < s.len(),
    ensures
        members_model(s.update(i, x)) == members_model(s).update(i, (x.0.spec_bytes(), x.1.model())),
{
    lemma_members_model_len(s);
    lemma_members_model_len(s.update(i, x));
    assert(members_model(s.update(i, x)) =~= members_model(s).update(i, (x.0.spec_bytes(), x.1.model())));
}

/// Sets member `key` of an object to `value` (see `obj_set`).
fn object_set(entries: &mut Vec<(SmartString, JsonValue)>, key: SmartString, value: JsonValue)
    ensures
        members_model(final(entries)@) == obj_set(members_model(old(entries)@), key.spec_bytes(), value.model()),
{
    let ghost m = members_model(entries@);
    proof {
        lemma_members_model_len(entries@);
    }
    let n = entries.len();
    let mut i: usize = 0;
    while i < n
        invariant
            n == entries@.len(),
            entries@ == old(entries)@,
            m == members_model(entries@),
            m.len() == n,
            forall|j: int| 0 <= j < n ==> #[trigger] m[j] == (entries@[j].0.spec_bytes(), entries@[j].1.model()),
            0 <= i <= n,
            forall|j: int| 0 <= j < i ==> m[j].0 != key.spec_bytes(),
        decreases n - i,
    {
        if entries[i].0.equals(&key) {
            proof {
                vstd::utf8::encode_utf8_decode_utf8(key.view());
                vstd::utf8::encode_utf8_decode_utf8(entries@[i as int].0.view());
                assert(m[i as int].0 == key.spec_bytes());
                lemma_obj_set_at(m, key.spec_bytes(), value.model(), i as int);
                lemma_members_model_update(entries@, i as int, (key, value));
            }
            entries.set(i, (key, value));
            return;
        }
        proof {
            vstd::utf8::encode_utf8_decode_utf8(key.view());
            vstd::utf8::encode_utf8_decode_utf8(entries@[i as int].0.view());
        }
        i = i + 1;
    }
    proof {
        lemma_obj_set_new(m, key.spec_bytes(), value.model());
        lemma_members_model_push(entries@, (key, value));
    }
    entries.push((key, value));
}

proof fn lemma_skip_ws_idem(b: Seq<u8>, p: int)
    requires
        0 <= p,
    ensures
        skip_ws(b, skip_ws(b, p)) == skip_ws(b, p),
    decreases b.len() - p,
{
    if 0 <= p < b.len() && is_json_ws(b[p]) {
        lemma_skip_ws_idem(b, p + 1);
    }
}

proof fn lemma_value_at_skip(b: Seq<u8>, p: int)
    requires
        0 <= p <= b.len(),
    ensures
        value_at(b, skip_ws(b, p)) == value_at(b, p),
{
    lemma_skip_ws_bounds(b, p);
    lemma_skip_ws_idem(b, p);
}

/// The text decoded from position `p`: one value, then nothing but blanks.
pub open spec fn decoded_from(b: Seq<u8>, p: int) -> Result<JsonModel, JsonError> {
    match value_at(b, p) {
        Ok((v, r)) => if skip_ws(b, r) < b.len() {
            Err(JsonError::TrailingData(skip_ws(b, r) as usize))
        } else {
            Ok(v)
        },
        Err(e) => Err(e),
    }
}

/// A decoder reading a JSON text from a position.
pub struct JsonDecoder<'a> {
    input: &'a [u8],
    pos: usize,
}

impl<'a> JsonDecoder<'a> {
    /// The bytes of the text.
    pub closed spec fn bytes(&self) -> Seq<u8> {
        self.input@
    }

    /// The position of the next byte to read.
    pub closed spec fn at(&self) -> int {
        self.pos as int
    }

    /// The text is valid UTF-8, shorter than the largest `usize`, and the position within it.
    pub open spec fn wf(&self) -> bool {
        &&& valid_utf8(self.bytes())
        &&& self.bytes().len() < usize::MAX
        &&& 0 <= self.at() <= self.bytes().len()
    }

    /// A decoder at the start of `input`.
    pub fn new(input: &'a str) -> (r: Self)
        requires
            input.spec_bytes().len() < usize::MAX,
        ensures
            r.wf(),
            r.bytes() == input.spec_bytes(),
            r.at() == 0,
    {
        proof {
            lemma_str_valid(input);
        }
        JsonDecoder { input: input.as_bytes(), pos: 0 }
    }

    /// The byte at the position, if any.
    fn peek(&self) -> (r: Option<u8>)
        requires
            self.wf(),
        ensures
            r == (if self.at() < self.bytes().len() { Some(self.bytes()[self.at()]) } else { None::<u8> }),
    {
        if self.pos < self.input.len() {
            Some(self.input[self.pos])
        } else {
            None
        }
    }

    /// Moves past blanks.
    fn skip_whitespace(&mut self)
        requires
            old(self).wf(),
        ensures
            final(self).wf(),
            final(self).bytes() == old(self).bytes(),
            final(self).at() == skip_ws(old(self).bytes(), old(self).at()),
    {
        proof {
            lemma_skip_ws_bounds(self.bytes(), self.at());
        }
        while self.pos < self.input.len() && (self.input[self.pos] == 32 || self.input[self.pos] == 9
            || self.input[self.pos] == 10 || self.input[self.pos] == 13)
            invariant
                self.wf(),
                self.bytes() == old(self).bytes(),
                skip_ws(self.bytes(), self.at()) == skip_ws(old(self).bytes(), old(self).at()),
            decreases self.bytes().len() - self.at(),
        {
            self.pos = self.pos + 1;
        }
    }

    /// Reads a literal: `word` must follow.
    fn decode_literal(&mut self, word: &[u8], v: JsonValue) -> (r: Result<JsonValue, JsonError>)
        requires
            old(self).wf(),
            word@.len() > 0,
        ensures
            final(self).bytes() == old(self).bytes(),
            match literal_at(old(self).bytes(), old(self).at(), word@, v.model()) {
                Ok((m, q)) => r matches Ok(x) && x.model() == m && final(self).at() == q && final(self).wf()
                    && q > old(self).at(),
                Err(e) => r == Err::<JsonValue, JsonError>(e),
            },
    {
        let n = word.len();
        if self.input.len() - self.pos < n {
            return Err(JsonError::InvalidLiteral(self.pos));
        }
        let mut k: usize = 0;
        while k < n
            invariant
                self.wf(),
                n == word@.len(),
                self.pos + n <= self.input@.len(),
                self.input@.len() < usize::MAX,
                0 <= k <= n,
                forall|j: int| 0 <= j < k ==> self.bytes()[self.at() + j] == word@[j],
            decreases n - k,
        {
            if self.input[self.pos + k] != word[k] {
                proof {
                    assert(self.bytes().subrange(self.at(), self.at() + n)[k as int] != word@[k as int]);
                }
                return Err(JsonError::InvalidLiteral(self.pos));
            }
            k = k + 1;
        }
        proof {
            assert(self.bytes().subrange(self.at(), self.at() + n) =~= word@);
        }
        self.pos = self.pos + n;
        Ok(v)
    }

    /// Reads a string whose opening quote is at the position.
    fn decode_string(&mut self) -> (r: Result<SmartString, JsonError>)
        requires
            old(self).wf(),
            old(self).at() < old(self).bytes().len(),
            old(self).bytes()[old(self).at()] == 34,
        ensures
            final(self).bytes() == old(self).bytes(),
            match string_at(old(self).bytes(), old(self).at()) {
                Ok((text, q)) => r matches Ok(x) && x.spec_bytes() == text && final(self).at() == q && final(self).wf()
                    && q > old(self).at(),
                Err(e) => r == Err::<SmartString, JsonError>(e),
            },
    {
        let ghost b = self.bytes();
        let ghost p = self.at();
        self.pos = self.pos + 1;
        let start = self.pos;
        let mut has_escapes = false;
        while self.pos < self.input.len()
            invariant
                b == self.bytes(),
                b == old(self).bytes(),
                p == old(self).at(),
                valid_utf8(b),
                start == p + 1,
                0 <= p < b.len(),
                b.len() < usize::MAX,
                b[p] == 34,
                start <= self.pos <= b.len() + 1,
                string_end(b, start as int) == string_end(b, self.at()),
                !has_escapes ==> forall|k: int| start <= k < self.pos ==> b[k] != 92,
            decreases b.len() + 1 - self.pos,
        {
            let c = self.input[self.pos];
            if c == 34 {
                let end = self.pos;
                proof {
                    lemma_ascii_splittable(b, p);
                    lemma_ascii_splittable(b, end as int);
                    lemma_valid_between(b, start as int, end as int);
                }
                let text = if has_escapes {
                    unescape_bytes(self.input, start, end)
                } else {
                    let mut v: Vec<u8> = Vec::new();
                    let mut k = start;
                    while k < end
                        invariant
                            start <= k <= end,
                            end < b.len(),
                            b == self.input@,
                            v@ == b.subrange(start as int, k as int),
                        decreases end - k,
                    {
                        v.push(self.input[k]);
                        k = k + 1;
                        proof {
                            assert(v@ =~= b.subrange(start as int, k as int));
                        }
                    }
                    proof {
                        lemma_unescape_plain(b.subrange(start as int, end as int));
                    }
                    v
                };
                let decoded = match str_from_utf8(text.as_slice()) {
                    Some(t) => SmartString::from_str(t),
                    None => {
                        return Err(JsonError::InvalidUtf8);
                    },
                };
                self.pos = end + 1;
                return Ok(decoded);
            } else if c == 92 {
                has_escapes = true;
                self.pos = self.pos + 2;
            } else {
                self.pos = self.pos + 1;
            }
        }
        Err(JsonError::UnterminatedString(start))
    }
    /// Whether the byte at the position is `c`.
    fn peek_is(&self, c: u8) -> (r: bool)
        requires
            self.wf(),
        ensures
            r == (self.at() < self.bytes().len() && self.bytes()[self.at()] == c),
    {
        self.pos < self.input.len() && self.input[self.pos] == c
    }

    /// Whether the byte at the position is a decimal digit.
    fn peek_digit(&self) -> (r: bool)
        requires
            self.wf(),
        ensures
            r == (self.at() < self.bytes().len() && is_digit(self.bytes()[self.at()])),
    {
        self.pos < self.input.len() && 48 <= self.input[self.pos] && self.input[self.pos] <= 57
    }

    /// Moves past decimal digits.
    fn skip_digits(&mut self)
        requires
            old(self).wf(),
        ensures
            final(self).wf(),
            final(self).bytes() == old(self).bytes(),
            final(self).at() == digits_end(old(self).bytes(), old(self).at()),
            final(self).at() >= old(self).at(),
            forall|k: int| old(self).at() <= k < final(self).at() ==> #[trigger] final(self).bytes()[k] < 128,
    {
        proof {
            lemma_digits_end(self.bytes(), self.at());
        }
        while self.peek_digit()
            invariant
                self.wf(),
                self.bytes() == old(self).bytes(),
                old(self).at() <= self.at(),
                digits_end(self.bytes(), self.at()) == digits_end(old(self).bytes(), old(self).at()),
                forall|k: int| old(self).at() <= k < self.at() ==> #[trigger] self.bytes()[k] < 128,
            decreases self.bytes().len() - self.at(),
        {
            self.pos = self.pos + 1;
        }
    }

    /// Reads a number (see `number_at`).
    #[verifier::spinoff_prover]
    #[verifier::rlimit(30)]
    fn decode_number(&mut self) -> (r: Result<JsonValue, JsonError>)
        requires
            old(self).wf(),
        ensures
            final(self).bytes() == old(self).bytes(),
            match number_at(old(self).bytes(), old(self).at()) {
                Ok((m, q)) => r matches Ok(x) && x.model() == m && final(self).at() == q && final(self).wf()
                    && q > old(self).at(),
                Err(e) => r == Err::<JsonValue, JsonError>(e),
            },
    {
        let ghost b = self.bytes();
        let start = self.pos;
        let mut is_float = false;
        if self.peek_is(45) {
            self.pos = self.pos + 1;
        }
        let sign_end = self.pos;
        if self.peek_is(48) {
            self.pos = self.pos + 1;
        } else {
            self.skip_digits();
        }
        let int_end = self.pos;
        let mut frac = false;
        if self.peek_is(46) {
            is_float = true;
            frac = true;
            self.pos = self.pos + 1;
            self.skip_digits();
        }
        let frac_end = self.pos;
        let mut exp = false;
        let mut exp_from = self.pos;
        if self.peek_is(101) || self.peek_is(69) {
            is_float = true;
            exp = true;
            self.pos = self.pos + 1;
            if self.peek_is(43) || self.peek_is(45) {
                self.pos = self.pos + 1;
            }
            exp_from = self.pos;
            self.skip_digits();
        }
        let end = self.pos;
        proof {
            assert(sign_end == after_sign(b, start as int));
            assert(int_end == after_int(b, start as int));
            assert(frac == has_frac(b, start as int));
            assert(frac_end == after_frac(b, start as int));
            assert(exp == has_exp(b, start as int));
            assert(exp ==> exp_from == exp_start(b, start as int));
            assert(end == number_end(b, start as int));
            assert forall|k: int| start <= k < end implies #[trigger] b[k] < 128 by {}
        }
        if is_float {
            let frac_digits = if frac { frac_end - int_end - 1 } else { 0 };
            if (int_end - sign_end) + frac_digits >= 1 && (!exp || end > exp_from) {
                let mut v: Vec<u8> = Vec::new();
                let mut k = start;
                while k < end
                    invariant
                        start <= k <= end <= b.len(),
                        b == self.input@,
                        v@ == b.subrange(start as int, k as int),
                    decreases end - k,
                {
                    v.push(self.input[k]);
                    k = k + 1;
                    proof {
                        assert(v@ =~= b.subrange(start as int, k as int));
                    }
                }
                proof {
                    assert(all_ascii(v@)) by {
                        assert forall|i: int| 0 <= i < v@.len() implies v@[i] < 128 by {
                            assert(v@[i] == b[start + i]);
                        }
                    }
                    lemma_ascii_valid(v@);
                }
                match str_from_utf8(v.as_slice()) {
                    Some(t) => {
                        return Ok(JsonValue::Float(t.to_owned()));
                    },
                    None => {
                        return Err(JsonError::InvalidNumber(start));
                    },
                }
            } else {
                return Err(JsonError::InvalidNumber(start));
            }
        }
        proof {
            assert forall|k: int| sign_end <= k < int_end implies is_digit(#[trigger] self.input@[k]) by {
                if b[sign_end as int] == 48 {
                } else {
                    lemma_digits_end(b, sign_end as int);
                }
            }
        }
        if int_end == sign_end {
            return Err(JsonError::InvalidNumber(start));
        }
        let negative = sign_end > start;
        let limit: u64 = if negative { 0x8000_0000_0000_0000 } else { 0x7fff_ffff_ffff_ffff };
        match digits_upto(self.input, sign_end, int_end, limit) {
            Some(v) => {
                let value: i64 = if !negative {
                    v as i64
                } else if v == 0x8000_0000_0000_0000 {
                    i64::MIN
                } else {
                    -(v as i64)
                };
                Ok(JsonValue::Int(value))
            },
            None => Err(JsonError::InvalidNumber(start)),
        }
    }

    /// Reads a value (see `value_at`).
    pub fn decode_value(&mut self) -> (r: Result<JsonValue, JsonError>)
        requires
            old(self).wf(),
        ensures
            final(self).bytes() == old(self).bytes(),
            match value_at(old(self).bytes(), old(self).at()) {
                Ok((m, q)) => r matches Ok(x) && x.model() == m && final(self).at() == q && final(self).wf()
                    && q > old(self).at(),
                Err(e) => r == Err::<JsonValue, JsonError>(e),
            },
        decreases old(self).bytes().len() - old(self).at(), 2int,
    {
        proof {
            lemma_skip_ws_bounds(self.bytes(), self.at());
        }
        self.skip_whitespace();
        if self.pos >= self.input.len() {
            return Err(JsonError::UnexpectedEof);
        }
        let c = self.input[self.pos];
        if c == 123 {
            self.decode_object()
        } else if c == 91 {
            self.decode_array()
        } else if c == 34 {
            match self.decode_string() {
                Ok(text) => Ok(JsonValue::Str(text)),
                Err(e) => Err(e),
            }
        } else if c == 116 {
            let word: [u8; 4] = [116u8, 114, 117, 101];
            proof {
                assert(word@ =~= true_bytes());
            }
            self.decode_literal(&word, JsonValue::Bool(true))
        } else if c == 102 {
            let word: [u8; 5] = [102u8, 97, 108, 115, 101];
            proof {
                assert(word@ =~= false_bytes());
            }
            self.decode_literal(&word, JsonValue::Bool(false))
        } else if c == 110 {
            let word: [u8; 4] = [110u8, 117, 108, 108];
            proof {
                assert(word@ =~= null_bytes());
            }
            self.decode_literal(&word, JsonValue::Null)
        } else if c == 45 || (48 <= c && c <= 57) {
            self.decode_number()
        } else {
            Err(JsonError::UnexpectedChar(c as char, self.pos))
        }
    }

    /// Reads an object whose `{` is at the position (see `object_at`).
    fn decode_object(&mut self) -> (r: Result<JsonValue, JsonError>)
        requires
            old(self).wf(),
            old(self).at() < old(self).bytes().len(),
            old(self).bytes()[old(self).at()] == 123,
        ensures
            final(self).bytes() == old(self).bytes(),
            match object_at(old(self).bytes(), old(self).at() + 1) {
                Ok((m, q)) => r matches Ok(x) && x.model() == m && final(self).at() == q && final(self).wf()
                    && q > old(self).at(),
                Err(e) => r == Err::<JsonValue, JsonError>(e),
            },
        decreases old(self).bytes().len() - old(self).at(), 1int,
    {
        let ghost b = self.bytes();
        let ghost p0 = self.at();
        self.pos = self.pos + 1;
        proof {
            lemma_skip_ws_bounds(b, p0 + 1);
        }
        self.skip_whitespace();
        let mut entries: Vec<(SmartString, JsonValue)> = Vec::new();
        if self.peek_is(125) {
            self.pos = self.pos + 1;
            proof {
                assert(members_model(entries@) =~= Seq::<(Seq<u8>, JsonModel)>::empty());
            }
            return Ok(JsonValue::Object(entries));
        }
        proof {
            assert(members_model(entries@) =~= Seq::<(Seq<u8>, JsonModel)>::empty());
        }
        loop
            invariant
                self.wf(),
                self.bytes() == b,
                b == old(self).bytes(),
                p0 == old(self).at(),
                self.at() > p0,
                object_at(b, p0 + 1) == members_at(b, self.at(), members_model(entries@)),
            decreases b.len() - self.at(),
        {
            let ghost i = self.at();
            let ghost acc = members_model(entries@);
            proof {
                lemma_skip_ws_bounds(b, i);
            }
            self.skip_whitespace();
            if !self.peek_is(34) {
                return Err(JsonError::ExpectedString(self.pos));
            }
            let ghost j = self.at();
            let key = match self.decode_string() {
                Ok(k) => k,
                Err(e) => {
                    return Err(e);
                },
            };
            proof {
                lemma_string_end(b, j + 1);
                lemma_skip_ws_bounds(b, self.at());
            }
            self.skip_whitespace();
            if !self.peek_is(58) {
                return Err(JsonError::ExpectedColon(self.pos));
            }
            self.pos = self.pos + 1;
            let value = match self.decode_value() {
                Ok(v) => v,
                Err(e) => {
                    return Err(e);
                },
            };
            let ghost r = self.at();
            object_set(&mut entries, key, value);
            proof {
                lemma_skip_ws_bounds(b, r);
            }
            self.skip_whitespace();
            if self.peek_is(44) {
                self.pos = self.pos + 1;
            } else if self.peek_is(125) {
                self.pos = self.pos + 1;
                return Ok(JsonValue::Object(entries));
            } else {
                return Err(JsonError::ExpectedCommaOrBrace(self.pos));
            }
        }
    }

    /// Reads an array whose `[` is at the position (see `array_at`).
    fn decode_array(&mut self) -> (r: Result<JsonValue, JsonError>)
        requires
            old(self).wf(),
            old(self).at() < old(self).bytes().len(),
            old(self).bytes()[old(self).at()] == 91,
        ensures
            final(self).bytes() == old(self).bytes(),
            match array_at(old(self).bytes(), old(self).at() + 1) {
                Ok((m, q)) => r matches Ok(x) && x.model() == m && final(self).at() == q && final(self).wf()
                    && q > old(self).at(),
                Err(e) => r == Err::<JsonValue, JsonError>(e),
            },
        decreases old(self).bytes().len() - old(self).at(), 1int,
    {
        let ghost b = self.bytes();
        let ghost p0 = self.at();
        self.pos = self.pos + 1;
        proof {
            lemma_skip_ws_bounds(b, p0 + 1);
        }
        self.skip_whitespace();
        let mut items: Vec<JsonValue> = Vec::new();
        if self.peek_is(93) {
            self.pos = self.pos + 1;
            proof {
                assert(list_model(items@) =~= Seq::<JsonModel>::empty());
            }
            return Ok(JsonValue::List(items));
        }
        proof {
            assert(list_model(items@) =~= Seq::<JsonModel>::empty());
        }
        loop
            invariant
                self.wf(),
                self.bytes() == b,
                b == old(self).bytes(),
                p0 == old(self).at(),
                self.at() > p0,
                array_at(b, p0 + 1) == items_at(b, self.at(), list_model(items@)),
            decreases b.len() - self.at(),
        {
            let ghost i = self.at();
            let value = match self.decode_value() {
                Ok(v) => v,
                Err(e) => {
                    return Err(e);
                },
            };
            let ghost r = self.at();
            proof {
                lemma_list_model_push(items@, value);
            }
            items.push(value);
            proof {
                lemma_skip_ws_bounds(b, r);
            }
            self.skip_whitespace();
            if self.peek_is(44) {
                self.pos = self.pos + 1;
            } else if self.peek_is(93) {
                self.pos = self.pos + 1;
                return Ok(JsonValue::List(items));
            } else {
                return Err(JsonError::ExpectedCommaOrBracket(self.pos));
            }
        }
    }

    /// Reads the whole text from the position: one value, then nothing but blanks.
    pub fn decode(&mut self) -> (r: Result<JsonValue, JsonError>)
        requires
            old(self).wf(),
        ensures
            final(self).bytes() == old(self).bytes(),
            match decoded_from(old(self).bytes(), old(self).at()) {
                Ok(m) => r matches Ok(x) && x.model() == m,
                Err(e) => r == Err::<JsonValue, JsonError>(e),
            },
    {
        proof {
            lemma_value_at_skip(self.bytes(), self.at());
            lemma_skip_ws_bounds(self.bytes(), self.at());
        }
        self.skip_whitespace();
        let value = match self.decode_value() {
            Ok(v) => v,
            Err(e) => {
                return Err(e);
            },
        };
        self.skip_whitespace();
        if self.pos < self.input.len() {
            return Err(JsonError::TrailingData(self.pos));
        }
        Ok(value)
    }
}

/// Decodes a JSON text.
pub fn decode(input: &str) -> (r: Result<JsonValue, JsonError>)
    requires
        input.spec_bytes().len() < usize::MAX,
    ensures
        match decoded_from(input.spec_bytes(), 0) {
            Ok(m) => r matches Ok(x) && x.model() == m,
            Err(e) => r == Err::<JsonValue, JsonError>(e),
        },
{
    let mut decoder = JsonDecoder::new(input);
    decoder.decode()
}

/// Decodes a JSON text (the same as `decode`).
pub fn decode_value(input: &str) -> (r: Result<JsonValue, JsonError>)
    requires
        input.spec_bytes().len() < usize::MAX,
    ensures
        match decoded_from(input.spec_bytes(), 0) {
            Ok(m) => r matches Ok(x) && x.model() == m,
            Err(e) => r == Err::<JsonValue, JsonError>(e),
        },
{
    decode(input)
}

} // verus!
