//! What the decoder reads back of what the encoder writes.

use vstd::prelude::*;
use vstd::utf8::encode_scalar;
use crate::bytes::{decimal, digits_value, is_digit, lemma_decimal, lemma_decimal_lead};
use crate::json::decode::{
    after_frac, after_int, after_sign, code_bytes, decoded_from, digits_end, escaped, exp_start, float_ok, has_exp, has_frac,
    lemma_digits_end, number_end,
    hex4, hex_digits, hex_value, int_value, items_at, lemma_obj_set_new, members_at, number_at, string_at,
    string_end, unescape, value_at, JsonModel,
};
use crate::json::encode::{
    encoded, encoded_items, encoded_members, escape_byte, escape_seq, hex_digit, json_string, signed_decimal,
};
use crate::json::error::JsonError;
use crate::json::simd::{is_json_ws, skip_ws};

verus! {

proof fn lemma_escape_seq_front(s: Seq<u8>)
    requires
        s.len() > 0,
    ensures
        escape_seq(s) == escape_byte(s[0]) + escape_seq(s.skip(1)),
    decreases s.len(),
{
    if s.len() == 1 {
        assert(s.drop_last() =~= Seq::<u8>::empty());
        assert(s.skip(1) =~= Seq::<u8>::empty());
        assert(escape_seq(s) =~= escape_byte(s[0]) + escape_seq(s.skip(1)));
    } else {
        lemma_escape_seq_front(s.drop_last());
        assert(s.drop_last().skip(1) =~= s.skip(1).drop_last());
        assert(s.skip(1).last() == s.last());
        assert(escape_seq(s) =~= escape_byte(s[0]) + escape_seq(s.skip(1)));
    }
}

proof fn lemma_hex_digit(d: u8)
    requires
        d < 16,
    ensures
        hex_value(hex_digit(d)) == Some(d as u16),
        hex_digit(d) != 34 && hex_digit(d) != 92 && hex_digit(d) != 43,
{
}

/// An escaped byte, followed by anything, unescapes to the byte.
proof fn lemma_unescape_one(c: u8, t: Seq<u8>)
    ensures
        unescape(escape_byte(c) + t) == seq![c] + unescape(t),
{
    let s = escape_byte(c) + t;
    if c == 34 || c == 92 || c == 10 || c == 13 || c == 9 {
        assert(s.skip(2) =~= t);
    } else if c < 32 {
        let h = s.subrange(2, 6);
        lemma_hex_digit(c / 16);
        lemma_hex_digit(c % 16);
        let h1 = seq![48u8];
        let h2 = seq![48u8, 48];
        let h3 = seq![48u8, 48, hex_digit(c / 16)];
        assert(h =~= h3.push(hex_digit(c % 16)));
        assert(h1.drop_last() =~= Seq::<u8>::empty());
        assert(hex_digits(Seq::<u8>::empty()) == Some(0u16));
        assert(hex_value(h1.last()) == Some(0u16));
        assert(hex_digits(h1) == Some(0u16));
        assert(h2.drop_last() =~= h1);
        assert(hex_digits(h2) == Some(0u16));
        assert(h3.drop_last() =~= h2);
        assert(hex_digits(h3) == Some((c / 16) as u16));
        assert(h.drop_last() =~= h3);
        assert(hex_digits(h) == Some(c as u16));
        assert(hex4(h) == Some(c as u16));
        assert((c as u32) & 0x7F == c as u32) by (bit_vector)
            requires
                c < 32,
        ;
        assert(code_bytes(c as u16) =~= seq![c]);
        assert(s.skip(6) =~= t);
    } else {
        assert(s.skip(1) =~= t);
    }
}

proof fn lemma_unescape_escape(s: Seq<u8>)
    ensures
        unescape(escape_seq(s)) == s,
    decreases s.len(),
{
    if s.len() == 0 {
        assert(escape_seq(s) =~= Seq::<u8>::empty());
    } else {
        lemma_escape_seq_front(s);
        lemma_unescape_one(s[0], escape_seq(s.skip(1)));
        lemma_unescape_escape(s.skip(1));
        assert(seq![s[0]] + s.skip(1) =~= s);
    }
}

/// The scan for the closing quote passes over the escaped bytes.
proof fn lemma_scan_escaped(b: Seq<u8>, i: int, s: Seq<u8>)
    requires
        0 <= i,
        i + escape_seq(s).len() < b.len(),
        b.subrange(i, i + escape_seq(s).len()) == escape_seq(s),
        b[i + escape_seq(s).len()] == 34,
    ensures
        string_end(b, i) == Some(i + escape_seq(s).len()),
    decreases s.len(),
{
    let e = escape_seq(s);
    if s.len() == 0 {
        assert(e =~= Seq::<u8>::empty());
    } else {
        lemma_escape_seq_front(s);
        let c = s[0];
        let eb = escape_byte(c);
        let rest = escape_seq(s.skip(1));
        let k = eb.len() as int;
        assert(b.subrange(i + k, i + k + rest.len()) =~= rest) by {
            assert forall|j: int| 0 <= j < rest.len() implies b.subrange(i + k, i + k + rest.len())[j] == rest[j] by {
                assert(b.subrange(i, i + e.len())[k + j] == e[k + j]);
            }
        }
        assert forall|j: int| 0 <= j < k implies b[i + j] == eb[j] by {
            assert(b.subrange(i, i + e.len())[j] == e[j]);
        }
        lemma_scan_escaped(b, i + k, s.skip(1));
        if c == 34 || c == 92 || c == 10 || c == 13 || c == 9 {
            assert(b[i] == 92);
        } else if c < 32 {
            lemma_hex_digit(c / 16);
            lemma_hex_digit(c % 16);
            assert(b[i] == 92);
            assert(b[i + 2] == 48 && b[i + 3] == 48);
            assert(string_end(b, i + 5) == string_end(b, i + 6));
            assert(string_end(b, i + 4) == string_end(b, i + 5));
            assert(string_end(b, i + 3) == string_end(b, i + 4));
            assert(string_end(b, i + 2) == string_end(b, i + 3));
        } else {
            assert(eb =~= seq![c]);
            assert(b[i + 0] == eb[0]);
        }
    }
}

/// A string written by the encoder is read back as the same bytes, taking the whole text.
pub proof fn law_string_roundtrip(s: Seq<u8>)
    ensures
        string_at(json_string(s), 0) == Ok::<(Seq<u8>, int), JsonError>((s, json_string(s).len() as int)),
        value_at(json_string(s), 0) == Ok::<(JsonModel, int), JsonError>(
            (JsonModel::Str(s), json_string(s).len() as int),
        ),
        decoded_from(json_string(s), 0) == Ok::<JsonModel, JsonError>(JsonModel::Str(s)),
{
    let b = json_string(s);
    let e = escape_seq(s);
    assert(b.subrange(1, 1 + e.len() as int) =~= e);
    assert(b[1 + e.len() as int] == 34);
    lemma_scan_escaped(b, 1, s);
    lemma_unescape_escape(s);
    assert(skip_ws(b, 0) == 0);
    assert(skip_ws(b, b.len() as int) == b.len());
}

proof fn lemma_digits_end_all(b: Seq<u8>, i: int)
    requires
        0 <= i <= b.len(),
        forall|k: int| i <= k < b.len() ==> is_digit(#[trigger] b[k]),
    ensures
        digits_end(b, i) == b.len(),
    decreases b.len() - i,
{
    if i < b.len() {
        lemma_digits_end_all(b, i + 1);
    }
}

/// The value ends at `q`: the text ends there, or a comma or a closing bracket or brace
/// follows.
pub open spec fn ends_value(b: Seq<u8>, q: int) -> bool {
    q == b.len() || (0 <= q < b.len() && (b[q] == 44 || b[q] == 93 || b[q] == 125))
}

/// Scanning digits inside a copy of `t` at `p` in `b` stops where it stops in `t`.
proof fn lemma_digits_end_local(b: Seq<u8>, p: int, t: Seq<u8>, k: int)
    requires
        0 <= p,
        p + t.len() <= b.len(),
        b.subrange(p, p + t.len()) == t,
        ends_value(b, p + t.len()),
        0 <= k <= t.len(),
    ensures
        digits_end(b, p + k) == p + digits_end(t, k),
    decreases t.len() - k,
{
    if k < t.len() {
        assert(b[p + k] == t[k]);
        lemma_digits_end_local(b, p, t, k + 1);
    }
}

/// Reading a number inside a copy of `t` at `p` in `b` reads what it reads in `t`, when
/// a comma, a closing bracket or brace, or the end follows.
proof fn lemma_number_local(b: Seq<u8>, p: int, t: Seq<u8>)
    requires
        0 <= p,
        t.len() > 0,
        p + t.len() <= b.len(),
        b.subrange(p, p + t.len()) == t,
        ends_value(b, p + t.len()),
    ensures
        after_sign(b, p) == p + after_sign(t, 0),
        after_int(b, p) == p + after_int(t, 0),
        has_frac(b, p) == has_frac(t, 0),
        after_frac(b, p) == p + after_frac(t, 0),
        has_exp(b, p) == has_exp(t, 0),
        has_exp(t, 0) ==> exp_start(b, p) == p + exp_start(t, 0),
        number_end(b, p) == p + number_end(t, 0),
        float_ok(b, p) == float_ok(t, 0),
{
    let n = t.len() as int;
    assert forall|k: int| 0 <= k < n implies b[p + k] == t[k] by {
        assert(b.subrange(p, p + n)[k] == t[k]);
    }
    assert(b[p] == t[0]);
    let a = after_sign(t, 0);
    if a < n {
        assert(b[p + a] == t[a]);
    }
    lemma_digits_end_local(b, p, t, a);
    let ai = after_int(t, 0);
    lemma_digits_end(t, a);
    assert(ai <= n);
    if ai < n {
        assert(b[p + ai] == t[ai]);
        lemma_digits_end_local(b, p, t, ai + 1);
        lemma_digits_end(t, ai + 1);
    }
    let af = after_frac(t, 0);
    assert(af <= n);
    if af < n {
        assert(b[p + af] == t[af]);
    }
    if has_exp(t, 0) {
        let q = af + 1;
        if q < n {
            assert(b[p + q] == t[q]);
        }
        let es = exp_start(t, 0);
        assert(es <= n);
        lemma_digits_end_local(b, p, t, es);
    }
}

/// What the reader finds in the text of an integer: a sign when negative, then digits
/// to the end, no fraction and no exponent, and the integer itself.
proof fn lemma_int_text(i: i64)
    ensures
        signed_decimal(i as int).len() > 0,
        signed_decimal(i as int)[0] == 45 || is_digit(signed_decimal(i as int)[0]),
        after_int(signed_decimal(i as int), 0) == signed_decimal(i as int).len(),
        !has_frac(signed_decimal(i as int), 0),
        !has_exp(signed_decimal(i as int), 0),
        int_value(signed_decimal(i as int), 0) == Some(i),
        number_at(signed_decimal(i as int), 0) == Ok::<(JsonModel, int), JsonError>(
            (JsonModel::Int(i), signed_decimal(i as int).len() as int),
        ),
{
    let b = signed_decimal(i as int);
    let n: nat = if i < 0 { (-(i as int)) as nat } else { i as nat };
    let d = decimal(n);
    lemma_decimal(n);
    let p1: int = if i < 0 { 1 } else { 0 };
    assert(b.subrange(p1, b.len() as int) =~= d);
    assert forall|k: int| p1 <= k < b.len() implies is_digit(#[trigger] b[k]) by {
        assert(b[k] == d[k - p1]);
    }
    assert(after_sign(b, 0) == p1);
    if n == 0 {
        assert(d =~= seq![48u8]);
        assert(after_int(b, 0) == b.len());
    } else {
        lemma_decimal_lead(n);
        assert(b[p1] == d[0]);
        lemma_digits_end_all(b, p1);
        assert(after_int(b, 0) == b.len());
    }
    assert(!has_frac(b, 0));
    assert(after_frac(b, 0) == b.len());
    assert(!has_exp(b, 0));
    assert(int_value(b, 0) == Some(i));
    assert(b[0] == 45 || is_digit(b[0])) by {
        if i >= 0 {
            assert(b[0] == d[0]);
        }
    }
}

/// An integer written by the encoder is read back as the same integer, taking the whole
/// text.
pub proof fn law_int_roundtrip(i: i64)
    ensures
        value_at(signed_decimal(i as int), 0) == Ok::<(JsonModel, int), JsonError>(
            (JsonModel::Int(i), signed_decimal(i as int).len() as int),
        ),
        decoded_from(signed_decimal(i as int), 0) == Ok::<JsonModel, JsonError>(JsonModel::Int(i)),
{
    let b = signed_decimal(i as int);
    lemma_int_text(i);
    assert(skip_ws(b, 0) == 0);
    assert(skip_ws(b, b.len() as int) == b.len());
}

/// The text of an integer inside a longer text reads as the integer.
proof fn lemma_int_at(b: Seq<u8>, p: int, i: i64)
    requires
        0 <= p,
        p + signed_decimal(i as int).len() <= b.len(),
        b.subrange(p, p + signed_decimal(i as int).len()) == signed_decimal(i as int),
        ends_value(b, p + signed_decimal(i as int).len()),
    ensures
        number_at(b, p) == Ok::<(JsonModel, int), JsonError>(
            (JsonModel::Int(i), p + signed_decimal(i as int).len()),
        ),
{
    let t = signed_decimal(i as int);
    lemma_int_text(i);
    lemma_number_local(b, p, t);
    let a = after_sign(t, 0);
    assert(b.subrange(after_sign(b, p), after_int(b, p)) =~= t.subrange(a, t.len() as int)) by {
        assert forall|k: int| 0 <= k < t.len() - a implies b.subrange(after_sign(b, p), after_int(b, p))[k]
            == t.subrange(a, t.len() as int)[k] by {
            assert(b.subrange(p, p + t.len())[a + k] == t[a + k]);
        }
    }
}

/// A number text that reads back as itself: it starts with `-` or a digit, it has a
/// fraction or an exponent, and the number read from it takes the whole text.
pub open spec fn float_text(t: Seq<u8>) -> bool {
    &&& t.len() > 0
    &&& (t[0] == 45 || is_digit(t[0]))
    &&& number_at(t, 0) == Ok::<(JsonModel, int), JsonError>((JsonModel::Float(t), t.len() as int))
}

/// No key occurs twice among the members.
pub open spec fn keys_distinct(ms: Seq<(Seq<u8>, JsonModel)>) -> bool {
    forall|i: int, j: int| 0 <= i < j < ms.len() ==> ms[i].0 != ms[j].0
}

/// A value the reader gets back from its text: its number texts read back as themselves
/// and no object has a key twice.
pub open spec fn encodable(m: JsonModel) -> bool
    decreases m,
{
    match m {
        JsonModel::Float(t) => float_text(t),
        JsonModel::List(items) => forall|i: int| 0 <= i < items.len() ==> encodable(#[trigger] items[i]),
        JsonModel::Object(ms) => keys_distinct(ms) && forall|i: int| 0 <= i < ms.len() ==> encodable(#[trigger] ms[i].1),
        _ => true,
    }
}

/// The text of a string inside a longer text reads as the string.
proof fn lemma_string_at(b: Seq<u8>, p: int, s: Seq<u8>)
    requires
        0 <= p,
        p + json_string(s).len() <= b.len(),
        b.subrange(p, p + json_string(s).len()) == json_string(s),
    ensures
        string_at(b, p) == Ok::<(Seq<u8>, int), JsonError>((s, p + json_string(s).len())),
{
    let js = json_string(s);
    let e = escape_seq(s);
    assert forall|k: int| 0 <= k < js.len() implies b[p + k] == js[k] by {
        assert(b.subrange(p, p + js.len())[k] == js[k]);
    }
    assert(b.subrange(p + 1, p + 1 + e.len()) =~= e) by {
        assert forall|k: int| 0 <= k < e.len() implies b.subrange(p + 1, p + 1 + e.len())[k] == e[k] by {
            assert(b[p + 1 + k] == js[1 + k]);
        }
    }
    assert(b[p + 1 + e.len()] == js[1 + e.len() as int]);
    lemma_scan_escaped(b, p + 1, s);
    lemma_unescape_escape(s);
}

/// The text of every value starts with a byte that is neither a blank nor a separator.
proof fn lemma_first_byte(m: JsonModel)
    requires
        encodable(m),
    ensures
        encoded(m).len() > 0,
        !is_json_ws(encoded(m)[0]),
        encoded(m)[0] != 44 && encoded(m)[0] != 58 && encoded(m)[0] != 93 && encoded(m)[0] != 125,
{
    match m {
        JsonModel::Int(i) => {
            lemma_int_text(i);
        },
        _ => {},
    }
}

/// A value's text inside a longer text, followed by a separator or the end, reads as the
/// value.
proof fn lemma_value_rt(b: Seq<u8>, p: int, m: JsonModel)
    requires
        encodable(m),
        0 <= p,
        p + encoded(m).len() <= b.len(),
        b.subrange(p, p + encoded(m).len()) == encoded(m),
        ends_value(b, p + encoded(m).len()),
    ensures
        value_at(b, p) == Ok::<(JsonModel, int), JsonError>((m, p + encoded(m).len())),
    decreases m,
{
    let e = encoded(m);
    let n = e.len() as int;
    lemma_first_byte(m);
    assert forall|k: int| 0 <= k < n implies b[p + k] == e[k] by {
        assert(b.subrange(p, p + n)[k] == e[k]);
    }
    assert(skip_ws(b, p) == p);
    match m {
        JsonModel::Null => {},
        JsonModel::Bool(x) => {},
        JsonModel::Int(i) => {
            lemma_int_at(b, p, i);
        },
        JsonModel::Float(t) => {
            lemma_number_local(b, p, t);
            assert(b.subrange(p, number_end(b, p)) == t);
        },
        JsonModel::Str(s) => {
            lemma_string_at(b, p, s);
        },
        JsonModel::List(items) => {
            let ei = encoded_items(items);
            if items.len() == 0 {
                assert(b[p + 1] == e[1]);
                assert(items =~= Seq::<JsonModel>::empty());
            } else {
                assert(b.subrange(p + 1, p + 1 + ei.len()) =~= ei) by {
                    assert forall|k: int| 0 <= k < ei.len() implies b.subrange(p + 1, p + 1 + ei.len())[k] == ei[k] by {
                        assert(b[p + 1 + k] == e[1 + k]);
                    }
                }
                assert(b[p + 1 + ei.len()] == e[1 + ei.len() as int]);
                lemma_items_rt(b, p + 1, Seq::empty(), items);
                lemma_items_first(items);
                assert(b[p + 1] == ei[0]);
                assert(Seq::<JsonModel>::empty() + items =~= items);
            }
        },
        JsonModel::Object(ms) => {
            let em = encoded_members(ms);
            if ms.len() == 0 {
                assert(b[p + 1] == e[1]);
                assert(ms =~= Seq::<(Seq<u8>, JsonModel)>::empty());
            } else {
                assert(b.subrange(p + 1, p + 1 + em.len()) =~= em) by {
                    assert forall|k: int| 0 <= k < em.len() implies b.subrange(p + 1, p + 1 + em.len())[k] == em[k] by {
                        assert(b[p + 1 + k] == e[1 + k]);
                    }
                }
                assert(b[p + 1 + em.len()] == e[1 + em.len() as int]);
                assert(Seq::<(Seq<u8>, JsonModel)>::empty() + ms =~= ms);
                lemma_members_rt(b, p + 1, Seq::empty(), ms);
                assert(b[p + 1] == em[0]);
            }
        },
    }
}

/// The items' text starts with the first item's text.
proof fn lemma_items_first(s: Seq<JsonModel>)
    requires
        s.len() > 0,
        forall|k: int| 0 <= k < s.len() ==> encodable(#[trigger] s[k]),
    ensures
        encoded_items(s).len() > 0,
        encoded_items(s)[0] == encoded(s[0])[0],
        !is_json_ws(encoded_items(s)[0]),
        encoded_items(s)[0] != 93,
{
    assert(encodable(s[0]));
    lemma_first_byte(s[0]);
}

/// The items of an array from `i` on, followed by `]`, read as those items after `acc`.
proof fn lemma_items_rt(b: Seq<u8>, i: int, acc: Seq<JsonModel>, s: Seq<JsonModel>)
    requires
        s.len() > 0,
        forall|k: int| 0 <= k < s.len() ==> encodable(#[trigger] s[k]),
        0 <= i,
        i + encoded_items(s).len() < b.len(),
        b.subrange(i, i + encoded_items(s).len()) == encoded_items(s),
        b[i + encoded_items(s).len()] == 93,
    ensures
        items_at(b, i, acc) == Ok::<(JsonModel, int), JsonError>(
            (JsonModel::List(acc + s), i + encoded_items(s).len() + 1),
        ),
    decreases s,
{
    let ei = encoded_items(s);
    let x = s[0];
    let ex = encoded(x);
    assert(encodable(x));
    assert forall|k: int| 0 <= k < ei.len() implies b[i + k] == ei[k] by {
        assert(b.subrange(i, i + ei.len())[k] == ei[k]);
    }
    assert(b.subrange(i, i + ex.len()) =~= ex) by {
        assert forall|k: int| 0 <= k < ex.len() implies b.subrange(i, i + ex.len())[k] == ex[k] by {
            assert(b[i + k] == ei[k]);
        }
    }
    if s.len() == 1 {
        lemma_value_rt(b, i, x);
        assert(acc.push(x) =~= acc + s);
    } else {
        let rest = encoded_items(s.skip(1));
        assert(ei == ex + seq![44u8] + rest);
        assert(b[i + ex.len()] == ei[ex.len() as int]);
        lemma_value_rt(b, i, x);
        let r = i + ex.len();
        assert(skip_ws(b, r) == r);
        assert(b.subrange(r + 1, r + 1 + rest.len()) =~= rest) by {
            assert forall|k: int| 0 <= k < rest.len() implies b.subrange(r + 1, r + 1 + rest.len())[k] == rest[k] by {
                assert(b[i + ex.len() + 1 + k] == ei[ex.len() + 1 + k]);
            }
        }
        assert forall|k: int| 0 <= k < s.skip(1).len() implies encodable(#[trigger] s.skip(1)[k]) by {
            assert(s.skip(1)[k] == s[k + 1]);
        }
        lemma_items_rt(b, r + 1, acc.push(x), s.skip(1));
        assert(acc.push(x) + s.skip(1) =~= acc + s);
    }
}

/// The members of an object from `i` on, followed by `}`, read as those members after
/// `acc`, when no key occurs twice.
proof fn lemma_members_rt(b: Seq<u8>, i: int, acc: Seq<(Seq<u8>, JsonModel)>, s: Seq<(Seq<u8>, JsonModel)>)
    requires
        s.len() > 0,
        forall|k: int| 0 <= k < s.len() ==> encodable(#[trigger] s[k].1),
        keys_distinct(acc + s),
        0 <= i,
        i + encoded_members(s).len() < b.len(),
        b.subrange(i, i + encoded_members(s).len()) == encoded_members(s),
        b[i + encoded_members(s).len()] == 125,
    ensures
        members_at(b, i, acc) == Ok::<(JsonModel, int), JsonError>(
            (JsonModel::Object(acc + s), i + encoded_members(s).len() + 1),
        ),
    decreases s,
{
    let em = encoded_members(s);
    let x = s[0];
    let js = json_string(x.0);
    let ev = encoded(x.1);
    assert(encodable(x.1));
    assert forall|k: int| 0 <= k < em.len() implies b[i + k] == em[k] by {
        assert(b.subrange(i, i + em.len())[k] == em[k]);
    }
    assert(em.subrange(0, (js.len() + 1 + ev.len()) as int) =~= js + seq![58u8] + ev);
    assert(b.subrange(i, i + js.len()) =~= js) by {
        assert forall|k: int| 0 <= k < js.len() implies b.subrange(i, i + js.len())[k] == js[k] by {
            assert(b[i + k] == em[k]);
            assert(em[k] == (js + seq![58u8] + ev)[k]);
        }
    }
    lemma_string_at(b, i, x.0);
    let k1 = i + js.len();
    assert(b[k1] == em[js.len() as int]);
    assert(b[i] == em[0]);
    assert(skip_ws(b, i) == i);
    assert(skip_ws(b, k1) == k1);
    let v0 = k1 + 1;
    assert(b.subrange(v0, v0 + ev.len()) =~= ev) by {
        assert forall|k: int| 0 <= k < ev.len() implies b.subrange(v0, v0 + ev.len())[k] == ev[k] by {
            assert(b[v0 + k] == em[js.len() + 1 + k]);
            assert(em[js.len() + 1 + k] == (js + seq![58u8] + ev)[js.len() + 1 + k]);
        }
    }
    assert forall|j: int| 0 <= j < acc.len() implies acc[j].0 != x.0 by {
        assert((acc + s)[j] == acc[j]);
        assert((acc + s)[acc.len() as int] == x);
    }
    lemma_obj_set_new(acc, x.0, x.1);
    let r = v0 + ev.len();
    if s.len() == 1 {
        assert(em == js + seq![58u8] + ev);
        assert(b[r] == 125);
        lemma_value_rt(b, v0, x.1);
        assert(skip_ws(b, r) == r);
        assert(acc.push(x) =~= acc + s);
    } else {
        let rest = encoded_members(s.skip(1));
        assert(em == js + seq![58u8] + ev + seq![44u8] + rest);
        assert(b[r] == em[(js.len() + 1 + ev.len()) as int]);
        lemma_value_rt(b, v0, x.1);
        assert(skip_ws(b, r) == r);
        assert(b.subrange(r + 1, r + 1 + rest.len()) =~= rest) by {
            assert forall|k: int| 0 <= k < rest.len() implies b.subrange(r + 1, r + 1 + rest.len())[k] == rest[k] by {
                assert(b[r + 1 + k] == em[js.len() + 1 + ev.len() + 1 + k]);
            }
        }
        assert forall|k: int| 0 <= k < s.skip(1).len() implies encodable(#[trigger] s.skip(1)[k].1) by {
            assert(s.skip(1)[k] == s[k + 1]);
        }
        assert(acc.push(x) + s.skip(1) =~= acc + s);
        lemma_members_rt(b, r + 1, acc.push(x), s.skip(1));
    }
}

/// A value written by the encoder is read back as the same value, taking the whole
/// text, when its number texts read back as themselves and no object repeats a key.
pub proof fn law_value_roundtrip(m: JsonModel)
    requires
        encodable(m),
    ensures
        value_at(encoded(m), 0) == Ok::<(JsonModel, int), JsonError>((m, encoded(m).len() as int)),
        decoded_from(encoded(m), 0) == Ok::<JsonModel, JsonError>(m),
{
    let b = encoded(m);
    assert(b.subrange(0, b.len() as int) =~= b);
    lemma_value_rt(b, 0, m);
    assert(skip_ws(b, b.len() as int) == b.len());
}

} // verus!
