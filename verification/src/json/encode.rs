//! JSON encoding of primitive values into a byte buffer.

use vstd::prelude::*;
use vstd::string::StringSliceAdditionalSpecFns;
use crate::bytes::{decimal, push_all};
use crate::decimal::itoa_i64;
use crate::array::{ArrayKey, PhpArray};
use crate::json::decode::{
    false_bytes, lemma_list_model_len, lemma_members_model_len, list_model, members_model, null_bytes, true_bytes,
    JsonModel, JsonValue,
};
use crate::string::SmartString;

verus! {

/// Lower-case hexadecimal digit of a nibble.
pub open spec fn hex_digit(d: u8) -> u8 {
    if d < 10 {
        (48 + d) as u8
    } else {
        (87 + d) as u8
    }
}

/// JSON escape of one byte of a string.
pub open spec fn escape_byte(b: u8) -> Seq<u8> {
    if b == 34 {
        seq![92u8, 34]
    } else if b == 92 {
        seq![92u8, 92]
    } else if b == 10 {
        seq![92u8, 110]
    } else if b == 13 {
        seq![92u8, 114]
    } else if b == 9 {
        seq![92u8, 116]
    } else if b < 32 {
        seq![92u8, 117, 48, 48, hex_digit(b / 16), hex_digit(b % 16)]
    } else {
        seq![b]
    }
}

/// JSON escape of a byte sequence.
pub open spec fn escape_seq(s: Seq<u8>) -> Seq<u8>
    decreases s.len(),
{
    if s.len() == 0 {
        Seq::empty()
    } else {
        escape_seq(s.drop_last()) + escape_byte(s.last())
    }
}

/// A JSON string literal for the bytes `s`: quotes around the escaped bytes.
pub open spec fn json_string(s: Seq<u8>) -> Seq<u8> {
    seq![34u8] + escape_seq(s) + seq![34u8]
}

/// Decimal text of a signed integer (`-` before negative numbers).
pub open spec fn signed_decimal(i: int) -> Seq<u8> {
    if i < 0 {
        seq![45u8] + decimal((-i) as nat)
    } else {
        decimal(i as nat)
    }
}

/// The keys are 0, 1, 2, ... in order: the array is written as a JSON array.
pub open spec fn sequential_keys<V>(e: Seq<(ArrayKey, V)>) -> bool {
    forall|i: int| 0 <= i < e.len() ==> (#[trigger] e[i].0 matches ArrayKey::Int(k) && k == i)
}

/// An object member name: an integer key in quotes, or a string key as a JSON string.
pub open spec fn key_text(k: ArrayKey) -> Seq<u8> {
    match k {
        ArrayKey::Int(i) => seq![34u8] + signed_decimal(i as int) + seq![34u8],
        ArrayKey::String(s) => json_string(s.spec_bytes()),
    }
}

/// The JSON text of a value: the literals, integers in decimal, other numbers as written,
/// strings escaped in quotes, arrays and objects with their items separated by commas.
pub open spec fn encoded(m: JsonModel) -> Seq<u8>
    decreases m,
{
    match m {
        JsonModel::Null => null_bytes(),
        JsonModel::Bool(b) => if b { true_bytes() } else { false_bytes() },
        JsonModel::Int(i) => signed_decimal(i as int),
        JsonModel::Float(t) => t,
        JsonModel::Str(s) => json_string(s),
        JsonModel::List(items) => seq![91u8] + encoded_items(items) + seq![93u8],
        JsonModel::Object(ms) => seq![123u8] + encoded_members(ms) + seq![125u8],
    }
}

/// The items of an array, separated by commas.
pub open spec fn encoded_items(s: Seq<JsonModel>) -> Seq<u8>
    decreases s,
{
    if s.len() == 0 {
        Seq::empty()
    } else if s.len() == 1 {
        encoded(s[0])
    } else {
        encoded(s[0]) + seq![44u8] + encoded_items(s.skip(1))
    }
}

/// The members of an object, each `"key":value`, separated by commas.
pub open spec fn encoded_members(s: Seq<(Seq<u8>, JsonModel)>) -> Seq<u8>
    decreases s,
{
    if s.len() == 0 {
        Seq::empty()
    } else if s.len() == 1 {
        json_string(s[0].0) + seq![58u8] + encoded(s[0].1)
    } else {
        json_string(s[0].0) + seq![58u8] + encoded(s[0].1) + seq![44u8] + encoded_members(s.skip(1))
    }
}

/// Adding an item at the end adds a comma (unless it is the first) and its text.
pub proof fn lemma_encoded_items_push(s: Seq<JsonModel>, x: JsonModel)
    ensures
        encoded_items(s.push(x)) == if s.len() == 0 {
            encoded(x)
        } else {
            encoded_items(s) + seq![44u8] + encoded(x)
        },
    decreases s.len(),
{
    let t = s.push(x);
    if s.len() == 0 {
        assert(t[0] == x);
    } else if s.len() == 1 {
        assert(t.skip(1) =~= seq![x]);
        assert(encoded_items(seq![x]) == encoded(x));
        assert(t[0] == s[0]);
        assert(encoded_items(t) =~= encoded_items(s) + seq![44u8] + encoded(x));
    } else {
        lemma_encoded_items_push(s.skip(1), x);
        assert(t[0] == s[0]);
        assert(t.skip(1) =~= s.skip(1).push(x));
        assert(encoded_items(t) =~= encoded_items(s) + seq![44u8] + encoded(x));
    }
}

/// Adding a member at the end adds a comma (unless it is the first) and its text.
pub proof fn lemma_encoded_members_push(s: Seq<(Seq<u8>, JsonModel)>, x: (Seq<u8>, JsonModel))
    ensures
        encoded_members(s.push(x)) == if s.len() == 0 {
            json_string(x.0) + seq![58u8] + encoded(x.1)
        } else {
            encoded_members(s) + seq![44u8] + json_string(x.0) + seq![58u8] + encoded(x.1)
        },
    decreases s.len(),
{
    let t = s.push(x);
    if s.len() == 0 {
        assert(t[0] == x);
    } else if s.len() == 1 {
        assert(t.skip(1) =~= seq![x]);
        assert(encoded_members(seq![x]) == json_string(x.0) + seq![58u8] + encoded(x.1));
        assert(t[0] == s[0]);
        assert(encoded_members(t) =~= encoded_members(s) + seq![44u8] + json_string(x.0) + seq![58u8] + encoded(x.1));
    } else {
        lemma_encoded_members_push(s.skip(1), x);
        assert(t[0] == s[0]);
        assert(t.skip(1) =~= s.skip(1).push(x));
        assert(encoded_members(t) =~= encoded_members(s) + seq![44u8] + json_string(x.0) + seq![58u8] + encoded(x.1));
    }
}

/// Append the escape of one byte.
fn push_escaped(buf: &mut Vec<u8>, b: u8)
    ensures
        final(buf)@ == old(buf)@ + escape_byte(b),
{
    if b == 34 {
        buf.push(92);
        buf.push(34);
    } else if b == 92 {
        buf.push(92);
        buf.push(92);
    } else if b == 10 {
        buf.push(92);
        buf.push(110);
    } else if b == 13 {
        buf.push(92);
        buf.push(114);
    } else if b == 9 {
        buf.push(92);
        buf.push(116);
    } else if b < 32 {
        buf.push(92);
        buf.push(117);
        buf.push(48);
        buf.push(48);
        let hi = b / 16;
        let lo = b % 16;
        buf.push(if hi < 10 { 48 + hi } else { 87 + hi });
        buf.push(if lo < 10 { 48 + lo } else { 87 + lo });
    } else {
        buf.push(b);
    }
    proof {
        assert(buf@ =~= old(buf)@ + escape_byte(b));
    }
}

/// Append `s` as a JSON string literal: quotes, with `"` `\` newline, carriage return and
/// tab escaped by a backslash and other control bytes as `\u00XX`.
pub fn write_string_escaped(buf: &mut Vec<u8>, s: &str)
    ensures
        final(buf)@ == old(buf)@ + json_string(s.spec_bytes()),
{
    let bytes = s.as_bytes();
    buf.push(34);
    let ghost start = buf@;
    let mut i: usize = 0;
    while i < bytes.len()
        invariant
            i <= bytes@.len(),
            buf@ == start + escape_seq(bytes@.take(i as int)),
        decreases bytes@.len() - i,
    {
        push_escaped(buf, bytes[i]);
        proof {
            assert(bytes@.take(i + 1).drop_last() =~= bytes@.take(i as int));
            assert(buf@ =~= start + escape_seq(bytes@.take(i + 1)));
        }
        i += 1;
    }
    buf.push(34);
    proof {
        assert(bytes@.take(bytes@.len() as int) =~= bytes@);
        assert(buf@ =~= old(buf)@ + json_string(s.spec_bytes()));
    }
}

/// Append the decimal text of an integer.
pub fn write_int_fast(buf: &mut Vec<u8>, i: i64)
    ensures
        final(buf)@ == old(buf)@ + signed_decimal(i as int),
{
    let digits = itoa_i64(i);
    push_all(buf, digits.as_slice());
}

/// Output buffer of JSON text.
pub struct JsonEncoder {
    buf: Vec<u8>,
}

impl JsonEncoder {
    /// The text written so far.
    pub closed spec fn view(&self) -> Seq<u8> {
        self.buf@
    }

    /// An empty encoder.
    pub fn new() -> (r: Self)
        ensures
            r.view() == Seq::<u8>::empty(),
    {
        Self::with_capacity(256)
    }

    /// An empty encoder with room for `capacity` bytes.
    pub fn with_capacity(capacity: usize) -> (r: Self)
        ensures
            r.view() == Seq::<u8>::empty(),
    {
        JsonEncoder { buf: Vec::with_capacity(capacity) }
    }

    /// Forget the text written so far.
    pub fn clear(&mut self)
        ensures
            final(self).view() == Seq::<u8>::empty(),
    {
        self.buf.clear();
    }

    /// Append one byte (a structural character such as `[`, `,` or `:`).
    pub fn write_byte(&mut self, b: u8)
        ensures
            final(self).view() == old(self).view().push(b),
    {
        self.buf.push(b);
    }

    /// Append `null`.
    pub fn write_null(&mut self)
        ensures
            final(self).view() == old(self).view() + seq![110u8, 117, 108, 108],
    {
        self.buf.push(110);
        self.buf.push(117);
        self.buf.push(108);
        self.buf.push(108);
        proof {
            assert(self.view() =~= old(self).view() + seq![110u8, 117, 108, 108]);
        }
    }

    /// Append `true` or `false`.
    pub fn write_bool(&mut self, b: bool)
        ensures
            final(self).view() == old(self).view() + (if b {
                seq![116u8, 114, 117, 101]
            } else {
                seq![102u8, 97, 108, 115, 101]
            }),
    {
        if b {
            self.buf.push(116);
            self.buf.push(114);
            self.buf.push(117);
            self.buf.push(101);
        } else {
            self.buf.push(102);
            self.buf.push(97);
            self.buf.push(108);
            self.buf.push(115);
            self.buf.push(101);
        }
        proof {
            assert(self.view() =~= old(self).view() + (if b {
                seq![116u8, 114, 117, 101]
            } else {
                seq![102u8, 97, 108, 115, 101]
            }));
        }
    }

    /// Append an integer; 0 to 99 are written digit by digit, others through itoa.
    pub fn write_int(&mut self, i: i64)
        ensures
            final(self).view() == old(self).view() + signed_decimal(i as int),
    {
        proof {
            reveal_with_fuel(decimal, 3);
        }
        if i >= 0 && i < 100 {
            if i < 10 {
                self.buf.push(48 + i as u8);
            } else {
                self.buf.push(48 + (i / 10) as u8);
                self.buf.push(48 + (i % 10) as u8);
            }
            proof {
                assert(self.view() =~= old(self).view() + signed_decimal(i as int));
            }
            return;
        }
        write_int_fast(&mut self.buf, i);
    }

    /// Append a JSON string literal.
    pub fn write_string(&mut self, s: &str)
        ensures
            final(self).view() == old(self).view() + json_string(s.spec_bytes()),
    {
        write_string_escaped(&mut self.buf, s);
    }

    /// Append raw bytes (already JSON text).
    pub fn write_raw(&mut self, bytes: &[u8])
        ensures
            final(self).view() == old(self).view() + bytes@,
    {
        push_all(&mut self.buf, bytes);
    }

    /// Whether the array's keys are 0, 1, 2, ... in order.
    pub fn is_sequential_array<V>(&self, arr: &PhpArray<V>) -> (r: bool)
        ensures
            r == sequential_keys(arr.entries()),
    {
        let keys = arr.keys();
        let n = keys.len();
        let mut i: usize = 0;
        while i < n
            invariant
                n == keys@.len(),
                n == arr.entries().len(),
                forall|j: int| 0 <= j < n ==> *keys@[j] == arr.entries()[j].0,
                0 <= i <= n,
                forall|j: int| 0 <= j < i ==> (#[trigger] arr.entries()[j].0 matches ArrayKey::Int(k) && k == j),
            decreases n - i,
        {
            match keys[i] {
                ArrayKey::Int(k) => {
                    if *k < 0 || *k as u64 != i as u64 {
                        return false;
                    }
                },
                ArrayKey::String(_) => {
                    return false;
                },
            }
            i = i + 1;
        }
        true
    }

    /// Append an object member name (see `key_text`).
    pub fn write_key(&mut self, key: &ArrayKey)
        ensures
            final(self).view() == old(self).view() + key_text(*key),
    {
        match key {
            ArrayKey::Int(i) => {
                self.buf.push(34);
                let ghost mid = self.buf@;
                self.write_int(*i);
                self.buf.push(34);
                proof {
                    assert(self.view() =~= old(self).view() + key_text(*key));
                }
            },
            ArrayKey::String(s) => {
                self.write_string(s.as_str());
            },
        }
    }

    /// Append the JSON text of a value.
    pub fn write_value(&mut self, value: &JsonValue)
        ensures
            final(self).view() == old(self).view() + encoded(value.model()),
        decreases value,
    {
        match value {
            JsonValue::Null => self.write_null(),
            JsonValue::Bool(b) => self.write_bool(*b),
            JsonValue::Int(i) => self.write_int(*i),
            JsonValue::Float(text) => self.write_raw(text.as_str().as_bytes()),
            JsonValue::Str(text) => self.write_string(text.as_str()),
            JsonValue::List(items) => self.write_json_array(items),
            JsonValue::Object(members) => self.write_json_object(members),
        }
    }

    /// Append an array: `[`, the items separated by commas, `]`.
    fn write_json_array(&mut self, items: &Vec<JsonValue>)
        ensures
            final(self).view() == old(self).view() + seq![91u8] + encoded_items(list_model(items@)) + seq![93u8],
        decreases items,
    {
        proof {
            lemma_list_model_len(items@);
        }
        self.buf.push(91);
        let ghost start = self.buf@;
        let n = items.len();
        let mut i: usize = 0;
        while i < n
            invariant
                n == items@.len(),
                0 <= i <= n,
                list_model(items@).len() == n,
                forall|j: int| 0 <= j < n ==> #[trigger] list_model(items@)[j] == items@[j].model(),
                self.buf@ == start + encoded_items(list_model(items@).take(i as int)),
            decreases n - i,
        {
            let ghost before = self.buf@;
            if i > 0 {
                self.buf.push(44);
            }
            proof {
                assert(decreases_to!(items => items@[i as int]));
            }
            self.write_value(&items[i]);
            proof {
                let ms = list_model(items@);
                lemma_encoded_items_push(ms.take(i as int), ms[i as int]);
                assert(ms.take(i + 1) =~= ms.take(i as int).push(ms[i as int]));
                assert(self.buf@ =~= start + encoded_items(ms.take(i + 1)));
            }
            i = i + 1;
        }
        self.buf.push(93);
        proof {
            assert(list_model(items@).take(n as int) =~= list_model(items@));
            assert(self.view() =~= old(self).view() + seq![91u8] + encoded_items(list_model(items@)) + seq![93u8]);
        }
    }

    /// Append an object: `{`, the members `"key":value` separated by commas, `}`.
    fn write_json_object(&mut self, members: &Vec<(SmartString, JsonValue)>)
        ensures
            final(self).view() == old(self).view() + seq![123u8] + encoded_members(members_model(members@))
                + seq![125u8],
        decreases members,
    {
        proof {
            lemma_members_model_len(members@);
        }
        self.buf.push(123);
        let ghost start = self.buf@;
        let n = members.len();
        let mut i: usize = 0;
        while i < n
            invariant
                n == members@.len(),
                0 <= i <= n,
                members_model(members@).len() == n,
                forall|j: int| 0 <= j < n ==> #[trigger] members_model(members@)[j] == (members@[j].0.spec_bytes(), members@[j].1.model()),
                self.buf@ == start + encoded_members(members_model(members@).take(i as int)),
            decreases n - i,
        {
            if i > 0 {
                self.buf.push(44);
            }
            let member = &members[i];
            self.write_string(member.0.as_str());
            self.buf.push(58);
            proof {
                assert(decreases_to!(members => members@[i as int].1));
            }
            self.write_value(&member.1);
            proof {
                let ms = members_model(members@);
                lemma_encoded_members_push(ms.take(i as int), ms[i as int]);
                assert(ms.take(i + 1) =~= ms.take(i as int).push(ms[i as int]));
                assert(self.buf@ =~= start + encoded_members(ms.take(i + 1)));
            }
            i = i + 1;
        }
        self.buf.push(125);
        proof {
            assert(members_model(members@).take(n as int) =~= members_model(members@));
            assert(self.view() =~= old(self).view() + seq![123u8] + encoded_members(members_model(members@))
                + seq![125u8]);
        }
    }

    /// The text written so far.
    pub fn as_bytes(&self) -> (r: &[u8])
        ensures
            r@ == self.view(),
    {
        self.buf.as_slice()
    }

    /// The encoded bytes.
    pub fn into_bytes(self) -> (r: Vec<u8>)
        ensures
            r@ == self.view(),
    {
        self.buf
    }
}

impl Default for JsonEncoder {
    fn default() -> (r: Self)
        ensures
            r.view() == Seq::<u8>::empty(),
    {
        JsonEncoder::new()
    }
}

} // verus!
