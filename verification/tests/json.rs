use phprs::array::{ArrayKey, PhpArray};
use phprs::json::encode::JsonEncoder;
use phprs::json::decode::{decode, JsonDecoder, JsonValue};
use phprs::json::error::JsonError;
use phprs::string::SmartString;

#[derive(Debug)]
enum Php {
    Null,
    Bool(bool),
    Int(i64),
    Float(f64),
    Str(String),
    Array(Box<PhpArray<Php>>),
}

impl PartialEq for Php {
    fn eq(&self, other: &Php) -> bool {
        match (self, other) {
            (Php::Null, Php::Null) => true,
            (Php::Bool(a), Php::Bool(b)) => a == b,
            (Php::Int(a), Php::Int(b)) => a == b,
            (Php::Float(a), Php::Float(b)) => a == b,
            (Php::Str(a), Php::Str(b)) => a == b,
            _ => false,
        }
    }
}

fn string(s: &str) -> Php {
    Php::Str(s.to_string())
}

fn php(v: JsonValue) -> Php {
    match v {
        JsonValue::Null => Php::Null,
        JsonValue::Bool(b) => Php::Bool(b),
        JsonValue::Int(i) => Php::Int(i),
        JsonValue::Float(t) => Php::Float(t.parse::<f64>().unwrap()),
        JsonValue::Str(s) => Php::Str(s.as_str().to_string()),
        JsonValue::List(items) => {
            let mut arr = PhpArray::new();
            for item in items {
                arr.push(php(item));
            }
            Php::Array(Box::new(arr))
        }
        JsonValue::Object(members) => {
            let mut arr = PhpArray::new();
            for (k, item) in members {
                arr.set_str(k.as_str(), php(item));
            }
            Php::Array(Box::new(arr))
        }
    }
}

fn dec(s: &str) -> Result<Php, JsonError> {
    decode(s).map(php)
}

#[test]
fn test_decode_int() {
    assert_eq!(dec("42").unwrap(), Php::Int(42));
    assert_eq!(dec("-42").unwrap(), Php::Int(-42));
    assert_eq!(dec("0").unwrap(), Php::Int(0));
}

#[test]
fn test_decode_float() {
    assert_eq!(dec("3.14").unwrap(), Php::Float(3.14));
    assert_eq!(dec("-3.14").unwrap(), Php::Float(-3.14));
    assert_eq!(dec("1e10").unwrap(), Php::Float(1e10));
    assert_eq!(dec("1.5e-3").unwrap(), Php::Float(1.5e-3));
}

#[test]
fn test_decode_bool() {
    assert_eq!(dec("true").unwrap(), Php::Bool(true));
    assert_eq!(dec("false").unwrap(), Php::Bool(false));
}

#[test]
fn test_decode_null() {
    assert_eq!(dec("null").unwrap(), Php::Null);
}

#[test]
fn test_decode_string() {
    assert_eq!(dec(r#""hello""#).unwrap(), string("hello"));
    assert_eq!(dec(r#""""#).unwrap(), string(""));
    assert_eq!(dec(r#""hello\nworld""#).unwrap(), string("hello\nworld"));
}

#[test]
fn test_decode_array() {
    let result = dec("[1, 2, 3]").unwrap();
    if let Php::Array(arr) = result {
        assert_eq!(arr.len(), 3);
        assert_eq!(arr.get_int(0), Some(&Php::Int(1)));
        assert_eq!(arr.get_int(1), Some(&Php::Int(2)));
        assert_eq!(arr.get_int(2), Some(&Php::Int(3)));
    } else {
        panic!("Expected array");
    }
}

#[test]
fn test_decode_object() {
    let result = dec(r#"{"a": 1, "b": "test"}"#).unwrap();
    if let Php::Array(arr) = result {
        assert_eq!(arr.len(), 2);
        assert_eq!(arr.get_str("a"), Some(&Php::Int(1)));
        assert_eq!(arr.get_str("b"), Some(&string("test")));
    } else {
        panic!("Expected object");
    }
}

#[test]
fn test_decode_nested() {
    let result = dec(r#"{"users": [{"name": "Alice"}, {"name": "Bob"}]}"#).unwrap();
    if let Php::Array(arr) = result {
        assert_eq!(arr.len(), 1);
    } else {
        panic!("Expected object");
    }
}

#[test]
fn test_decode_whitespace() {
    let result = dec("  {  \"a\"  :  1  }  ").unwrap();
    if let Php::Array(arr) = result {
        assert_eq!(arr.get_str("a"), Some(&Php::Int(1)));
    } else {
        panic!("Expected object");
    }
}

#[test]
fn test_decode_encode_roundtrip() {
    let json = r#"{"name":"Alice","age":30}"#;
    let value = dec(json).unwrap();

    if let Php::Array(arr) = &value {
        assert_eq!(arr.get_str("name"), Some(&string("Alice")));
        assert_eq!(arr.get_str("age"), Some(&Php::Int(30)));
    } else {
        panic!("Expected array");
    }
}

#[test]
fn test_primitives() {
    assert_eq!(dec("42").unwrap(), Php::Int(42));
    assert_eq!(dec("3.14").unwrap(), Php::Float(3.14));
    assert_eq!(dec("true").unwrap(), Php::Bool(true));
    assert_eq!(dec("false").unwrap(), Php::Bool(false));
    assert_eq!(dec("null").unwrap(), Php::Null);
    assert_eq!(dec(r#""hello""#).unwrap(), string("hello"));
}

#[test]
fn decode_errors() {
    assert_eq!(decode("").unwrap_err(), JsonError::UnexpectedEof);
    assert_eq!(decode("   ").unwrap_err(), JsonError::UnexpectedEof);
    assert_eq!(decode("1 2").unwrap_err(), JsonError::TrailingData(2));
    assert_eq!(decode("@").unwrap_err(), JsonError::UnexpectedChar('@', 0));
    assert_eq!(decode("{1:2}").unwrap_err(), JsonError::ExpectedString(1));
    assert_eq!(decode("{\"a\" 1}").unwrap_err(), JsonError::ExpectedColon(5));
    assert_eq!(decode("{\"a\":1 2}").unwrap_err(), JsonError::ExpectedCommaOrBrace(7));
    assert_eq!(decode("[1 2]").unwrap_err(), JsonError::ExpectedCommaOrBracket(3));
    assert_eq!(decode("\"abc").unwrap_err(), JsonError::UnterminatedString(1));
    assert_eq!(decode("-").unwrap_err(), JsonError::InvalidNumber(0));
    assert_eq!(decode("1.e").unwrap_err(), JsonError::InvalidNumber(0));
    assert_eq!(decode("tru").unwrap_err(), JsonError::InvalidLiteral(0));
    assert_eq!(decode("9223372036854775808").unwrap_err(), JsonError::InvalidNumber(0));
}

#[test]
fn decode_number_edges() {
    assert_eq!(dec("-9223372036854775808").unwrap(), Php::Int(i64::MIN));
    assert_eq!(dec("9223372036854775807").unwrap(), Php::Int(i64::MAX));
    assert_eq!(dec("1.").unwrap(), Php::Float(1.0));
    assert_eq!(dec("-0").unwrap(), Php::Int(0));
    assert_eq!(decode("012").unwrap_err(), JsonError::TrailingData(1));
    match decode("2.50E+1").unwrap() {
        JsonValue::Float(t) => assert_eq!(t, "2.50E+1"),
        other => panic!("unexpected {:?}", other),
    }
}

#[test]
fn decode_string_escapes() {
    assert_eq!(dec(r#""a\"b\\c\/d""#).unwrap(), string("a\"b\\c/d"));
    assert_eq!(dec(r#""\b\f\r\t""#).unwrap(), string("\u{8}\u{c}\r\t"));
    assert_eq!(dec(r#""\u0041\u00e9\u20AC""#).unwrap(), string("Aé€"));
    assert_eq!(dec(r#""\ud800""#).unwrap(), string("\u{FFFD}"));
    assert_eq!(dec(r#""\u+041""#).unwrap(), string("A"));
    assert_eq!(dec(r#""\uZZZZx""#).unwrap(), string("ZZZZx"));
    assert_eq!(dec(r#""\q""#).unwrap(), string("q"));
    assert_eq!(dec("\"é\\é\"").unwrap(), string("éé"));
}

#[test]
fn decode_duplicate_keys_keep_first_position() {
    match decode(r#"{"a":1,"b":2,"a":3}"#).unwrap() {
        JsonValue::Object(members) => {
            assert_eq!(members.len(), 2);
            assert_eq!(members[0].0.as_str(), "a");
            assert!(matches!(members[0].1, JsonValue::Int(3)));
            assert_eq!(members[1].0.as_str(), "b");
        }
        other => panic!("unexpected {:?}", other),
    }
    match decode("[]").unwrap() {
        JsonValue::List(items) => assert!(items.is_empty()),
        other => panic!("unexpected {:?}", other),
    }
    match decode("{ }").unwrap() {
        JsonValue::Object(members) => assert!(members.is_empty()),
        other => panic!("unexpected {:?}", other),
    }
}

#[test]
fn decoder_value_then_trailing() {
    let mut d = JsonDecoder::new("[true] x");
    assert!(matches!(d.decode_value(), Ok(JsonValue::List(_))));
    let mut d2 = JsonDecoder::new("[true] x");
    assert_eq!(d2.decode().unwrap_err(), JsonError::TrailingData(7));
}

#[test]
fn encoder_keys_and_sequential_arrays() {
    let mut enc = JsonEncoder::new();
    let mut list: PhpArray<i64> = PhpArray::new();
    list.push(1);
    list.push(2);
    assert!(enc.is_sequential_array(&list));
    list.set_str("k", 3);
    assert!(!enc.is_sequential_array(&list));
    let mut gap: PhpArray<i64> = PhpArray::new();
    gap.set_int(1, 5);
    assert!(!enc.is_sequential_array(&gap));
    assert!(enc.is_sequential_array(&PhpArray::<i64>::new()));
    enc.write_key(&ArrayKey::integer(-7));
    enc.write_byte(b':');
    enc.write_key(&ArrayKey::string("a\"b"));
    assert_eq!(enc.as_bytes(), br#""-7":"a\"b""#);
}

#[test]
fn encoded_strings_and_ints_decode_back() {
    for text in ["plain", "quote \" and \\ slash", "ctl \u{1}\u{8}\u{1f}\n\r\t", "é€😀", ""] {
        let mut enc = JsonEncoder::new();
        enc.write_string(text);
        let json = std::str::from_utf8(enc.as_bytes()).unwrap().to_string();
        match decode(&json).unwrap() {
            JsonValue::Str(s) => assert_eq!(s.as_str(), text),
            other => panic!("unexpected {:?}", other),
        }
    }
    for n in [0i64, 7, -7, 99, 100, i64::MAX, i64::MIN] {
        let mut enc = JsonEncoder::new();
        enc.write_int(n);
        let json = std::str::from_utf8(enc.as_bytes()).unwrap().to_string();
        assert!(matches!(decode(&json).unwrap(), JsonValue::Int(v) if v == n));
    }
}

fn tree_text(v: &JsonValue) -> String {
    let mut enc = JsonEncoder::new();
    enc.write_value(v);
    String::from_utf8(enc.into_bytes()).unwrap()
}

fn sample_tree() -> JsonValue {
    JsonValue::List(vec![
        JsonValue::Int(-12),
        JsonValue::Str(SmartString::from_str("a\"b\n")),
        JsonValue::Object(vec![
            (SmartString::from_str("k"), JsonValue::Null),
            (SmartString::from_str("n"), JsonValue::Float("1.5e3".to_string())),
            (SmartString::from_str("e"), JsonValue::List(vec![])),
        ]),
        JsonValue::Bool(true),
        JsonValue::Object(vec![]),
    ])
}

#[test]
fn value_tree_is_written_compactly() {
    assert_eq!(
        tree_text(&sample_tree()),
        "[-12,\"a\\\"b\\n\",{\"k\":null,\"n\":1.5e3,\"e\":[]},true,{}]"
    );
    assert_eq!(tree_text(&JsonValue::Bool(false)), "false");
}

#[test]
fn written_tree_reads_back() {
    let text = tree_text(&sample_tree());
    let back = decode(&text).unwrap();
    assert_eq!(tree_text(&back), text);
    match back {
        JsonValue::List(items) => {
            assert_eq!(items.len(), 5);
            assert!(matches!(items[0], JsonValue::Int(-12)));
            match &items[1] {
                JsonValue::Str(s) => assert_eq!(s.as_str(), "a\"b\n"),
                _ => panic!("expected a string"),
            }
            match &items[2] {
                JsonValue::Object(members) => {
                    assert_eq!(members.len(), 3);
                    assert_eq!(members[1].0.as_str(), "n");
                    assert!(matches!(&members[1].1, JsonValue::Float(t) if t == "1.5e3"));
                }
                _ => panic!("expected an object"),
            }
        }
        _ => panic!("expected a list"),
    }
}

fn to_tree(enc: &JsonEncoder, v: &Php) -> JsonValue {
    match v {
        Php::Null => JsonValue::Null,
        Php::Bool(b) => JsonValue::Bool(*b),
        Php::Int(i) => JsonValue::Int(*i),
        Php::Float(f) => {
            if f.is_finite() {
                JsonValue::Float(ryu::Buffer::new().format(*f).to_string())
            } else {
                JsonValue::Null
            }
        }
        Php::Str(s) => JsonValue::Str(SmartString::from_str(s)),
        Php::Array(arr) => {
            if enc.is_sequential_array(arr) {
                JsonValue::List(arr.values().into_iter().map(|x| to_tree(enc, x)).collect())
            } else {
                JsonValue::Object(
                    arr.iter()
                        .into_iter()
                        .map(|(k, x)| {
                            let name = match k {
                                ArrayKey::Int(i) => SmartString::from_str(&i.to_string()),
                                ArrayKey::String(s) => s.clone(),
                            };
                            (name, to_tree(enc, x))
                        })
                        .collect(),
                )
            }
        }
    }
}

fn encode(v: &Php) -> String {
    let mut enc = JsonEncoder::new();
    let tree = to_tree(&enc, v);
    enc.write_value(&tree);
    String::from_utf8(enc.into_bytes()).unwrap()
}

#[test]
fn test_encode_null() {
    assert_eq!(encode(&Php::Null), "null");
}

#[test]
fn test_encode_bool() {
    assert_eq!(encode(&Php::Bool(true)), "true");
    assert_eq!(encode(&Php::Bool(false)), "false");
}

#[test]
fn test_encode_int() {
    assert_eq!(encode(&Php::Int(0)), "0");
    assert_eq!(encode(&Php::Int(42)), "42");
    assert_eq!(encode(&Php::Int(-42)), "-42");
    assert_eq!(encode(&Php::Int(12345678)), "12345678");
}

#[test]
fn test_encode_float() {
    assert_eq!(encode(&Php::Float(3.14)), "3.14");
    assert_eq!(encode(&Php::Float(-3.14)), "-3.14");
}

#[test]
fn test_encode_string() {
    assert_eq!(encode(&string("hello")), r#""hello""#);
    assert_eq!(encode(&string("")), r#""""#);
    assert_eq!(encode(&string("hello\nworld")), r#""hello\nworld""#);
    assert_eq!(encode(&string("say \"hi\"")), r#""say \"hi\"""#);
}

#[test]
fn test_encode_array() {
    let mut arr = PhpArray::new();
    arr.push(Php::Int(1));
    arr.push(Php::Int(2));
    arr.push(Php::Int(3));
    assert_eq!(encode(&Php::Array(Box::new(arr))), "[1,2,3]");
}

#[test]
fn test_encode_object() {
    let mut arr = PhpArray::new();
    arr.set_str("name", string("Alice"));
    arr.set_str("age", Php::Int(30));
    let json = encode(&Php::Array(Box::new(arr)));
    assert!(json.contains(r#""name":"Alice""#));
    assert!(json.contains(r#""age":30"#));
}

#[test]
fn test_encode_nested() {
    let mut inner = PhpArray::new();
    inner.push(Php::Int(1));
    inner.push(Php::Int(2));
    let mut outer = PhpArray::new();
    outer.set_str("data", Php::Array(Box::new(inner)));
    assert_eq!(encode(&Php::Array(Box::new(outer))), r#"{"data":[1,2]}"#);
}
