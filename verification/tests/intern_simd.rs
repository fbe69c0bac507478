use phprs::intern::headers;
use phprs::intern::{header_name, intern_header, InternId, StringInterner};
use phprs::json::simd::{
    classify, extract_string, find_key, find_number_end, find_string_end, parse_int_fast,
    skip_whitespace, JsonChar,
};
use phprs::simd::{find_crlf, memchr, memchr2};

#[test]
fn test_header_interning() {
    assert_eq!(intern_header(b"content-type"), headers::ContentType());
    assert_eq!(intern_header(b"Content-Type"), headers::ContentType());
    assert_eq!(intern_header(b"CONTENT-TYPE"), headers::ContentType());
    assert_eq!(intern_header(b"unknown-header"), InternId::UNKNOWN());
}

#[test]
fn test_header_comparison() {
    let ct1 = intern_header(b"content-type");
    let ct2 = intern_header(b"Content-Type");
    let host = intern_header(b"host");

    assert_eq!(ct1, ct2);
    assert_ne!(ct1, host);
}

#[test]
fn test_header_name_lookup() {
    assert_eq!(header_name(headers::ContentType()), Some("Content-Type"));
    assert_eq!(header_name(headers::Host()), Some("Host"));
    assert_eq!(header_name(InternId::UNKNOWN()), None);
}

#[test]
fn test_dynamic_interning() {
    let mut interner = StringInterner::new();

    let id1 = interner.intern("custom-value");
    let id2 = interner.intern("custom-value");
    let id3 = interner.intern("other-value");

    assert_eq!(id1, id2);
    assert_ne!(id1, id3);

    assert_eq!(interner.get(id1), Some("custom-value".to_string()));
    assert_eq!(interner.get(id3), Some("other-value".to_string()));
}

#[test]
fn test_intern_id_size() {
    assert_eq!(std::mem::size_of::<InternId>(), 4);
}

#[test]
fn test_find_key() {
    let json = br#"{"name":"Alice","age":30}"#;

    if let Some(pos) = find_key(json, "name") {
        assert!(pos < json.len());
    }

    if let Some(pos) = find_key(json, "age") {
        assert_eq!(json[pos], b'3');
    }
}

#[test]
fn test_find_key_not_found() {
    let json = br#"{"name":"Alice"}"#;
    assert!(find_key(json, "age").is_none());
}

#[test]
fn test_parse_int_fast() {
    assert_eq!(parse_int_fast(b"42", 0), Some((42, 2)));
    assert_eq!(parse_int_fast(b"-42", 0), Some((-42, 3)));
    assert_eq!(parse_int_fast(b"123abc", 0), Some((123, 3)));
    assert_eq!(parse_int_fast(b"  42", 2), Some((42, 4)));
}

#[test]
fn test_find_string_end() {
    assert_eq!(find_string_end(br#""hello""#, 0), Some(6));
    assert_eq!(find_string_end(br#""""#, 0), Some(1));
    assert_eq!(find_string_end(br#""hello\"world""#, 0), Some(13));
}

#[test]
fn test_skip_whitespace() {
    assert_eq!(skip_whitespace(b"   hello", 0), 3);
    assert_eq!(skip_whitespace(b"\t\n  x", 0), 4);
    assert_eq!(skip_whitespace(b"hello", 0), 0);
}

#[test]
fn test_classify() {
    assert_eq!(classify(b'{'), JsonChar::ObjectStart);
    assert_eq!(classify(b'}'), JsonChar::ObjectEnd);
    assert_eq!(classify(b'['), JsonChar::ArrayStart);
    assert_eq!(classify(b']'), JsonChar::ArrayEnd);
    assert_eq!(classify(b':'), JsonChar::Colon);
    assert_eq!(classify(b','), JsonChar::Comma);
    assert_eq!(classify(b'"'), JsonChar::Quote);
    assert_eq!(classify(b'a'), JsonChar::Other);
}

#[test]
fn test_memchr_found() {
    let data = b"hello world";
    assert_eq!(memchr(b'w', data), Some(6));
    assert_eq!(memchr(b'h', data), Some(0));
    assert_eq!(memchr(b'd', data), Some(10));
}

#[test]
fn test_memchr_not_found() {
    let data = b"hello world";
    assert_eq!(memchr(b'z', data), None);
}

#[test]
fn test_memchr_empty() {
    assert_eq!(memchr(b'a', b""), None);
}

#[test]
fn test_memchr_large() {
    let mut data = vec![b'x'; 1000];
    data[500] = b'y';
    assert_eq!(memchr(b'y', &data), Some(500));

    data[999] = b'z';
    assert_eq!(memchr(b'z', &data), Some(999));
}

#[test]
fn test_memchr2() {
    let data = b"hello world";
    assert_eq!(memchr2(b'o', b'w', data), Some(4));
    assert_eq!(memchr2(b'z', b'w', data), Some(6));
    assert_eq!(memchr2(b'z', b'q', data), None);
}

#[test]
fn simd_test_find_crlf() {
    assert_eq!(find_crlf(b"hello\r\nworld"), Some(5));
    assert_eq!(find_crlf(b"\r\n"), Some(0));
    assert_eq!(find_crlf(b"no crlf"), None);
    assert_eq!(find_crlf(b"just\r"), None);
    assert_eq!(find_crlf(b"just\n"), None);
}

#[test]
fn test_find_crlf_large() {
    let mut data = vec![b'x'; 1000];
    data[500] = b'\r';
    data[501] = b'\n';
    assert_eq!(find_crlf(&data), Some(500));
}

#[test]
fn test_find_crlf_at_end() {
    let mut data = vec![b'x'; 100];
    data[98] = b'\r';
    data[99] = b'\n';
    assert_eq!(find_crlf(&data), Some(98));
}

#[test]
fn find_key_skips_whitespace_around_colon() {
    let json = b"{ \"k\" :\t 7 }";
    assert_eq!(find_key(json, "k"), Some(9));
    assert_eq!(find_key(b"{\"k\"}", "k"), None);
}

#[test]
fn parse_int_fast_rejects_non_numbers() {
    assert_eq!(parse_int_fast(b"-", 0), None);
    assert_eq!(parse_int_fast(b"abc", 0), None);
    assert_eq!(parse_int_fast(b"42", 5), None);
}

#[test]
fn number_end_covers_fraction_and_exponent() {
    assert_eq!(find_number_end(b"-3.14e+10,", 0), 9);
    assert_eq!(find_number_end(b"12]", 0), 2);
}

#[test]
fn extract_string_returns_contents_and_next_position() {
    let input = br#""abc",1"#;
    assert_eq!(extract_string(input, 0), Some((b"abc".to_vec(), 5)));
    assert_eq!(extract_string(br#""a\"b""#, 0), Some((b"a\"b".to_vec(), 6)));
    assert_eq!(extract_string(br#""x\n\u0041""#, 0), Some((b"x\nA".to_vec(), 11)));
    assert_eq!(find_string_end(b"\"open", 0), None);
    assert_eq!(find_string_end(b"x", 0), None);
}

#[test]
fn reserved_ids_hold_no_string() {
    let mut interner = StringInterner::new();
    let id = interner.intern("x-custom");
    assert!(id.0 >= 100);
    assert_eq!(interner.get(InternId(0)), None);
    assert_eq!(interner.get(InternId(37)), None);
    assert_eq!(interner.get(InternId(99)), None);
    assert_eq!(interner.get(id), Some(String::from("x-custom")));
    assert_eq!(interner.len(), 1);
    interner.intern("x-custom");
    assert_eq!(interner.len(), 1);
}
