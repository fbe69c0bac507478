use phprs::string::ops::{
    rt_char_at, rt_chr, rt_explode, rt_implode, rt_ltrim, rt_ord, rt_rtrim, rt_str_contains,
    rt_str_ends_with, rt_str_pad, rt_str_repeat, rt_str_replace, rt_str_starts_with, rt_strlen,
    rt_strpos, rt_strrev, rt_strtolower, rt_strtoupper, rt_substr, rt_trim,
};
use phprs::string::SmartString;

#[test]
fn test_inline_string() {
    let s = SmartString::from_str("hello");
    assert!(s.is_inline());
    assert_eq!(s.len(), 5);
    assert_eq!(s.as_str(), "hello");
}

#[test]
fn test_max_inline() {
    let s = SmartString::from_str("12345678901234567890123");
    assert!(s.is_inline());
    assert_eq!(s.len(), 23);
}

#[test]
fn test_heap_string() {
    let s = SmartString::from_str("123456789012345678901234");
    assert!(!s.is_inline());
    assert_eq!(s.len(), 24);
    assert_eq!(s.as_str(), "123456789012345678901234");
}

#[test]
fn test_empty_string() {
    let s = SmartString::new();
    assert!(s.is_inline());
    assert!(s.is_empty());
    assert_eq!(s.len(), 0);
}

#[test]
fn test_concat_inline() {
    let a = SmartString::from_str("hello");
    let b = SmartString::from_str(" world");
    let c = a.concat(&b);
    assert!(c.is_inline());
    assert_eq!(c.as_str(), "hello world");
}

#[test]
fn test_concat_to_heap() {
    let a = SmartString::from_str("hello world ");
    let b = SmartString::from_str("this is a longer string");
    let c = a.concat(&b);
    assert!(!c.is_inline());
    assert_eq!(c.as_str(), "hello world this is a longer string");
}

#[test]
fn test_push_str() {
    let mut s = SmartString::from_str("hello");
    s.push_str(" world");
    assert_eq!(s.as_str(), "hello world");
}

#[test]
fn test_push_str_grow_to_heap() {
    let mut s = SmartString::from_str("12345678901234567890");
    assert!(s.is_inline());
    s.push_str("12345");
    assert!(!s.is_inline());
    assert_eq!(s.len(), 25);
}

#[test]
fn test_clone_inline() {
    let a = SmartString::from_str("hello");
    let b = a.clone();
    assert!(b.is_inline());
    assert_eq!(a.as_str(), b.as_str());
}

#[test]
fn test_clone_heap() {
    let a = SmartString::from_str("this is a longer string that goes on heap");
    let b = a.clone();
    assert!(!b.is_inline());
    assert_eq!(a.as_str(), b.as_str());
}

#[test]
fn test_equality() {
    let a = SmartString::from_str("hello");
    let b = SmartString::from_str("hello");
    let c = SmartString::from_str("world");
    assert_eq!(a, b);
    assert_ne!(a, c);
    assert_eq!(a, "hello");
}

#[test]
fn test_size() {
    assert_eq!(std::mem::size_of::<SmartString>(), 24);
}

#[test]
fn test_strlen() {
    let s = SmartString::from_str("hello");
    assert_eq!(rt_strlen(&s), 5);
}

#[test]
fn test_substr() {
    let s = SmartString::from_str("hello world");

    assert_eq!(rt_substr(&s, 0, 5).as_str(), "hello");
    assert_eq!(rt_substr(&s, 6, i64::MAX).as_str(), "world");
    assert_eq!(rt_substr(&s, -5, i64::MAX).as_str(), "world");
    assert_eq!(rt_substr(&s, 0, -6).as_str(), "hello");
}

#[test]
fn test_strpos() {
    let haystack = SmartString::from_str("hello world");
    let needle = SmartString::from_str("world");
    let not_found = SmartString::from_str("xyz");

    assert_eq!(rt_strpos(&haystack, &needle), 6);
    assert_eq!(rt_strpos(&haystack, &not_found), -1);
}

#[test]
fn test_str_contains() {
    let haystack = SmartString::from_str("hello world");
    let needle = SmartString::from_str("world");

    assert!(rt_str_contains(&haystack, &needle));
}

#[test]
fn test_str_replace() {
    let search = SmartString::from_str("world");
    let replace = SmartString::from_str("PHP");
    let subject = SmartString::from_str("hello world");

    let result = rt_str_replace(&search, &replace, &subject);
    assert_eq!(result.as_str(), "hello PHP");
}

#[test]
fn test_strtolower() {
    let s = SmartString::from_str("Hello World");
    assert_eq!(rt_strtolower(&s).as_str(), "hello world");
}

#[test]
fn test_strtoupper() {
    let s = SmartString::from_str("Hello World");
    assert_eq!(rt_strtoupper(&s).as_str(), "HELLO WORLD");
}

#[test]
fn test_trim() {
    let s = SmartString::from_str("  hello  ");
    assert_eq!(rt_trim(&s).as_str(), "hello");
    assert_eq!(rt_ltrim(&s).as_str(), "hello  ");
    assert_eq!(rt_rtrim(&s).as_str(), "  hello");
}

#[test]
fn test_str_repeat() {
    let s = SmartString::from_str("ab");
    assert_eq!(rt_str_repeat(&s, 3).as_str(), "ababab");
}

#[test]
fn test_strrev() {
    let s = SmartString::from_str("hello");
    assert_eq!(rt_strrev(&s).as_str(), "olleh");
}

#[test]
fn test_ord_chr() {
    let s = SmartString::from_str("A");
    assert_eq!(rt_ord(&s), 65);
    assert_eq!(rt_chr(65).as_str(), "A");
}

#[test]
fn strpos_edge_cases() {
    let empty = SmartString::new();
    let abc = SmartString::from_str("abc");
    let long = SmartString::from_str("abcd");
    assert_eq!(rt_strpos(&abc, &empty), 0);
    assert_eq!(rt_strpos(&abc, &long), -1);
    assert_eq!(rt_strpos(&SmartString::from_str("aab"), &SmartString::from_str("ab")), 1);
    assert!(!rt_str_contains(&abc, &long));
}

#[test]
fn starts_and_ends_with() {
    let s = SmartString::from_str("hello world");
    assert!(rt_str_starts_with(&s, &SmartString::from_str("hello")));
    assert!(!rt_str_starts_with(&s, &SmartString::from_str("world")));
    assert!(rt_str_ends_with(&s, &SmartString::from_str("world")));
    assert!(rt_str_ends_with(&s, &SmartString::new()));
}

#[test]
fn substr_edge_cases() {
    let s = SmartString::from_str("hello");
    assert_eq!(rt_substr(&SmartString::new(), 0, 3).as_str(), "");
    assert_eq!(rt_substr(&s, 10, 2).as_str(), "");
    assert_eq!(rt_substr(&s, -100, 2).as_str(), "he");
    assert_eq!(rt_substr(&s, 3, -3).as_str(), "");
    assert_eq!(rt_substr(&s, 1, 100).as_str(), "ello");
}

#[test]
fn char_at_positions() {
    let s = SmartString::from_str("abc");
    assert_eq!(rt_char_at(&s, 0).as_str(), "a");
    assert_eq!(rt_char_at(&s, -1).as_str(), "c");
    assert_eq!(rt_char_at(&s, 3).as_str(), "");
}

#[test]
fn ord_of_empty_is_zero() {
    assert_eq!(rt_ord(&SmartString::new()), 0);
    assert_eq!(rt_chr(65 + 256).as_str(), "A");
}

#[test]
fn repeat_edge_cases() {
    let s = SmartString::from_str("ab");
    assert_eq!(rt_str_repeat(&s, 0).as_str(), "");
    assert_eq!(rt_str_repeat(&s, -2).as_str(), "");
    assert_eq!(rt_str_repeat(&SmartString::new(), 5).as_str(), "");
}

#[test]
fn replace_every_occurrence() {
    let r = rt_str_replace(
        &SmartString::from_str("a"),
        &SmartString::from_str("xy"),
        &SmartString::from_str("banana"),
    );
    assert_eq!(r.as_str(), "bxynxynxy");
    let unchanged = rt_str_replace(
        &SmartString::new(),
        &SmartString::from_str("z"),
        &SmartString::from_str("abc"),
    );
    assert_eq!(unchanged.as_str(), "abc");
}

#[test]
fn lower_and_upper_are_not_identity() {
    assert_eq!(rt_strtolower(&SmartString::from_str("ABC")).as_str(), "abc");
    assert_eq!(rt_strtoupper(&SmartString::from_str("abc")).as_str(), "ABC");
}

#[test]
fn pad_right_left_both() {
    let s = SmartString::from_str("ab");
    let p = SmartString::from_str("xy");
    assert_eq!(rt_str_pad(&s, 5, &p, 0).as_str(), "abxyx");
    assert_eq!(rt_str_pad(&s, 5, &p, 1).as_str(), "xyxab");
    assert_eq!(rt_str_pad(&s, 5, &p, 2).as_str(), "xabxy");
    assert_eq!(rt_str_pad(&s, 1, &p, 0).as_str(), "ab");
    assert_eq!(rt_str_pad(&s, 5, &SmartString::new(), 0).as_str(), "ab");
}

#[test]
fn explode_with_and_without_limit() {
    let d = SmartString::from_str(",");
    let s = SmartString::from_str("a,b,,c");
    let parts: Vec<String> = rt_explode(&d, &s, 0)
        .iter()
        .map(|p| p.as_str().to_string())
        .collect();
    assert_eq!(parts, vec!["a", "b", "", "c"]);
    let limited: Vec<String> = rt_explode(&d, &s, 2)
        .iter()
        .map(|p| p.as_str().to_string())
        .collect();
    assert_eq!(limited, vec!["a", "b,,c"]);
}

#[test]
fn implode_joins_with_glue() {
    let parts = vec![
        SmartString::from_str("a"),
        SmartString::from_str("b"),
        SmartString::from_str("c"),
    ];
    assert_eq!(rt_implode(&SmartString::from_str("-"), &parts).as_str(), "a-b-c");
    assert_eq!(rt_implode(&SmartString::from_str("-"), &[]).as_str(), "");
}

#[test]
fn strrev_reverses_characters() {
    assert_eq!(rt_strrev(&SmartString::from_str("aé")).as_str(), "éa");
}

#[test]
fn implode_undoes_explode() {
    let cases = [("a,,b,c", ","), ("::x::", "::"), ("no delimiter", "|"), ("abc", ""), ("", ",")];
    for (text, delim) in cases {
        let s = SmartString::from_str(text);
        let d = SmartString::from_str(delim);
        for limit in [-1i64, 0, 1, 2, 3, 10] {
            let parts = rt_explode(&d, &s, limit);
            assert_eq!(rt_implode(&d, &parts).as_str(), text, "{text:?} {delim:?} {limit}");
        }
    }
}

#[test]
fn negative_length_past_the_start_gives_empty() {
    let s = SmartString::from_str("abc");
    assert_eq!(rt_substr(&s, 0, -10).as_str(), "");
    assert_eq!(rt_substr(&s, 1, -2).as_str(), "");
    assert_eq!(rt_substr(&s, 0, -1).as_str(), "ab");
}
