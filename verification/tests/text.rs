use luabster::number::{hex_i32_ok, parse_hex_u8, parse_u32};
use luabster::order::{common_prefix_of, dedup_sorted, sort_strings, str_le};
use luabster::text::{
    byte_len_mod, ceil_index, chars_of, find_chars, floor_index, join_with, replace,
    slice_string, split_char, split_str, split_whitespace, str_starts_with, string_of,
    trim_chars,
};

fn strings(v: &[&str]) -> Vec<String> {
    v.iter().map(|s| s.to_string()).collect()
}

fn chars(s: &str) -> Vec<char> {
    s.chars().collect()
}

#[test]
fn characters_and_strings() {
    assert_eq!(chars_of("aé"), vec!['a', 'é']);
    assert_eq!(string_of(&vec!['x', 'y']), "xy");
    assert_eq!(slice_string(&chars("hello"), 1, 3), "el");
    assert!(str_starts_with("hello", "he"));
    assert!(!str_starts_with("he", "hello"));
}

#[test]
fn words_and_pieces() {
    assert_eq!(split_whitespace(&chars("  a b\tc  ")), vec![chars("a"), chars("b"), chars("c")]);
    assert_eq!(split_whitespace(&chars("   ")), Vec::<Vec<char>>::new());
    assert_eq!(split_char(&chars("a.b..c"), '.'), vec![chars("a"), chars("b"), chars(""), chars("c")]);
    assert_eq!(split_str(&chars("a&&b&&"), &chars("&&")), vec![chars("a"), chars("b"), chars("")]);
    assert_eq!(trim_chars(&chars("  x y \n")), chars("x y"));
    assert_eq!(join_with(&strings(&["a", "b", "c"]), '\n'), "a\nb\nc");
    assert_eq!(join_with(&Vec::new(), '\n'), "");
    assert_eq!(find_chars(&chars("abcabc"), &chars("ca")), Some(2));
    assert_eq!(find_chars(&chars("abc"), &chars("x")), None);
}

#[test]
fn replacing() {
    assert_eq!(replace("a-b-c", "-", "+"), "a+b+c");
    assert_eq!(replace("aaa", "aa", "b"), "ba");
    assert_eq!(replace("ab", "", "-"), "-a-b-");
    assert_eq!(replace("abc", "x", "y"), "abc");
}

#[test]
fn byte_offsets() {
    let s = chars("aéb");
    assert_eq!(floor_index(&s, 2), (1, 1));
    assert_eq!(floor_index(&s, 3), (2, 3));
    assert_eq!(floor_index(&s, 10), (3, 4));
    assert_eq!(ceil_index(&s, 2), (2, 3));
    assert_eq!(ceil_index(&s, 0), (0, 0));
    assert_eq!(byte_len_mod(&s), 4);
}

#[test]
fn dictionary_order() {
    assert!(str_le("a", "b"));
    assert!(!str_le("b", "a"));
    assert!(str_le("", "x"));
    assert!(str_le("ab", "ab"));
    assert!(str_le("ab", "abc"));
    assert!(!str_le("abc", "ab"));
    assert!(str_le("Z", "a"));
}

#[test]
fn sorting_and_deduplicating() {
    let mut v = strings(&["b", "a", "ab", "a"]);
    sort_strings(&mut v);
    assert_eq!(v, strings(&["a", "a", "ab", "b"]));
    let mut expected = strings(&["b", "a", "ab", "a"]);
    expected.sort();
    assert_eq!(v, expected);
    assert_eq!(dedup_sorted(&v), strings(&["a", "ab", "b"]));
    let mut e: Vec<String> = Vec::new();
    sort_strings(&mut e);
    assert!(e.is_empty());
}

#[test]
fn common_prefixes() {
    assert_eq!(common_prefix_of("flower", "flow"), "flow");
    assert_eq!(common_prefix_of("abc", "xyz"), "");
    assert_eq!(common_prefix_of("", "abc"), "");
}

#[test]
fn numbers() {
    assert_eq!(parse_u32(&chars("123")), Some(123));
    assert_eq!(parse_u32(&chars("+5")), Some(5));
    assert_eq!(parse_u32(&chars("4294967295")), Some(4294967295));
    assert_eq!(parse_u32(&chars("4294967296")), None);
    assert_eq!(parse_u32(&chars("")), None);
    assert_eq!(parse_u32(&chars("+")), None);
    assert_eq!(parse_u32(&chars("-1")), None);
    assert_eq!(parse_u32(&chars("1a")), None);
    assert_eq!(parse_hex_u8(&chars("ff")), Some(255));
    assert_eq!(parse_hex_u8(&chars("0A")), Some(10));
    assert_eq!(parse_hex_u8(&chars("100")), None);
    assert!(hex_i32_ok(&chars("ff0000")));
    assert!(hex_i32_ok(&chars("-7f")));
    assert!(!hex_i32_ok(&chars("xyz")));
    assert!(!hex_i32_ok(&chars("80000000")));
}
