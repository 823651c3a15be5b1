use aoc2023::text::{
    blank, find_from, matches_at, parse_i64, slice, split_bounds, to_chars, word_bounds,
};

fn chars(s: &str) -> Vec<char> {
    s.chars().collect()
}

fn pieces(s: &str, pat: &str) -> Vec<String> {
    let s = chars(s);
    split_bounds(&s, &chars(pat)).iter().map(|&(a, b)| s[a..b].iter().collect()).collect()
}

#[test]
fn to_chars_keeps_every_character() {
    assert_eq!(to_chars("a -> b"), chars("a -> b"));
    assert_eq!(to_chars(""), chars(""));
    assert_eq!(to_chars("héé -> ü"), chars("héé -> ü"));
}

#[test]
fn slice_takes_a_range() {
    assert_eq!(slice(&chars("abcdef"), 2, 4), chars("cd"));
    assert_eq!(slice(&chars("abcdef"), 3, 3), chars(""));
    assert_eq!(slice(&chars("abcdef"), 0, 6), chars("abcdef"));
}

#[test]
fn matches_at_compares_in_place() {
    assert!(matches_at(&chars("a -> b"), &chars(" -> "), 1));
    assert!(!matches_at(&chars("a -> b"), &chars(" -> "), 0));
    assert!(!matches_at(&chars("a -> b"), &chars(" -> "), 3));
    assert!(!matches_at(&chars("ab"), &chars("abc"), 0));
    assert!(matches_at(&chars("ab"), &chars(""), 2));
    assert!(!matches_at(&chars("ab"), &chars(""), 3));
}

#[test]
fn find_from_gives_the_first_place() {
    assert_eq!(find_from(&chars("a -> b -> c"), &chars(" -> "), 0), Some(1));
    assert_eq!(find_from(&chars("a -> b -> c"), &chars(" -> "), 1), Some(1));
    assert_eq!(find_from(&chars("a -> b -> c"), &chars(" -> "), 2), Some(6));
    assert_eq!(find_from(&chars("a -> b -> c"), &chars(" -> "), 7), None);
    assert_eq!(find_from(&chars("abc"), &chars("abcd"), 0), None);
    assert_eq!(find_from(&chars("abc"), &chars(""), 3), Some(3));
    assert_eq!(find_from(&chars("abc"), &chars(""), 4), None);
}

#[test]
fn split_cuts_at_every_occurrence() {
    assert_eq!(pieces("a, b, c", ", "), vec!["a", "b", "c"]);
    assert_eq!(pieces("abc", ", "), vec!["abc"]);
    assert_eq!(pieces("", ", "), vec![""]);
    assert_eq!(pieces(", ", ", "), vec!["", ""]);
    assert_eq!(pieces("a, ", ", "), vec!["a", ""]);
    assert_eq!(pieces("a,b", ", "), vec!["a,b"]);
    assert_eq!(pieces("abc", ""), vec!["abc"]);
}

#[test]
fn split_goes_on_behind_an_occurrence() {
    assert_eq!(pieces("aaa", "aa"), vec!["", "a"]);
    assert_eq!(pieces(" -> -> ", " -> "), vec!["", "-> "]);
}

fn words(s: &str) -> Vec<String> {
    let s = chars(s);
    word_bounds(&s).iter().map(|&(a, b)| s[a..b].iter().collect()).collect()
}

fn number(s: &str) -> Option<i64> {
    let s = chars(s);
    parse_i64(&s, 0, s.len())
}

#[test]
fn words_are_what_white_space_separates() {
    assert_eq!(words("a b  c"), vec!["a", "b", "c"]);
    assert_eq!(words("  lead and trail  "), vec!["lead", "and", "trail"]);
    assert_eq!(words("one"), vec!["one"]);
    assert_eq!(words(""), Vec::<String>::new());
    assert_eq!(words(" \t\n"), Vec::<String>::new());
    assert_eq!(words("tab\tand\nline"), vec!["tab", "and", "line"]);
    assert_eq!(words("wide\u{3000}space\u{a0}too"), vec!["wide", "space", "too"]);
}

#[test]
fn words_agree_with_the_standard_library() {
    for text in ["a b  c", " x", "x ", "", "\u{85}a\u{2003}b\u{200b}c\u{1680}", "Time:  7 15   30"] {
        let expected: Vec<String> = text.split_whitespace().map(|w| w.to_string()).collect();
        assert_eq!(words(text), expected);
    }
    for n in 0..0x3100u32 {
        if let Some(c) = char::from_u32(n) {
            assert_eq!(blank(c), c.is_whitespace());
        }
    }
}

#[test]
fn numbers_are_read_with_or_without_sign() {
    assert_eq!(number("0"), Some(0));
    assert_eq!(number("42"), Some(42));
    assert_eq!(number("-42"), Some(-42));
    assert_eq!(number("+42"), Some(42));
    assert_eq!(number("007"), Some(7));
    assert_eq!(number("-0"), Some(0));
    assert_eq!(number("9223372036854775807"), Some(i64::MAX));
    assert_eq!(number("-9223372036854775808"), Some(i64::MIN));
}

#[test]
fn what_is_no_number_is_not_read() {
    assert_eq!(number(""), None);
    assert_eq!(number("-"), None);
    assert_eq!(number("+"), None);
    assert_eq!(number("--1"), None);
    assert_eq!(number("1 "), None);
    assert_eq!(number(" 1"), None);
    assert_eq!(number("1x"), None);
    assert_eq!(number("x1"), None);
    assert_eq!(number("1.5"), None);
    assert_eq!(number("9223372036854775808"), None);
    assert_eq!(number("-9223372036854775809"), None);
    assert_eq!(number("99999999999999999999999999999999999999999999"), None);
}

#[test]
fn numbers_agree_with_the_standard_library() {
    for text in ["12", "-12", "+12", "", "+", "-", "1_000", "0x10", "٣", "9223372036854775808", "00000000000000000000000001"] {
        assert_eq!(number(text), text.parse::<i64>().ok());
    }
}

#[test]
fn a_number_is_read_from_a_range() {
    let s = chars("seeds: 79 14");
    assert_eq!(parse_i64(&s, 7, 9), Some(79));
    assert_eq!(parse_i64(&s, 10, 12), Some(14));
    assert_eq!(parse_i64(&s, 6, 9), None);
    assert_eq!(parse_i64(&s, 7, 7), None);
}
