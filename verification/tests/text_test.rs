use agentrust::ambient::{now_millis, Timestamp};
use agentrust::fixed::{
    add_capped, floor_div, fmt_decimal, fmt_two_decimals, isqrt, mul_fixed, parse_decimal, ONE,
};
use agentrust::order::{descending_order, sort_strings, str_less};
use agentrust::strmap::StrMap;
use agentrust::text::{
    byte_len, chars_of, ends_with, fmt_hex16, fmt_i64, fmt_u64, has_string, join, parse_bool_or,
    parse_i32, parse_i64, parse_nat, split_char, starts_with, strip_prefix, to_ascii_lowercase,
    trim, trim_trailing,
};
use agentrust::window::{drop_oldest, pick};
use agentrust::words::{is_stopword, split_whitespace, split_words, WordSet};

fn strings(v: &[&str]) -> Vec<String> {
    v.iter().map(|s| s.to_string()).collect()
}

#[test]
fn integers_are_written_and_read() {
    assert_eq!(fmt_u64(u64::MAX), "18446744073709551615");
    assert_eq!(fmt_i64(i64::MIN), "-9223372036854775808");
    assert_eq!(fmt_hex16(255), "00000000000000ff");
    assert_eq!(parse_nat("42", 100), Some(42));
    assert_eq!(parse_nat("+42", 100), Some(42));
    assert_eq!(parse_nat("101", 100), None);
    assert_eq!(parse_nat("", 100), None);
    assert_eq!(parse_i32("-2147483648"), Some(i32::MIN));
    assert_eq!(parse_i32("2147483648"), None);
    assert_eq!(parse_i64("-9223372036854775808"), Some(i64::MIN));
    assert_eq!(parse_i64("1x"), None);
}

#[test]
fn decimals_are_written_and_read() {
    assert_eq!(fmt_decimal(750_000_000), "0.75");
    assert_eq!(fmt_decimal(2 * ONE), "2");
    assert_eq!(parse_decimal("0.75"), Some(750_000_000));
    assert_eq!(parse_decimal("2"), Some(2 * ONE));
    assert_eq!(parse_decimal("x"), None);
    assert_eq!(parse_decimal(".5"), Some(500_000_000));
    assert_eq!(parse_decimal("5."), Some(5 * ONE));
    assert_eq!(parse_decimal("."), None);
    assert_eq!(parse_decimal(""), None);
    assert_eq!(parse_decimal("1.2.3"), None);
    assert_eq!(fmt_two_decimals(906_000_000), "0.91");
    assert_eq!(fmt_two_decimals(900_000_000), "0.90");
}

#[test]
fn fixed_point_arithmetic() {
    assert_eq!(add_capped(u64::MAX, 1), u64::MAX);
    assert_eq!(floor_div(-7, 2), -4);
    assert_eq!(isqrt(99), 9);
    assert_eq!(isqrt(u64::MAX), 4_294_967_295);
    assert_eq!(mul_fixed(500_000_000, -500_000_000), -250_000_000);
}

#[test]
fn texts_are_trimmed_and_split() {
    assert_eq!(trim(" \u{2003}a b\n"), "a b");
    assert_eq!(trim(" \t"), "");
    assert_eq!(trim_trailing("a//", '/'), "a");
    assert_eq!(split_char("a,,b", ','), strings(&["a", "", "b"]));
    assert_eq!(split_char("", ','), strings(&[""]));
    assert_eq!(split_whitespace("  a\tb \n"), strings(&["a", "b"]));
    assert_eq!(join(&strings(&["a", "b"]), ", "), "a, b");
    assert!(starts_with("abc", "ab"));
    assert!(ends_with("abc", "bc"));
    assert_eq!(strip_prefix("abc", "ab"), Some("c".to_string()));
    assert_eq!(strip_prefix("abc", "b"), None);
    assert_eq!(to_ascii_lowercase("AÄ"), "aÄ");
    assert_eq!(byte_len("ä"), 2);
    assert_eq!(chars_of("äb"), vec!['ä', 'b']);
    assert!(has_string(&strings(&["x"]), "x"));
    assert!(parse_bool_or("true", false));
    assert!(parse_bool_or("nonsense", true));
}

#[test]
fn words_are_lowered_and_filtered() {
    assert_eq!(split_words("The Quick, BROWN fox!", 2, true), strings(&["quick", "brown", "fox"]));
    assert_eq!(split_words("a bc", 2, false), strings(&["bc"]));
    assert!(is_stopword("the"));
    assert!(!is_stopword("fox"));
}

#[test]
fn word_sets_overlap() {
    let a = WordSet::of(&strings(&["a", "b", "a"]));
    let b = WordSet::of(&strings(&["b", "c"]));
    assert_eq!(a.len(), 2);
    assert_eq!(a.jaccard(&b), 333_333_333);
    assert_eq!(a.jaccard(&a), ONE);
}

#[test]
fn strings_are_sorted_by_code_points() {
    assert!(str_less("B", "a"));
    assert!(str_less("a", "ab"));
    assert!(!str_less("a", "a"));
    assert_eq!(sort_strings(&strings(&["b", "ä", "a"])), strings(&["a", "b", "ä"]));
}

#[test]
fn equal_keys_keep_their_order() {
    assert_eq!(descending_order(&vec![1, 3, 2, 3]), vec![1, 3, 2, 0]);
}

#[test]
fn windows_keep_the_latest() {
    assert_eq!(drop_oldest(vec![1, 2, 3], 2), vec![2, 3]);
    assert_eq!(pick(&vec![2, 0, 1], &vec![true, false, true], 5), vec![2, 0]);
}

#[test]
fn a_map_keeps_the_last_value() {
    let mut m = StrMap::new();
    m.insert("a", "1".to_string());
    m.insert("b", "2".to_string());
    m.insert("a", "3".to_string());
    assert_eq!(m.len(), 2);
    assert_eq!(m.get("a"), Some(&"3".to_string()));
    assert!(!m.contains_key("c"));
}

#[test]
fn times_are_ordered() {
    let a = Timestamp { secs: 1, nanos: 5 };
    let b = Timestamp { secs: 1, nanos: 6 };
    assert!(a.before(&b));
    assert!(!b.before(&a));
    assert_eq!(Timestamp { secs: -1, nanos: 999_000_000 }.millis(), -1);
    assert!(now_millis() > 1_600_000_000_000);
}

#[test]
fn decimals_have_signs_and_exponents() {
    assert_eq!(parse_decimal("+0.75"), Some(750_000_000));
    assert_eq!(parse_decimal("-0.75"), Some(0));
    assert_eq!(parse_decimal("-x"), None);
    assert_eq!(parse_decimal("7.5e-1"), Some(750_000_000));
    assert_eq!(parse_decimal("75E-2"), Some(750_000_000));
    assert_eq!(parse_decimal("1e-7"), Some(100));
    assert_eq!(parse_decimal("1.5e+3"), Some(1_500 * ONE));
    assert_eq!(parse_decimal("19e-10"), Some(1));
    assert_eq!(parse_decimal("1e-99999999999999999999999999999999999"), Some(0));
    assert_eq!(parse_decimal("1e99999999999999999999999999999999999"), Some(u64::MAX));
    assert_eq!(parse_decimal("0e99999999999999999999999999999999999"), Some(0));
    assert_eq!(parse_decimal("0.0000000019"), Some(1));
    assert_eq!(parse_decimal("99999999999999999999"), Some(u64::MAX));
    assert_eq!(parse_decimal("1e"), None);
    assert_eq!(parse_decimal("e5"), None);
    assert_eq!(parse_decimal("1e5.0"), None);
    assert_eq!(parse_decimal("+-1"), None);
}
