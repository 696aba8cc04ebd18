use yac_model::number::i128_to_decimal;
use yac_model::text::{
    chars_of, concat_str, contains_char, ends_with, find_chars, matches_at, starts_with,
    string_from_chars,
};
use yac_model::time::{age_label, elapsed_label_of, Timestamp};

#[test]
fn chars_round_trip() {
    let c = chars_of("aé😀");
    assert_eq!(c, vec!['a', 'é', '😀']);
    assert_eq!(string_from_chars(&c), "aé😀");
    assert_eq!(string_from_chars(&['a', 'b', 'ç']), "abç");
    assert_eq!(concat_str("foo", "bar"), "foobar");
}

#[test]
fn prefixes_suffixes_and_search() {
    let s = chars_of("hello world");
    assert!(starts_with(&s, &chars_of("hell")));
    assert!(!starts_with(&s, &chars_of("world")));
    assert!(ends_with(&s, &chars_of("world")));
    assert!(!ends_with(&s, &chars_of("hello")));
    assert!(starts_with(&s, &[]));
    assert!(!starts_with(&chars_of("a"), &chars_of("ab")));
    assert!(contains_char(&s, 'w'));
    assert!(!contains_char(&s, 'z'));
    assert!(matches_at(&s, &chars_of("o w"), 4));
    assert!(!matches_at(&s, &chars_of("o w"), 5));
    assert_eq!(find_chars(&s, &chars_of("o"), 0), Some(4));
    assert_eq!(find_chars(&s, &chars_of("o"), 5), Some(7));
    assert_eq!(find_chars(&s, &chars_of("o"), 8), None);
    assert_eq!(find_chars(&s, &[], 11), Some(11));
    assert_eq!(find_chars(&s, &[], 12), None);
}

#[test]
fn decimal_formatting() {
    assert_eq!(i128_to_decimal(0), "0");
    assert_eq!(i128_to_decimal(7), "7");
    assert_eq!(i128_to_decimal(10), "10");
    assert_eq!(i128_to_decimal(1234567890), "1234567890");
    assert_eq!(i128_to_decimal(-5), "-5");
    assert_eq!(i128_to_decimal(-100), "-100");
    assert_eq!(i128_to_decimal(i128::MAX), i128::MAX.to_string());
    assert_eq!(i128_to_decimal(i128::MIN), i128::MIN.to_string());
}

#[test]
fn elapsed_labels_at_each_unit() {
    assert_eq!(elapsed_label_of(0), "0秒前");
    assert_eq!(elapsed_label_of(-5), "-5秒前");
    assert_eq!(elapsed_label_of(60), "60秒前");
    assert_eq!(elapsed_label_of(61), "1分前");
    assert_eq!(elapsed_label_of(3600), "60分前");
    assert_eq!(elapsed_label_of(3601), "1時間前");
    assert_eq!(elapsed_label_of(86400), "24時間前");
    assert_eq!(elapsed_label_of(86401), "1日前");
    assert_eq!(elapsed_label_of(604800), "7日前");
    assert_eq!(elapsed_label_of(604801), "1週間前");
    assert_eq!(elapsed_label_of(2592000), "4週間前");
    assert_eq!(elapsed_label_of(2592001), "1ヶ月前");
    assert_eq!(elapsed_label_of(31104000), "12ヶ月前");
    assert_eq!(elapsed_label_of(31104001), "1年前");
    assert_eq!(elapsed_label_of(3 * 31104000 + 5), "3年前");
}

#[test]
fn age_label_subtracts_creation_time() {
    let created = Timestamp { secs: 1_000_000, nanos: 5 };
    assert_eq!(age_label(1_000_000 + 90, created), "1分前");
    assert_eq!(age_label(1_000_000 - 3, created), "-3秒前");
    assert_eq!(age_label(i64::MIN, Timestamp { secs: i64::MAX, nanos: 0 }), format!("{}秒前", i64::MIN as i128 - i64::MAX as i128));
}
