use tracking_numbers::courier::{get_named_capture, prepend_if_matched, serial_and_check_digit};
use tracking_numbers::pattern::{anchored, compile_pattern};
use tracking_numbers::text::{fill_url, parse_unsigned_chars, string_of};
use tracking_numbers::{AdditionalLookup, AdditionalValidation, LookupEntry, PatternSource, TrackingNumber, Validation};

fn kind(pattern: &str, lookups: Vec<AdditionalLookup>, exists: Option<Vec<String>>) -> TrackingNumber {
    TrackingNumber::new(
        "k".to_string(),
        &PatternSource::Single(pattern.to_string()),
        None,
        Validation {
            checksum: None,
            serial_number_format: None,
            additional: exists.map(|e| AdditionalValidation { exists: Some(e) }),
        },
        lookups,
    )
    .unwrap()
}

#[test]
fn fill_url_replaces_every_placeholder() {
    assert_eq!(fill_url("https://x/?q=%s", "ABC"), "https://x/?q=ABC");
    assert_eq!(fill_url("%s-%s", "1"), "1-1");
    assert_eq!(fill_url("no placeholder", "1"), "no placeholder");
    assert_eq!(fill_url("%%ss", "Z"), "%Zs");
    assert_eq!(fill_url("50%", "Z"), "50%");
    assert_eq!(fill_url("", "Z"), "");
}

#[test]
fn parse_follows_str_parse() {
    let p = |s: &str, max: u64| parse_unsigned_chars(&s.chars().collect(), max);
    assert_eq!(p("42", u64::MAX), Some(42));
    assert_eq!(p("+42", u64::MAX), Some(42));
    assert_eq!(p("007", u64::MAX), Some(7));
    assert_eq!(p("", u64::MAX), None);
    assert_eq!(p("+", u64::MAX), None);
    assert_eq!(p("++1", u64::MAX), None);
    assert_eq!(p("-1", u64::MAX), None);
    assert_eq!(p("4294967295", u32::MAX as u64), Some(4294967295));
    assert_eq!(p("4294967296", u32::MAX as u64), None);
    for s in ["0", "12", "+9", "", "a", "99999999999999999999", "18446744073709551615"] {
        assert_eq!(p(s, u64::MAX), s.parse::<u64>().ok(), "{}", s);
        assert_eq!(p(s, u32::MAX as u64), s.parse::<u32>().ok().map(|v| v as u64), "{}", s);
    }
}

#[test]
fn string_of_chars() {
    assert_eq!(string_of(&vec!['a', 'é', '1']), "aé1");
}

#[test]
fn anchoring_patterns() {
    let p = compile_pattern(&PatternSource::Single("abc".to_string())).unwrap();
    assert_eq!(p, "^abc$");
    let p = compile_pattern(&PatternSource::Single("^abc".to_string())).unwrap();
    assert_eq!(p, "^abc");
    let p = compile_pattern(&PatternSource::Multi(vec!["a".to_string(), "(b)".to_string()])).unwrap();
    assert_eq!(p, "^a(b)$");
    let e = compile_pattern(&PatternSource::Single("(".to_string())).unwrap_err();
    assert_eq!(e.pattern, "^($");
    let expected_reason = pcre2::bytes::Regex::new("^($").unwrap_err().to_string();
    assert!(!e.reason.is_empty());
    assert_eq!(e.reason, expected_reason);
    assert_eq!(e.message(), format!("Invalid PCRE2 regex '^($': {}", expected_reason));
}

#[test]
fn anchoring_prevents_substring_matches() {
    // The pattern is anchored, so three digits do not match inside five.
    let three = kind("[0-9]{3}", vec![], None);
    assert!(three.check_format("123"));
    assert!(!three.check_format("12345"));
    // A pattern that already begins with ^ is kept as written.
    let prefix = kind("^[0-9]{3}", vec![], None);
    assert!(prefix.check_format("12345"));
}

#[test]
fn anchoring_twice_changes_nothing() {
    let once = anchored("ab".to_string());
    assert_eq!(once, "^ab$");
    assert_eq!(anchored(once.clone()), once);
    assert_eq!(anchored(String::new()), "^$");
}

#[test]
fn named_capture_text() {
    assert_eq!(get_named_capture(&Some(b" 1 2\t3\n".to_vec())), Some("123".to_string()));
    assert_eq!(get_named_capture(&Some(vec![0xff, 0x31])), None);
    assert_eq!(get_named_capture(&None), None);
    // U+00A0 is whitespace too.
    assert_eq!(get_named_capture(&Some("a\u{a0}b".as_bytes().to_vec())), Some("ab".to_string()));
}

#[test]
fn serial_and_check_digit_from_capture_outcomes() {
    assert_eq!(
        serial_and_check_digit(&Some(Some(vec![Some(b"12 3".to_vec()), Some(b"4".to_vec())]))),
        Some(("123".to_string(), "4".to_string()))
    );
    assert_eq!(serial_and_check_digit(&Some(Some(vec![Some(b"123".to_vec()), None]))), None);
    assert_eq!(serial_and_check_digit(&Some(None)), None);
    assert_eq!(serial_and_check_digit(&None), None);
}

#[test]
fn captures_by_name() {
    let entry = |m: &str| LookupEntry { matches: Some(m.to_string()), matches_regex: None };
    let lookups = vec![
        AdditionalLookup { name: "Letters".to_string(), regex_group_name: "A".to_string(), lookup: vec![entry("ab")] },
        AdditionalLookup { name: "Digits".to_string(), regex_group_name: "B".to_string(), lookup: vec![entry("1")] },
    ];
    let tn = kind("(?<A>[a-z]+)-(?<B>[0-9]+)?x", lookups, Some(vec!["Letters".to_string()]));
    assert!(tn.check_additional("ab-x"));
    assert!(!tn.check_additional("cd-x"));
    assert!(!tn.check_additional("ab-"));
    // Group B takes no part in the match of "ab-x".
    let lookups = vec![AdditionalLookup { name: "Digits".to_string(), regex_group_name: "B".to_string(), lookup: vec![entry("1")] }];
    let tn = kind("(?<A>[a-z]+)-(?<B>[0-9]+)?x", lookups, Some(vec!["Digits".to_string()]));
    assert!(!tn.check_additional("ab-x"));
    assert!(tn.check_additional("ab-1x"));
}

#[test]
fn prepend_when_matched() {
    let content = "92".to_string();
    let serial = "123".to_string();
    assert_eq!(prepend_if_matched(&content, &serial, Some(true)), "92123");
    assert_eq!(prepend_if_matched(&content, &serial, Some(false)), "123");
    assert_eq!(prepend_if_matched(&content, &serial, None), "123");
}
