use trivium::flags::{
    flag_kind_of, matches_flag_filter, normalize_flag_value, severity_rank, FlagKind,
};
use trivium::text::{
    chars_eq, chars_lex_lt, chars_of, contains_chars, i64_to_chars, string_from_chars, trim_chars,
    u64_to_chars,
};
use trivium::value::{value_display_length, value_to_search_string, Cell};

fn s(text: &str) -> Vec<char> {
    chars_of(text)
}

#[test]
fn trim_removes_unicode_whitespace() {
    let v = s("  \t hello world \u{00A0}\n");
    let t = trim_chars(&v);
    assert_eq!(string_from_chars(&t), "hello world");
}

#[test]
fn trim_of_blank_is_empty() {
    let t = trim_chars(&s(" \t\r\n \u{3000}"));
    assert!(t.is_empty());
}

#[test]
fn contains_finds_substrings() {
    assert!(contains_chars(&s("forensic log line"), &s("log")));
    assert!(contains_chars(&s("abc"), &s("")));
    assert!(!contains_chars(&s("abc"), &s("abcd")));
    assert!(contains_chars(&s("aaab"), &s("aab")));
    assert!(!contains_chars(&s("acac"), &s("aca c")));
}

#[test]
fn decimal_rendering() {
    assert_eq!(string_from_chars(&u64_to_chars(0)), "0");
    assert_eq!(string_from_chars(&u64_to_chars(90210)), "90210");
    assert_eq!(string_from_chars(&u64_to_chars(u64::MAX)), u64::MAX.to_string());
    assert_eq!(string_from_chars(&i64_to_chars(-1)), "-1");
    assert_eq!(string_from_chars(&i64_to_chars(i64::MIN)), i64::MIN.to_string());
    assert_eq!(string_from_chars(&i64_to_chars(i64::MAX)), i64::MAX.to_string());
}

#[test]
fn lexicographic_compare() {
    assert!(chars_lex_lt(&s("abc"), &s("abd")));
    assert!(chars_lex_lt(&s("ab"), &s("abc")));
    assert!(!chars_lex_lt(&s("abc"), &s("abc")));
    assert!(chars_eq(&s("abc"), &s("abc")));
    assert!(!chars_eq(&s("abc"), &s("abd")));
}

#[test]
fn normalize_closed_set() {
    assert_eq!(normalize_flag_value("safe"), "safe");
    assert_eq!(normalize_flag_value("  SAFE  "), "safe");
    assert_eq!(normalize_flag_value("Suspicious"), "suspicious");
    assert_eq!(normalize_flag_value("CRITICAL"), "critical");
    assert_eq!(normalize_flag_value("\u{25EF}"), "safe");
    assert_eq!(normalize_flag_value("?"), "suspicious");
    assert_eq!(normalize_flag_value("\u{2717}"), "critical");
    assert_eq!(normalize_flag_value(""), "");
    assert_eq!(normalize_flag_value("   "), "");
    assert_eq!(normalize_flag_value("benign"), "");
}

#[test]
fn normalize_is_idempotent() {
    for input in ["safe", "SAFE", " suspicious ", "critical", "?", "junk", ""] {
        let once = normalize_flag_value(input);
        let twice = normalize_flag_value(&once);
        assert_eq!(once, twice);
        assert_eq!(severity_rank(&once), severity_rank(&twice));
    }
}

#[test]
fn severity_ranks() {
    assert_eq!(severity_rank("critical"), 3);
    assert_eq!(severity_rank("suspicious"), 2);
    assert_eq!(severity_rank("safe"), 1);
    assert_eq!(severity_rank(""), 0);
    assert_eq!(severity_rank("CRITICAL"), 0);
}

#[test]
fn flag_filters() {
    assert!(matches_flag_filter("safe", "all"));
    assert!(matches_flag_filter("", "all"));
    assert!(matches_flag_filter("", "none"));
    assert!(!matches_flag_filter("safe", "none"));
    assert!(matches_flag_filter("suspicious", "priority"));
    assert!(matches_flag_filter("critical", "priority"));
    assert!(!matches_flag_filter("safe", "priority"));
    assert!(matches_flag_filter("safe", "safe"));
    assert!(!matches_flag_filter("critical", "safe"));
    assert!(matches_flag_filter("anything", "unknown-filter"));
}

#[test]
fn flag_kinds() {
    assert!(matches!(flag_kind_of("safe"), FlagKind::Safe));
    assert!(matches!(flag_kind_of("nope"), FlagKind::Empty));
}

#[test]
fn cell_search_strings() {
    assert!(value_to_search_string(&Cell::Null).is_none());
    assert_eq!(value_to_search_string(&Cell::Bool(true)).unwrap(), "true");
    assert_eq!(value_to_search_string(&Cell::Bool(false)).unwrap(), "false");
    assert_eq!(value_to_search_string(&Cell::Int(-42)).unwrap(), "-42");
    assert_eq!(value_to_search_string(&Cell::UInt(7)).unwrap(), "7");
    assert_eq!(
        value_to_search_string(&Cell::Text("Hello".to_string())).unwrap(),
        "Hello"
    );
}

#[test]
fn display_lengths() {
    assert_eq!(value_display_length(&Cell::Null), 0);
    assert_eq!(value_display_length(&Cell::Bool(true)), 4);
    assert_eq!(value_display_length(&Cell::Bool(false)), 5);
    assert_eq!(value_display_length(&Cell::Int(-100)), 4);
    assert_eq!(value_display_length(&Cell::Text("caf\u{00E9}".to_string())), 4);
}
