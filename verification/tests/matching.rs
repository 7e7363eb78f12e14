use password_vault::like::{chars_of, sql_like};
use password_vault::patterns::{is_valid_master_passphrase, looks_like_ip_address};

#[test]
fn like_percent_matches_any_run() {
    assert!(sql_like("%abc%", "xxabcxx"));
    assert!(sql_like("%abc%", "abc"));
    assert!(!sql_like("%abc%", "abxc"));
    assert!(sql_like("%", ""));
    assert!(sql_like("%%", "anything"));
}

#[test]
fn like_underscore_matches_one_character() {
    assert!(sql_like("a_c", "abc"));
    assert!(sql_like("a_c", "aéc"));
    assert!(!sql_like("a_c", "ac"));
    assert!(!sql_like("a_c", "abbc"));
}

#[test]
fn like_backslash_escapes() {
    assert!(sql_like("a\\%", "a%"));
    assert!(!sql_like("a\\%", "ab"));
    assert!(sql_like("a\\_", "a_"));
    assert!(!sql_like("a\\_", "ab"));
    // A trailing backslash stands for itself.
    assert!(sql_like("a\\", "a\\"));
}

#[test]
fn like_empty_pattern_matches_only_empty_text() {
    assert!(sql_like("", ""));
    assert!(!sql_like("", "a"));
}

#[test]
fn like_is_case_sensitive() {
    assert!(!sql_like("%ABC%", "abc"));
}

#[test]
fn like_contained_text_law_on_values() {
    // A name that contains the query matches `%query%`, wildcards included.
    assert!(sql_like("%a_b%", "xxa_byy"));
    assert!(sql_like("%50%%", "save 50% now"));
    // A name with a backslash may miss its own pattern.
    assert!(!sql_like("%\\%", "\\"));
}

#[test]
fn chars_of_keeps_every_character() {
    assert_eq!(chars_of("héllo"), vec!['h', 'é', 'l', 'l', 'o']);
    assert_eq!(chars_of(""), Vec::<char>::new());
}

#[test]
fn master_passphrase_needs_sixteen_in_a_row() {
    assert!(is_valid_master_passphrase("0123456789abcdef"));
    assert!(!is_valid_master_passphrase("0123456789abcde"));
    assert!(!is_valid_master_passphrase("01234567\n89abcdef"));
    assert!(is_valid_master_passphrase("short\n0123456789abcdef"));
    assert!(is_valid_master_passphrase("ééééééééééééééééé"));
}

#[test]
fn ip_shaped_names_are_spotted() {
    assert!(looks_like_ip_address("192.168.0.1"));
    assert!(looks_like_ip_address("host 10.0.0.1:8080"));
    assert!(looks_like_ip_address("1.2.3.4"));
    assert!(!looks_like_ip_address("example.com"));
    assert!(!looks_like_ip_address("1.2.3"));
    assert!(!looks_like_ip_address("1234.5.6"));
}
