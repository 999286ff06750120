use russus_launcher::text::{decimal_string, is_whitespace, str_contains, str_ends_with};

#[test]
fn whitespace_agrees_with_std_everywhere() {
    for u in 0u32..=0x10FFFF {
        if let Some(c) = char::from_u32(u) {
            assert_eq!(is_whitespace(c), c.is_whitespace(), "U+{u:04X}");
        }
    }
}

#[test]
fn decimal_matches_display() {
    for n in [0u64, 1, 9, 10, 42, 100, 999, 1000, 123456789, u64::MAX] {
        assert_eq!(decimal_string(n), n.to_string());
    }
}

#[test]
fn ends_with_and_contains_match_std() {
    let cases = [("app.dmg", ".dmg"), ("dmg", ".dmg"), ("", ""), ("abc", ""), ("ünï.dmg", "ï.dmg"), ("x64.dmg", "x64")];
    for (s, p) in cases {
        assert_eq!(str_ends_with(s, p), s.ends_with(p));
        assert_eq!(str_contains(s, p), s.contains(p));
    }
    assert!(str_contains("app_aarch64_1.dmg", "aarch64"));
    assert!(!str_contains("app_arm64.dmg", "aarch64"));
}
