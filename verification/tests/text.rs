use tubegrab::engine::first_line_trimmed;
use tubegrab::text::{decimal_string, parse_u32, parse_u64};

fn chars(s: &str) -> Vec<char> {
    s.chars().collect()
}

#[test]
fn trim_uses_unicode_whitespace() {
    assert_eq!(first_line_trimmed("  a b \t\r\n"), "a b");
    assert_eq!(first_line_trimmed("\u{3000}x\u{a0}"), "x");
    assert_eq!(first_line_trimmed(" \u{85}\u{2028} "), "");
    assert_eq!(first_line_trimmed("\u{200b}x"), "\u{200b}x");
}

#[test]
fn unsigned_parsing_matches_std() {
    for s in ["0", "+7", "42", "4294967295", "4294967296", "", "+", "-1", "1a", " 1", "++1", "007"] {
        assert_eq!(parse_u32(&chars(s)), s.parse::<u32>().ok(), "{s}");
        assert_eq!(parse_u64(&chars(s)), s.parse::<u64>().ok(), "{s}");
    }
    assert_eq!(parse_u64(&chars("18446744073709551615")), Some(u64::MAX));
    assert_eq!(parse_u64(&chars("18446744073709551616")), None);
}

#[test]
fn decimal_round_trip() {
    for n in [0u32, 7, 10, 1080, 2160, u32::MAX] {
        let s = decimal_string(n);
        assert_eq!(s, n.to_string());
        assert_eq!(parse_u32(&chars(&s)), Some(n));
    }
}
