use rust_rim::text::{
    parse_u64, path_join, str_eq, to_chars, to_forward_slashes, trim_str, u64_to_string,
};

#[test]
fn decimal_rendering_round_trips() {
    for n in [0u64, 7, 10, 42, 294100, 1_000_000_007, u64::MAX] {
        let s = u64_to_string(n);
        assert_eq!(s, n.to_string());
        assert_eq!(parse_u64(&s), Some(n));
    }
}

#[test]
fn parse_u64_follows_std_parse() {
    assert_eq!(parse_u64("123"), Some(123));
    assert_eq!(parse_u64("+5"), Some(5));
    assert_eq!(parse_u64("007"), Some(7));
    assert_eq!(parse_u64("18446744073709551615"), Some(u64::MAX));
    assert_eq!(parse_u64("18446744073709551616"), None);
    assert_eq!(parse_u64(""), None);
    assert_eq!(parse_u64("+"), None);
    assert_eq!(parse_u64("-5"), None);
    assert_eq!(parse_u64("12a"), None);
    assert_eq!(parse_u64(" 12"), None);
    for s in ["0", "+0", "99", "abc", "+-1", "4294967296"] {
        assert_eq!(parse_u64(s), s.parse::<u64>().ok());
    }
}

#[test]
fn trim_removes_unicode_whitespace() {
    assert_eq!(trim_str("  a b \t\n"), "a b");
    assert_eq!(trim_str("\u{3000}x\u{a0}"), "x");
    assert_eq!(trim_str("   "), "");
    assert_eq!(trim_str(""), "");
    for s in ["\u{2028}ab\u{2029}", " \u{85}q\u{1680}", "\u{200b}z"] {
        assert_eq!(trim_str(s), s.trim());
    }
}

#[test]
fn path_join_like_path_join() {
    assert_eq!(path_join("/base", "steam"), "/base/steam");
    assert_eq!(path_join("/base/", "steam"), "/base/steam");
    assert_eq!(path_join("", "steam"), "steam");
    assert_eq!(path_join("/base", "/abs"), "/abs");
    let p = std::path::Path::new("rel/dir").join("x");
    assert_eq!(path_join("rel/dir", "x"), p.to_string_lossy());
}

#[test]
fn forward_slashes_replace_backslashes() {
    assert_eq!(to_forward_slashes("C:\\Games\\steam"), "C:/Games/steam");
    assert_eq!(to_forward_slashes("/unix/path"), "/unix/path");
}

#[test]
fn string_equality_and_chars() {
    assert!(str_eq("abc", "abc"));
    assert!(!str_eq("abc", "abd"));
    assert!(!str_eq("abc", "ab"));
    assert_eq!(to_chars("héllo"), vec!['h', 'é', 'l', 'l', 'o']);
}
