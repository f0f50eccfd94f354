use yt_adguard_rules::text::{chars_of, is_whitespace, string_of, to_ascii_lower, trim_chars};

#[test]
fn whitespace_matches_char_is_whitespace() {
    for c in (0u32..=0x10FFFF).filter_map(char::from_u32) {
        assert_eq!(is_whitespace(c), c.is_whitespace(), "{:?}", c);
    }
}

#[test]
fn ascii_lower_matches_char_to_ascii_lowercase() {
    for c in (0u32..=0x10FFFF).filter_map(char::from_u32) {
        assert_eq!(to_ascii_lower(c), c.to_ascii_lowercase(), "{:?}", c);
    }
}

#[test]
fn trim_chars_matches_str_trim() {
    for s in ["", "  ", " a ", "\u{3000}x\u{2029}", "\r\n||a^\t", "a b", "\u{85}\u{a0}"] {
        let trimmed = trim_chars(&chars_of(s));
        assert_eq!(string_of(&trimmed), s.trim(), "{:?}", s);
    }
}

#[test]
fn chars_and_string_round_trip() {
    let s = "||ä.example^$important";
    assert_eq!(chars_of(s), s.chars().collect::<Vec<char>>());
    assert_eq!(string_of(&chars_of(s)), s);
}
