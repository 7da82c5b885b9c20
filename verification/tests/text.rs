use dc::text::{chars_of, has_word, str_eq, trim};

#[test]
fn trimming() {
    assert_eq!(trim("  a b \n"), "a b");
    assert_eq!(trim("\u{2003}x\u{a0}"), "x");
    assert_eq!(trim(" \t "), "");
    assert_eq!(trim(""), "");
    assert_eq!(trim("ab"), "ab");
}

#[test]
fn words() {
    assert!(has_word("test-class other-class", "other-class"));
    assert!(has_word("  a\tb\n", "b"));
    assert!(!has_word("ab", "a"));
    assert!(!has_word("a b", ""));
    assert!(!has_word("", "a"));
    assert!(has_word("x\u{3000}y", "y"));
}

#[test]
fn characters_and_equality() {
    assert_eq!(chars_of("héllo"), vec!['h', 'é', 'l', 'l', 'o']);
    assert!(str_eq("abc", "abc"));
    assert!(!str_eq("abc", "abd"));
}

#[test]
fn white_space_set() {
    assert_eq!(trim("\u{2028}\u{85}a\u{3000}"), "a");
    assert_eq!(trim("\u{200b}a"), "\u{200b}a");
    assert!(!has_word("a\u{200b}b", "a"));
    assert!(dc::text::char_is_white_space('\u{1680}'));
    assert!(!dc::text::char_is_white_space('\u{200b}'));
    for c in ['\t', '\n', '\u{b}', '\u{c}', '\r', ' ', '\u{a0}', '\u{2000}', '\u{200a}', '\u{2029}', '\u{202f}', '\u{205f}'] {
        assert_eq!(dc::text::char_is_white_space(c), c.is_whitespace());
    }
}
