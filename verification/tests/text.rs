use singlerpc::text::characters;
use singlerpc::text::first_segment;
use singlerpc::text::is_white_space;
use singlerpc::text::same_text;
use singlerpc::text::split;
use singlerpc::text::strip_prefix;
use singlerpc::text::trim;

#[test]
fn white_space_is_what_unicode_says() {
    for n in 0..=0x10ffffu32 {
        if let Some(c) = char::from_u32(n) {
            assert_eq!(is_white_space(c), c.is_whitespace(), "{n:x}");
        }
    }
}

#[test]
fn trim_drops_white_space_at_both_ends() {
    for s in ["", " ", " a ", "\u{3000}a b\n", "\t\r\n", "x", "\u{a0}\u{e9} \u{2003}"] {
        assert_eq!(trim(s), s.trim());
    }
}

#[test]
fn split_gives_the_pieces() {
    for s in ["", ".", "a", "a.b", ".a..b.", "1.2.3", "\u{e9}.\u{e8}"] {
        let expected: Vec<String> = s.split('.').map(|p| p.to_string()).collect();
        assert_eq!(split(s, '.'), expected);
    }
}

#[test]
fn the_first_segment_that_is_not_empty_counts() {
    assert_eq!(first_segment(""), None);
    assert_eq!(first_segment("/"), None);
    assert_eq!(first_segment("///"), None);
    assert_eq!(first_segment("/1"), Some("1".to_string()));
    assert_eq!(first_segment("//eth-mainnet/x"), Some("eth-mainnet".to_string()));
    assert_eq!(first_segment("a/b"), Some("a".to_string()));
}

#[test]
fn prefixes_are_stripped_once() {
    assert_eq!(strip_prefix("0x0x1", "0x"), Some("0x1"));
    assert_eq!(strip_prefix("0x", "0x"), Some(""));
    assert_eq!(strip_prefix("0", "0x"), None);
    assert_eq!(strip_prefix("\u{e9}a", "\u{e9}"), Some("a"));
    assert_eq!(strip_prefix("b", ""), Some("b"));
}

#[test]
fn text_is_compared_by_its_characters() {
    assert!(same_text("", ""));
    assert!(same_text("ab", "ab"));
    assert!(!same_text("ab", "abc"));
    assert!(!same_text("ab", "aB"));
    assert_eq!(characters("a\u{e9}\u{1f600}"), vec!['a', '\u{e9}', '\u{1f600}']);
}
