use word_index::strutil::{has_extension, parse_u64, remove_quotes, str_lex_le};

#[test]
fn extension_matches_final_segment() {
    assert!(has_extension("notes.txt", "txt"));
    assert!(has_extension("dir/sub/notes.txt", "txt"));
    assert!(has_extension("archive.zip", "zip"));
    assert!(has_extension("a.b.txt", "txt"));
    assert!(!has_extension("notes.txt", "zip"));
    assert!(!has_extension("notes", "txt"));
    assert!(!has_extension(".txt", "txt"));
    assert!(!has_extension("dir.txt/inner", "txt"));
    assert!(!has_extension("dir/x.txt/", "txt"));
}

#[test]
fn decimal_parsing_matches_std() {
    assert_eq!(parse_u64("0"), Some(0));
    assert_eq!(parse_u64("42"), Some(42));
    assert_eq!(parse_u64("+42"), Some(42));
    assert_eq!(parse_u64("18446744073709551615"), Some(u64::MAX));
    assert_eq!(parse_u64("18446744073709551616"), None);
    assert_eq!(parse_u64(""), None);
    assert_eq!(parse_u64("+"), None);
    assert_eq!(parse_u64("4x2"), None);
    assert_eq!(parse_u64("-1"), None);
}

#[test]
fn quote_stripping_keeps_other_characters() {
    assert_eq!(remove_quotes("'abc'"), "abc");
    assert_eq!(remove_quotes("\"a'b\"c"), "abc");
    assert_eq!(remove_quotes("plain"), "plain");
    assert_eq!(remove_quotes(""), "");
}

#[test]
fn lexicographic_order_is_by_code_point() {
    assert!(str_lex_le("", "a"));
    assert!(str_lex_le("a", "b"));
    assert!(str_lex_le("abc", "abd"));
    assert!(str_lex_le("ab", "abc"));
    assert!(!str_lex_le("b", "a"));
    assert!(!str_lex_le("abc", "ab"));
    assert!(str_lex_le("Z", "a"));
}
