use pulsar_web::text::{
    char_is_space, chars_of, has_prefix, has_substring, same_text, slice_of, split_on,
    split_once_on, stripped, trimmed, two_words, without_trailing,
};

fn s(text: &str) -> String {
    text.to_string()
}

#[test]
fn white_space_is_what_unicode_says() {
    for c in [' ', '\t', '\n', '\u{b}', '\u{c}', '\r', '\u{85}', '\u{a0}', '\u{1680}', '\u{2000}',
        '\u{200a}', '\u{2028}', '\u{2029}', '\u{202f}', '\u{205f}', '\u{3000}']
    {
        assert!(char_is_space(c));
        assert!(c.is_whitespace());
    }
    for c in ['a', '0', '\u{8}', '\u{e}', '\u{200b}', '\u{1f}', '\u{feff}'] {
        assert!(!char_is_space(c));
        assert!(!c.is_whitespace());
    }
}

#[test]
fn white_space_agrees_with_std_on_every_character() {
    let mut n: u32 = 0;
    while n <= 0x10ffff {
        if let Some(c) = char::from_u32(n) {
            assert_eq!(char_is_space(c), c.is_whitespace());
        }
        n += 1;
    }
}

#[test]
fn chars_are_read_in_order() {
    assert_eq!(chars_of("héllo"), vec!['h', 'é', 'l', 'l', 'o']);
    assert_eq!(chars_of(""), Vec::<char>::new());
}

#[test]
fn slice_counts_characters() {
    assert_eq!(slice_of("héllo", 1, 3), s("él"));
    assert_eq!(slice_of("abc", 0, 0), s(""));
    assert_eq!(slice_of("abc", 3, 3), s(""));
    assert_eq!(slice_of("abc", 0, 3), s("abc"));
}

#[test]
fn same_text_compares_characters() {
    assert!(same_text("abc", "abc"));
    assert!(same_text("", ""));
    assert!(!same_text("abc", "abd"));
    assert!(!same_text("abc", "ab"));
    assert!(!same_text("", "a"));
}

#[test]
fn split_keeps_empty_pieces() {
    assert_eq!(split_on("/a/b", '/'), vec![s(""), s("a"), s("b")]);
    assert_eq!(split_on("a//b/", '/'), vec![s("a"), s(""), s("b"), s("")]);
    assert_eq!(split_on("", '/'), vec![s("")]);
    assert_eq!(split_on("abc", '/'), vec![s("abc")]);
    assert_eq!(split_on("/", '/'), vec![s(""), s("")]);
}

#[test]
fn split_agrees_with_std() {
    for text in ["", "/", "a", "/a", "a/", "//", "a/b/c", "/a//b/", "héllo/wörld"] {
        let expected: Vec<String> = text.split('/').map(String::from).collect();
        assert_eq!(split_on(text, '/'), expected);
    }
}

#[test]
fn split_once_splits_at_the_first() {
    assert_eq!(split_once_on("a=b=c", '='), Some((s("a"), s("b=c"))));
    assert_eq!(split_once_on("=b", '='), Some((s(""), s("b"))));
    assert_eq!(split_once_on("a=", '='), Some((s("a"), s(""))));
    assert_eq!(split_once_on("abc", '='), None);
    assert_eq!(split_once_on("", '='), None);
}

#[test]
fn trimmed_drops_white_space_at_both_ends() {
    assert_eq!(trimmed("  a b \r\n"), s("a b"));
    assert_eq!(trimmed("a"), s("a"));
    assert_eq!(trimmed(" \t "), s(""));
    assert_eq!(trimmed(""), s(""));
    assert_eq!(trimmed("\u{3000}x\u{a0}"), s("x"));
}

#[test]
fn stripped_drops_the_runs() {
    assert_eq!(stripped("<name>", '<', '>'), s("name"));
    assert_eq!(stripped("<<a<>>", '<', '>'), s("a<"));
    assert_eq!(stripped("<>", '<', '>'), s(""));
    assert_eq!(stripped("name", '<', '>'), s("name"));
}

#[test]
fn without_trailing_drops_the_run_at_the_end() {
    assert_eq!(without_trailing("line\r", '\r'), s("line"));
    assert_eq!(without_trailing("line\r\r", '\r'), s("line"));
    assert_eq!(without_trailing("\rline", '\r'), s("\rline"));
    assert_eq!(without_trailing("\r", '\r'), s(""));
    assert_eq!(without_trailing("", '\r'), s(""));
}

#[test]
fn prefix_is_tested_by_characters() {
    assert!(has_prefix("GET /", "GET"));
    assert!(has_prefix("GET", "GET"));
    assert!(has_prefix("GET", ""));
    assert!(!has_prefix("GE", "GET"));
    assert!(!has_prefix("get /", "GET"));
    assert!(!has_prefix(" GET /", "GET"));
}

#[test]
fn substring_is_found_anywhere() {
    assert!(has_substring("a=1; Secure", "Secure"));
    assert!(has_substring("Secure", "Secure"));
    assert!(has_substring("xSecurex", "Secure"));
    assert!(has_substring("abc", ""));
    assert!(has_substring("", ""));
    assert!(!has_substring("a=1; secure", "Secure"));
    assert!(!has_substring("Secur", "Secure"));
    assert!(!has_substring("", "a"));
    assert!(has_substring("aab", "ab"));
}

#[test]
fn two_words_are_the_first_two() {
    assert_eq!(two_words("GET /a/b HTTP/1.1"), (s("GET"), s("/a/b")));
    assert_eq!(two_words("  GET \t /a  x"), (s("GET"), s("/a")));
    assert_eq!(two_words("GET"), (s("GET"), s("")));
    assert_eq!(two_words("GET   "), (s("GET"), s("")));
    assert_eq!(two_words(""), (s(""), s("")));
    assert_eq!(two_words("   "), (s(""), s("")));
}
