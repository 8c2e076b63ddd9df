use spidero::escape::escape_default;

#[test]
fn escape_keeps_plain_text() {
    assert_eq!(escape_default("hello world"), "hello world");
}

#[test]
fn escape_control_and_quotes() {
    assert_eq!(escape_default("a\tb\rc\nd"), "a\\tb\\rc\\nd");
    assert_eq!(escape_default("'\"\\"), "\\'\\\"\\\\");
}

#[test]
fn escape_unicode_as_hex() {
    assert_eq!(escape_default("é"), "\\u{e9}");
    assert_eq!(escape_default("\u{7f}"), "\\u{7f}");
    assert_eq!(escape_default("\u{0}"), "\\u{0}");
    assert_eq!(escape_default("中"), "\\u{4e2d}");
    assert_eq!(escape_default("\u{10ffff}"), "\\u{10ffff}");
}

#[test]
fn escape_matches_std() {
    let s = "tab\there \u{1b}[0m ünïcödé ☃ \"q\" 'a' \\ end\n";
    let expected: String = s.chars().flat_map(|c| c.escape_default()).collect();
    assert_eq!(escape_default(s), expected);
}

#[test]
fn escape_of_concatenation_is_concatenation_of_escapes() {
    let a = "x\ny";
    let b = "é\"z";
    let joined = format!("{}{}", a, b);
    assert_eq!(escape_default(&joined), format!("{}{}", escape_default(a), escape_default(b)));
}

#[test]
fn escape_output_is_printable_ascii() {
    let out = escape_default("\n\r\t\u{0}\u{7f}\u{a0}漢字 ok");
    assert!(out.chars().all(|c| (' '..='~').contains(&c)));
}

#[test]
fn escape_empty() {
    assert_eq!(escape_default(""), "");
}

#[test]
fn escape_is_itself_only_for_plain_text() {
    for s in ["plain text 123", "t", "u{41}"] {
        assert_eq!(escape_default(s), s);
    }
    for s in ["\t", "a'b", "\\", "é", "\u{7f}"] {
        assert_ne!(escape_default(s), s);
    }
}

#[test]
fn different_texts_have_different_escapes() {
    let texts = ["\t", "\\t", "t", "A", "\\u{41}", "\u{4e2d}", "\u{4e}2d", "", "\""];
    for (i, a) in texts.iter().enumerate() {
        for (j, b) in texts.iter().enumerate() {
            assert_eq!(i == j, escape_default(a) == escape_default(b), "{:?} {:?}", a, b);
        }
    }
}
