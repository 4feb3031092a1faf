use poorerpoint::deck::{Span, Style};
use poorerpoint::wrap::{to_words, wrap_spans, wrap_words};

fn plain() -> Style {
    Style::default()
}

fn bold() -> Style {
    Style { bold: true, italic: false, code: false }
}

fn span(t: &str, style: Style) -> Span {
    Span { text: t.to_string(), style }
}

fn w(t: &str) -> (String, Style) {
    (t.to_string(), plain())
}

fn line_text(line: &[(String, Style)]) -> String {
    line.iter().map(|(t, _)| t.as_str()).collect()
}

#[test]
fn words_split_at_whitespace_across_spans() {
    let spans = vec![span("  hello  wor", plain()), span("ld\tx\n", bold())];
    let words = to_words(&spans);
    assert_eq!(words, vec![w("hello"), w("world"), ("x".to_string(), bold())]);
}

#[test]
fn words_of_blank_text_are_none() {
    assert!(to_words(&[span(" \t\n ", plain())]).is_empty());
    assert!(to_words(&[]).is_empty());
}

#[test]
fn words_take_style_of_first_char() {
    let spans = vec![span("ab", bold()), span("cd e", plain())];
    assert_eq!(to_words(&spans), vec![("abcd".to_string(), bold()), w("e")]);
}

#[test]
fn wrap_fills_lines_to_width() {
    let words = vec![w("aaa"), w("bbb"), w("ccc"), w("dddd")];
    let lines = wrap_words(&words, "", "", 7);
    let texts: Vec<String> = lines.iter().map(|l| line_text(l)).collect();
    assert_eq!(texts, vec!["aaa bbb", "ccc", "dddd"]);
    // every line starts with its (empty) prefix span
    assert_eq!(lines[0][0], w(""));
}

#[test]
fn wrap_keeps_long_word_whole_on_its_own_line() {
    let words = vec![w("a"), w("abcdefghij"), w("b")];
    let lines = wrap_words(&words, "", "", 4);
    let texts: Vec<String> = lines.iter().map(|l| line_text(l)).collect();
    assert_eq!(texts, vec!["a", "abcdefghij", "b"]);
}

#[test]
fn wrap_uses_first_and_continuation_prefixes() {
    let words = vec![w("one"), w("two"), w("three")];
    let lines = wrap_words(&words, "• ", "  ", 9);
    let texts: Vec<String> = lines.iter().map(|l| line_text(l)).collect();
    assert_eq!(texts, vec!["• one two", "  three"]);
}

#[test]
fn wrap_space_takes_style_of_next_word() {
    let words = vec![w("a"), ("b".to_string(), bold())];
    let lines = wrap_words(&words, "", "", 80);
    assert_eq!(lines, vec![vec![w(""), w("a"), (" ".to_string(), bold()), ("b".to_string(), bold())]]);
}

#[test]
fn wrap_of_nothing() {
    assert!(wrap_words(&[], "", "", 10).is_empty());
    assert_eq!(wrap_words(&[], "• ", "  ", 10), vec![vec![w("• ")]]);
}

#[test]
fn wrap_spans_is_words_then_wrap() {
    let spans = vec![span("the quick brown fox", plain())];
    let lines = wrap_spans(&spans, "", "", 10);
    let texts: Vec<String> = lines.iter().map(|l| line_text(l)).collect();
    assert_eq!(texts, vec!["the quick", "brown fox"]);
}

#[test]
fn wrap_counts_characters_not_bytes() {
    let words = vec![w("ééé"), w("üü")];
    let lines = wrap_words(&words, "", "", 6);
    assert_eq!(lines.len(), 1);
    let lines = wrap_words(&words, "", "", 5);
    assert_eq!(lines.len(), 2);
}

#[test]
fn unicode_whitespace_splits_words_and_zero_width_space_does_not() {
    let words = to_words(&[span("a\u{3000}b\u{85}c\u{a0}d\u{200b}e\u{2029}f", plain())]);
    let texts: Vec<String> = words.into_iter().map(|(t, _)| t).collect();
    assert_eq!(texts, vec!["a", "b", "c", "d\u{200b}e", "f"]);
}

#[test]
fn words_are_the_maximal_runs_between_whitespace() {
    let words = to_words(&[span("  ab", plain()), span("cd ", bold()), span(" \te", plain())]);
    assert_eq!(words, vec![("abcd".to_string(), plain()), ("e".to_string(), plain())]);
}
