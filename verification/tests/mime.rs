use vmod_fileserver::mime::{parse_mime_lines, split_words, MimeDb};

fn lines(text: &str) -> Vec<String> {
    text.lines().map(|l| l.to_string()).collect()
}

#[test]
fn duplicate_extension_uses_last_value() {
    let h = parse_mime_lines(&lines(
        "text/plain txt\napplication/pdf pdf\napplication/text txt\n",
    ));
    assert_eq!(h.get("txt"), Some("application/text"));
    assert_eq!(h.get("pdf"), Some("application/pdf"));
}

#[test]
fn good() {
    let h = parse_mime_lines(&lines(
        "# a comment\ntype1 t1 T1\n#type2 t2\n\ntype3\tt3 ty3  T3\n",
    ));
    assert_eq!(h.get("t1"), Some("type1"));
    assert_eq!(h.get("T1"), Some("type1"));
    assert_eq!(h.get("t3"), Some("type3"));
    assert_eq!(h.get("ty3"), Some("type3"));
    assert_eq!(h.get("T3"), Some("type3"));
    assert_eq!(h.get("t2"), None);
}

#[test]
fn words_split_on_unicode_white_space() {
    let line = " a\u{3000}b\u{a0}c\t\r\nd  ";
    assert_eq!(split_words(line), line.split_whitespace().collect::<Vec<_>>());
    assert_eq!(split_words(line), vec!["a", "b", "c", "d"]);
    assert_eq!(split_words("   "), Vec::<&str>::new());
}

#[test]
fn only_the_first_word_marks_a_comment() {
    let h = parse_mime_lines(&lines("text/html html # htm\n"));
    assert_eq!(h.get("html"), Some("text/html"));
    assert_eq!(h.get("#"), Some("text/html"));
    assert_eq!(h.get("htm"), Some("text/html"));
    assert_eq!(h.len(), 3);
}

#[test]
fn type_without_extensions_defines_nothing() {
    let h = parse_mime_lines(&lines("application/octet-stream\n"));
    assert_eq!(h.len(), 0);
}

#[test]
fn last_listing_wins_within_a_line_too() {
    let mut h = MimeDb::new();
    h.add_line("a/x e e");
    h.add_line("b/y f");
    h.add_line("c/z f e");
    assert_eq!(h.get("e"), Some("c/z"));
    assert_eq!(h.get("f"), Some("c/z"));
    assert_eq!(h.len(), 2);
}

#[test]
fn insert_replaces() {
    let mut h = MimeDb::new();
    h.insert("txt".to_string(), "a/b".to_string());
    h.insert("txt".to_string(), "c/d".to_string());
    assert_eq!(h.get("txt"), Some("c/d"));
    assert_eq!(h.len(), 1);
    assert_eq!(h.get("TXT"), None);
}
