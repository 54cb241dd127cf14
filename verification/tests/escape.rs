use docx_rs::escape::escape;

#[test]
fn escape_replaces_all_five_metacharacters() {
    assert_eq!(escape(r#"a<b>c&d"e'f"#), "a&lt;b&gt;c&amp;d&quot;e&apos;f");
}

#[test]
fn escape_keeps_plain_text() {
    assert_eq!(escape("abc \u{2211} xyz"), "abc \u{2211} xyz");
    assert_eq!(escape(""), "");
}

#[test]
fn escape_does_not_double_escape_in_one_pass() {
    assert_eq!(escape("&amp;"), "&amp;amp;");
}

#[test]
fn escape_is_compositional() {
    let a = "x<y";
    let b = "&z>";
    assert_eq!(escape(&format!("{a}{b}")), format!("{}{}", escape(a), escape(b)));
}

#[test]
fn escape_reads_back() {
    let s = r#"<a href="x">&'</a>"#;
    let e = escape(s);
    assert!(!e.contains('<') && !e.contains('>') && !e.contains('"') && !e.contains('\''));
    let back = e
        .replace("&lt;", "<")
        .replace("&gt;", ">")
        .replace("&quot;", "\"")
        .replace("&apos;", "'")
        .replace("&amp;", "&");
    assert_eq!(back, s);
}
