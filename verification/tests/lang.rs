use docx_rs::Lang;
use std::str;

#[test]
fn test_lang() {
    let b = Lang::new("de-DE").build();
    assert_eq!(str::from_utf8(&b).unwrap(), r#"<w:lang w:val="de-DE" />"#);
}

#[test]
fn test_lang_all_scripts() {
    let b = Lang::new("it-IT").east_asia("ja-JP").bidi("ar-SA").build();
    assert_eq!(
        str::from_utf8(&b).unwrap(),
        r#"<w:lang w:val="it-IT" w:eastAsia="ja-JP" w:bidi="ar-SA" />"#
    );
}

#[test]
fn lang_default_has_no_attributes() {
    let b = Lang::default().build();
    assert_eq!(str::from_utf8(&b).unwrap(), "<w:lang />");
}

#[test]
fn lang_attribute_order_is_fixed() {
    let l = Lang::default().bidi("he-IL").east_asia("zh-CN");
    assert_eq!(
        str::from_utf8(&l.build()).unwrap(),
        r#"<w:lang w:eastAsia="zh-CN" w:bidi="he-IL" />"#
    );
}

#[test]
fn lang_builders_keep_other_fields_and_last_write_wins() {
    let l = Lang::new("en-US").east_asia("ja-JP").east_asia("ko-KR");
    assert_eq!(l.val.as_deref(), Some("en-US"));
    assert_eq!(l.east_asia.as_deref(), Some("ko-KR"));
    assert_eq!(l.bidi, None);
    let c = l.clone();
    assert_eq!(c, l);
}

#[test]
fn lang_build_to_appends() {
    let mut out = String::from("<w:rPr>");
    Lang::new("fr-FR").build_to(&mut out);
    assert_eq!(out, r#"<w:rPr><w:lang w:val="fr-FR" />"#);
}

#[test]
fn lang_values_are_written_verbatim() {
    let b = Lang::new("x&y").build();
    assert_eq!(str::from_utf8(&b).unwrap(), r#"<w:lang w:val="x&y" />"#);
}
