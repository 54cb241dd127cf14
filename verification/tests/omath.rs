use docx_rs::{OMath, OMathElement};
use std::str;

#[test]
fn test_omath_run() {
    let b = OMath::new("E=mc").build();
    let s = str::from_utf8(&b).unwrap();
    assert!(s.contains("<m:oMath>"), "oMath element");
    assert!(s.contains("<m:r><m:t xml:space=\"preserve\">E=mc</m:t></m:r>"));
    assert!(!s.contains("m:oMathPara"), "inline by default");
}

#[test]
fn test_omath_superscript() {
    let math = OMath::from_elements(vec![OMathElement::SuperScript {
        base: vec![OMathElement::Run("x".into())],
        sup: vec![OMathElement::Run("2".into())],
    }]);
    let s = str::from_utf8(&math.build()).unwrap().to_string();
    assert!(s.contains("<m:sSup>"));
    assert!(s.contains("<m:e>"));
    assert!(s.contains("<m:sup>"));
}

#[test]
fn test_omath_fraction_display() {
    let math = OMath::from_elements(vec![OMathElement::Fraction {
        numerator: vec![OMathElement::Run("1".into())],
        denominator: vec![OMathElement::Run("2".into())],
    }])
    .display();
    let s = str::from_utf8(&math.build()).unwrap().to_string();
    assert!(s.contains("<m:oMathPara>"));
    assert!(s.contains("<m:f>"));
    assert!(s.contains("<m:num>"));
    assert!(s.contains("<m:den>"));
}

#[test]
fn test_omath_radical_sqrt_hides_degree() {
    let math = OMath::from_elements(vec![OMathElement::Radical {
        degree: None,
        radicand: vec![OMathElement::Run("2".into())],
    }]);
    let s = str::from_utf8(&math.build()).unwrap().to_string();
    assert!(s.contains("<m:rad>"));
    assert!(s.contains("m:degHide"));
    assert!(s.contains("m:val=\"1\""), "sqrt hides the degree");
}

#[test]
fn test_omath_nary_sum() {
    let math = OMath::from_elements(vec![OMathElement::Nary {
        operator: "\u{2211}".into(),
        sub: vec![OMathElement::Run("i=1".into())],
        sup: vec![OMathElement::Run("n".into())],
        body: vec![OMathElement::Run("i".into())],
    }]);
    let s = str::from_utf8(&math.build()).unwrap().to_string();
    assert!(s.contains("<m:nary>"));
    assert!(s.contains("m:chr"));
    assert!(s.contains("<m:sub>"));
    assert!(s.contains("<m:sup>"));
}

#[test]
fn test_omath_run_escapes_xml_metacharacters() {
    // `<`, `>`, `&` in math text must be escaped or document.xml is
    // malformed and Word offers to repair (dropping the equation).
    let s = str::from_utf8(&OMath::new("a < b & c > d").build())
        .unwrap()
        .to_string();
    assert!(s.contains("a &lt; b &amp; c &gt; d"), "got: {s}");
    assert!(!s.contains("a < b"), "raw < must not survive");
}

#[test]
fn test_omath_delimiter_attr_is_escaped() {
    // A user-supplied delimiter glyph of `<`/`>` must be escaped in m:val.
    let math = OMath::from_elements(vec![OMathElement::Delimited {
        begin: "<".into(),
        end: ">".into(),
        body: vec![OMathElement::Run("x".into())],
    }]);
    let s = str::from_utf8(&math.build()).unwrap().to_string();
    assert!(s.contains("m:val=\"&lt;\""), "begChr escaped: {s}");
    assert!(s.contains("m:val=\"&gt;\""), "endChr escaped");
}

fn run(t: &str) -> OMathElement {
    OMathElement::Run(t.to_string())
}

fn built(m: &OMath) -> String {
    String::from_utf8(m.build()).unwrap()
}

#[test]
fn omath_run_exact_output() {
    assert_eq!(
        built(&OMath::new("E=mc")),
        "<m:oMath><m:r><m:t xml:space=\"preserve\">E=mc</m:t></m:r></m:oMath>"
    );
}

#[test]
fn omath_empty_run_keeps_both_text_tags() {
    assert_eq!(
        built(&OMath::new("")),
        "<m:oMath><m:r><m:t xml:space=\"preserve\"></m:t></m:r></m:oMath>"
    );
}

#[test]
fn omath_without_elements_is_an_empty_element() {
    assert_eq!(built(&OMath::from_elements(vec![])), "<m:oMath />");
    assert_eq!(
        built(&OMath::from_elements(vec![]).display()),
        "<m:oMathPara><m:oMath /></m:oMathPara>"
    );
}

#[test]
fn omath_display_wraps_the_inline_equation() {
    let inline = built(&OMath::from_elements(vec![run("x"), run("y")]));
    let display = built(&OMath::from_elements(vec![run("x"), run("y")]).display());
    assert_eq!(display, format!("<m:oMathPara>{inline}</m:oMathPara>"));
}

#[test]
fn omath_elements_are_written_in_order() {
    let a = built(&OMath::from_elements(vec![run("a")]));
    let b = built(&OMath::from_elements(vec![run("b")]));
    let ab = built(&OMath::from_elements(vec![run("a"), run("b")]));
    let inner = |s: &str| s["<m:oMath>".len()..s.len() - "</m:oMath>".len()].to_string();
    assert_eq!(inner(&ab), format!("{}{}", inner(&a), inner(&b)));
}

#[test]
fn omath_superscript_exact_output() {
    let math = OMath::from_elements(vec![OMathElement::SuperScript {
        base: vec![run("x")],
        sup: vec![run("2")],
    }]);
    assert_eq!(
        built(&math),
        "<m:oMath><m:sSup><m:e><m:r><m:t xml:space=\"preserve\">x</m:t></m:r></m:e>\
         <m:sup><m:r><m:t xml:space=\"preserve\">2</m:t></m:r></m:sup></m:sSup></m:oMath>"
    );
}

#[test]
fn omath_subscript_with_empty_slot() {
    let math = OMath::from_elements(vec![OMathElement::SubScript { base: vec![run("x")], sub: vec![] }]);
    assert_eq!(
        built(&math),
        "<m:oMath><m:sSub><m:e><m:r><m:t xml:space=\"preserve\">x</m:t></m:r></m:e>\
         <m:sub /></m:sSub></m:oMath>"
    );
}

#[test]
fn omath_sub_superscript_exact_output() {
    let math = OMath::from_elements(vec![OMathElement::SubSuperScript {
        base: vec![run("a")],
        sub: vec![run("i")],
        sup: vec![run("2")],
    }]);
    assert_eq!(
        built(&math),
        "<m:oMath><m:sSubSup><m:e><m:r><m:t xml:space=\"preserve\">a</m:t></m:r></m:e>\
         <m:sub><m:r><m:t xml:space=\"preserve\">i</m:t></m:r></m:sub>\
         <m:sup><m:r><m:t xml:space=\"preserve\">2</m:t></m:r></m:sup></m:sSubSup></m:oMath>"
    );
}

#[test]
fn omath_fraction_exact_output() {
    let math = OMath::from_elements(vec![OMathElement::Fraction {
        numerator: vec![run("1")],
        denominator: vec![run("2")],
    }]);
    assert_eq!(
        built(&math),
        "<m:oMath><m:f><m:num><m:r><m:t xml:space=\"preserve\">1</m:t></m:r></m:num>\
         <m:den><m:r><m:t xml:space=\"preserve\">2</m:t></m:r></m:den></m:f></m:oMath>"
    );
}

#[test]
fn omath_square_root_exact_output() {
    let math = OMath::from_elements(vec![OMathElement::Radical { degree: None, radicand: vec![run("2")] }]);
    assert_eq!(
        built(&math),
        "<m:oMath><m:rad><m:radPr><m:degHide m:val=\"1\" /></m:radPr><m:deg />\
         <m:e><m:r><m:t xml:space=\"preserve\">2</m:t></m:r></m:e></m:rad></m:oMath>"
    );
}

#[test]
fn omath_cube_root_shows_degree() {
    let math = OMath::from_elements(vec![OMathElement::Radical {
        degree: Some(vec![run("3")]),
        radicand: vec![run("x")],
    }]);
    assert_eq!(
        built(&math),
        "<m:oMath><m:rad><m:radPr><m:degHide m:val=\"0\" /></m:radPr>\
         <m:deg><m:r><m:t xml:space=\"preserve\">3</m:t></m:r></m:deg>\
         <m:e><m:r><m:t xml:space=\"preserve\">x</m:t></m:r></m:e></m:rad></m:oMath>"
    );
}

#[test]
fn omath_radical_with_empty_degree_is_not_hidden() {
    let math = OMath::from_elements(vec![OMathElement::Radical { degree: Some(vec![]), radicand: vec![] }]);
    assert_eq!(
        built(&math),
        "<m:oMath><m:rad><m:radPr><m:degHide m:val=\"0\" /></m:radPr><m:deg /><m:e /></m:rad></m:oMath>"
    );
}

#[test]
fn omath_nary_exact_output_and_hidden_limits() {
    let math = OMath::from_elements(vec![OMathElement::Nary {
        operator: "\u{222B}".into(),
        sub: vec![],
        sup: vec![run("1")],
        body: vec![run("f")],
    }]);
    assert_eq!(
        built(&math),
        "<m:oMath><m:nary><m:naryPr><m:chr m:val=\"\u{222B}\" /><m:subHide m:val=\"1\" />\
         <m:supHide m:val=\"0\" /></m:naryPr><m:sub />\
         <m:sup><m:r><m:t xml:space=\"preserve\">1</m:t></m:r></m:sup>\
         <m:e><m:r><m:t xml:space=\"preserve\">f</m:t></m:r></m:e></m:nary></m:oMath>"
    );
}

#[test]
fn omath_nary_operator_is_escaped() {
    let math = OMath::from_elements(vec![OMathElement::Nary {
        operator: "&".into(),
        sub: vec![],
        sup: vec![],
        body: vec![],
    }]);
    assert_eq!(
        built(&math),
        "<m:oMath><m:nary><m:naryPr><m:chr m:val=\"&amp;\" /><m:subHide m:val=\"1\" />\
         <m:supHide m:val=\"1\" /></m:naryPr><m:sub /><m:sup /><m:e /></m:nary></m:oMath>"
    );
}

#[test]
fn omath_delimited_invisible_delimiters() {
    let math = OMath::from_elements(vec![OMathElement::Delimited {
        begin: "".into(),
        end: ")".into(),
        body: vec![run("x")],
    }]);
    assert_eq!(
        built(&math),
        "<m:oMath><m:d><m:dPr><m:begChr m:val=\"\" /><m:endChr m:val=\")\" /></m:dPr>\
         <m:e><m:r><m:t xml:space=\"preserve\">x</m:t></m:r></m:e></m:d></m:oMath>"
    );
}

#[test]
fn omath_function_exact_output() {
    let math = OMath::from_elements(vec![OMathElement::Function { name: vec![run("sin")], body: vec![run("x")] }]);
    assert_eq!(
        built(&math),
        "<m:oMath><m:func><m:fName><m:r><m:t xml:space=\"preserve\">sin</m:t></m:r></m:fName>\
         <m:e><m:r><m:t xml:space=\"preserve\">x</m:t></m:r></m:e></m:func></m:oMath>"
    );
}

#[test]
fn omath_nested_tree() {
    let math = OMath::from_elements(vec![OMathElement::Fraction {
        numerator: vec![OMathElement::SuperScript { base: vec![run("e")], sup: vec![run("x")] }],
        denominator: vec![run("2")],
    }]);
    assert_eq!(
        built(&math),
        "<m:oMath><m:f><m:num><m:sSup><m:e><m:r><m:t xml:space=\"preserve\">e</m:t></m:r></m:e>\
         <m:sup><m:r><m:t xml:space=\"preserve\">x</m:t></m:r></m:sup></m:sSup></m:num>\
         <m:den><m:r><m:t xml:space=\"preserve\">2</m:t></m:r></m:den></m:f></m:oMath>"
    );
}

#[test]
fn omath_build_is_utf8() {
    let b = OMath::new("\u{2211}").build();
    let expected = "<m:oMath><m:r><m:t xml:space=\"preserve\">\u{2211}</m:t></m:r></m:oMath>";
    assert_eq!(b, expected.as_bytes().to_vec());
}

#[test]
fn omath_element_build_to_appends() {
    let mut out = String::from("prefix");
    run("a<b").build_to(&mut out);
    assert_eq!(out, "prefix<m:r><m:t xml:space=\"preserve\">a&lt;b</m:t></m:r>");
}

#[test]
fn omath_clone_is_deep_and_equal() {
    let math = OMath::from_elements(vec![OMathElement::Radical {
        degree: Some(vec![run("3")]),
        radicand: vec![OMathElement::Nary {
            operator: "\u{2211}".into(),
            sub: vec![run("i")],
            sup: vec![],
            body: vec![run("i")],
        }],
    }])
    .display();
    let copy = math.clone();
    assert_eq!(copy, math);
    assert_eq!(built(&copy), built(&math));
}

#[test]
fn omath_constructors() {
    let m = OMath::new("x");
    assert_eq!(m.elements, vec![run("x")]);
    assert!(!m.display);
    let f = OMath::from_elements(vec![run("y")]);
    assert!(!f.display);
    assert!(f.display().display);
}

/// A small reader that checks that tags nest and close in order.
fn tags_balance(s: &str) -> bool {
    let mut stack: Vec<String> = Vec::new();
    let mut rest = s;
    while let Some(lt) = rest.find('<') {
        if rest[..lt].contains('>') {
            return false;
        }
        let gt = match rest[lt..].find('>') {
            Some(g) => lt + g,
            None => return false,
        };
        let tag = &rest[lt + 1..gt];
        if let Some(name) = tag.strip_prefix('/') {
            if stack.pop().as_deref() != Some(name) {
                return false;
            }
        } else if !tag.ends_with('/') {
            stack.push(tag.split(' ').next().unwrap().to_string());
        }
        rest = &rest[gt + 1..];
    }
    !rest.contains('>') && stack.is_empty()
}

/// Every `&` in `s` starts one of the five predefined entity references.
fn ampersands_are_entities(s: &str) -> bool {
    s.match_indices('&').all(|(i, _)| {
        ["&amp;", "&lt;", "&gt;", "&quot;", "&apos;"].iter().any(|e| s[i..].starts_with(e))
    })
}

/// Decodes the five predefined entities.
fn unescape(s: &str) -> String {
    s.replace("&lt;", "<")
        .replace("&gt;", ">")
        .replace("&quot;", "\"")
        .replace("&apos;", "'")
        .replace("&amp;", "&")
}

#[test]
fn omath_output_is_well_formed() {
    let math = OMath::from_elements(vec![
        OMathElement::Delimited {
            begin: "<".into(),
            end: ">".into(),
            body: vec![OMathElement::Nary {
                operator: "&".into(),
                sub: vec![run("i<n")],
                sup: vec![],
                body: vec![OMathElement::Function { name: vec![run("f")], body: vec![run("x>0")] }],
            }],
        },
        OMathElement::Radical { degree: None, radicand: vec![] },
    ])
    .display();
    let s = built(&math);
    assert!(tags_balance(&s));
    assert!(ampersands_are_entities(&s));
    assert!(s.starts_with("<m:oMathPara>") && s.ends_with("</m:oMathPara>"));
    assert_eq!(s.matches("m:oMathPara").count(), 2);
}

#[test]
fn omath_glyphs_and_texts_read_back() {
    let math = OMath::from_elements(vec![
        OMathElement::Delimited {
            begin: "&lt;".into(),
            end: "\"'".into(),
            body: vec![run("a<b&c")],
        },
        OMathElement::Nary { operator: "<&>".into(), sub: vec![], sup: vec![], body: vec![run("")] },
    ]);
    let s = built(&math);
    let vals: Vec<String> = s
        .split("m:val=\"")
        .skip(1)
        .map(|rest| unescape(&rest[..rest.find('"').unwrap()]))
        .collect();
    assert_eq!(vals, vec!["&lt;", "\"'", "<&>", "1", "1"]);
    let texts: Vec<String> = s
        .split("<m:t xml:space=\"preserve\">")
        .skip(1)
        .map(|rest| unescape(&rest[..rest.find("</m:t>").unwrap()]))
        .collect();
    assert_eq!(texts, vec!["a<b&c", ""]);
}

#[test]
fn omath_text_named_like_the_wrapper_is_not_a_wrapper() {
    let s = built(&OMath::new("<m:oMathPara>"));
    assert!(!s.starts_with("<m:oMathPara>"));
    assert!(s.contains("&lt;m:oMathPara&gt;"));
}

#[test]
fn omath_copy_made_display_wraps_the_original() {
    let m = OMath::from_elements(vec![OMathElement::Fraction {
        numerator: vec![run("1")],
        denominator: vec![run("x")],
    }]);
    let copy = m.clone().display();
    assert_eq!(built(&copy), format!("<m:oMathPara>{}</m:oMathPara>", built(&m)));
}
