use latex_index::index::Index;
use latex_index::macros::{extract_macros, parse_decimal_u32};

#[test]
fn newcommand_basic() {
    let mut idx = Index::new();
    let text = r#"\newcommand{\R}{\mathbb{R}}"#;
    extract_macros(text, "a.tex", &mut idx);
    let m = idx.macros.get("R").unwrap();
    assert_eq!(m.body, "\\mathbb{R}");
    assert_eq!(m.arity, 0);
}

#[test]
fn newcommand_starred() {
    let mut idx = Index::new();
    let text = r#"\newcommand*{\H}{\mathbb{H}}"#;
    extract_macros(text, "a.tex", &mut idx);
    assert!(idx.macros.get("H").is_some());
}

#[test]
fn newcommand_with_arity() {
    let mut idx = Index::new();
    let text = r#"\newcommand{\norm}[1]{\left\|#1\right\|}"#;
    extract_macros(text, "a.tex", &mut idx);
    let m = idx.macros.get("norm").unwrap();
    assert_eq!(m.arity, 1);
    assert!(m.body.contains("#1"));
}

#[test]
fn def_with_bare_name() {
    let mut idx = Index::new();
    let text = r#"\def\R{\mathbb{R}}"#;
    extract_macros(text, "a.tex", &mut idx);
    let m = idx.macros.get("R").unwrap();
    assert_eq!(m.body, "\\mathbb{R}");
}

#[test]
fn declare_math_operator() {
    let mut idx = Index::new();
    let text = r#"\DeclareMathOperator{\div}{div}"#;
    extract_macros(text, "a.tex", &mut idx);
    let m = idx.macros.get("div").unwrap();
    assert_eq!(m.body, "\\operatorname{div}");
}

#[test]
fn nested_braces_in_body() {
    let mut idx = Index::new();
    let text = r#"\newcommand{\x}{\sqrt{\frac{a}{b}}}"#;
    extract_macros(text, "a.tex", &mut idx);
    let m = idx.macros.get("x").unwrap();
    assert_eq!(m.body, "\\sqrt{\\frac{a}{b}}");
}

#[test]
fn arity_parsing_follows_u32_rules() {
    assert_eq!(parse_decimal_u32(b"2"), Some(2));
    assert_eq!(parse_decimal_u32(b"+7"), Some(7));
    assert_eq!(parse_decimal_u32(b""), None);
    assert_eq!(parse_decimal_u32(b"+"), None);
    assert_eq!(parse_decimal_u32(b"-1"), None);
    assert_eq!(parse_decimal_u32(b"4294967295"), Some(4294967295));
    assert_eq!(parse_decimal_u32(b"4294967296"), None);
    assert_eq!(parse_decimal_u32(b"1x"), None);
}

#[test]
fn spaced_arity_and_bad_arity() {
    let mut idx = Index::new();
    extract_macros("\\newcommand{\\a} [ 2 ] {#1+#2}\\newcommand{\\b}[x]{y}", "a.tex", &mut idx);
    assert_eq!(idx.macros.get("a").unwrap().arity, 2);
    assert!(idx.macros.get("b").is_none());
}

#[test]
fn first_definition_wins_and_file_is_recorded() {
    let mut idx = Index::new();
    extract_macros("\\def\\v{1}\\renewcommand{\\v}{2}", "f.tex", &mut idx);
    let m = idx.macros.get("v").unwrap();
    assert_eq!(m.body, "1");
    assert_eq!(m.file, "f.tex");
}
