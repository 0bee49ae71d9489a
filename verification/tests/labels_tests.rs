use latex_index::index::Index;
use latex_index::labels::{collect_labels, detect_ref_at, extract_labels};

const SNIPPET_MAX_BYTES: usize = 4 * 1024;
const TRUNCATED_MARKER: &str = "% (truncated)";

#[test]
fn label_in_equation() {
    let mut idx = Index::new();
    let text = r#"\begin{equation}
a^2 + b^2 = c^2 \label{eq:pythag}
\end{equation}"#;
    extract_labels(text, "a.tex", &mut idx);
    let entry = idx.labels.get("eq:pythag").expect("label found");
    assert_eq!(entry.env, "equation");
    assert!(entry.math.is_some());
    assert_eq!(entry.math, Some([16, 51]));
}

#[test]
fn label_in_section() {
    let mut idx = Index::new();
    let text = r#"\section{Introduction}\label{sec:intro}
body"#;
    extract_labels(text, "a.tex", &mut idx);
    let entry = idx.labels.get("sec:intro").expect("label found");
    assert_eq!(entry.env, "section");
    assert_eq!(entry.caption, "Introduction");
}

#[test]
fn nested_env_labels() {
    let mut idx = Index::new();
    let text = r#"\begin{align}
\begin{equation}
x = 1 \label{eq:inner}
\end{equation}
\end{align}"#;
    extract_labels(text, "a.tex", &mut idx);
    let entry = idx.labels.get("eq:inner").expect("found");
    assert_eq!(entry.env, "equation");
}

#[test]
fn ref_at_cursor() {
    let text = r#"See \ref{eq:foo} for details."#;
    let pos = text.find("eq:foo").unwrap();
    let (key, range) = detect_ref_at(text, pos + 1).unwrap();
    assert_eq!(key, "eq:foo");
    assert_eq!(range[0], text.find('{').unwrap() + 1);
    assert_eq!(range[1], text.find('}').unwrap());
}

#[test]
fn ref_at_cursor_inside_crefs() {
    let text = r#"\cref{eq:x,y:z}"#;
    let pos = text.find("eq:x").unwrap() + 1;
    let (key, _) = detect_ref_at(text, pos).unwrap();
    assert_eq!(key, "eq:x,y:z");
}

#[test]
fn snippet_for_equation_includes_body() {
    let mut idx = Index::new();
    let text = "\
\\begin{equation}
a^2 + b^2 = c^2 \\label{eq:pythag}
\\end{equation}";
    extract_labels(text, "a.tex", &mut idx);
    let entry = idx.labels.get("eq:pythag").expect("label found");
    let snippet = &entry.snippet;
    assert!(snippet.contains("a^2 + b^2 = c^2"), "snippet = {snippet:?}");
    assert!(!snippet.contains("% (truncated)"));
}

#[test]
fn snippet_for_theorem_captures_first_line() {
    let mut idx = Index::new();
    let text = "\
\\begin{theorem}
Pythagoras: a squared plus b squared equals c squared.
The proof is left as an exercise. \\label{thm:pythag}
\\end{theorem}";
    extract_labels(text, "a.tex", &mut idx);
    let entry = idx.labels.get("thm:pythag").expect("label found");
    let snippet = &entry.snippet;
    assert!(
        snippet.contains("Pythagoras: a squared plus b squared equals c squared."),
        "snippet = {snippet:?}"
    );
    assert!(!snippet.contains("% (truncated)"));
}

#[test]
fn snippet_for_section_is_single_line() {
    let mut idx = Index::new();
    let text = "\\section{Introduction}\\label{sec:intro}\nbody paragraph here.";
    extract_labels(text, "a.tex", &mut idx);
    let entry = idx.labels.get("sec:intro").expect("label found");
    let snippet = &entry.snippet;
    assert!(snippet.contains("\\section{Introduction}"));
    assert!(snippet.contains("\\label{sec:intro}"));
    assert!(!snippet.contains("body paragraph here."));
}

#[test]
fn snippet_truncated_at_12_lines() {
    let mut idx = Index::new();
    let mut body = String::from("\\begin{theorem}\n");
    for n in 0..20 {
        body.push_str(&format!("line {n}\n"));
    }
    body.push_str("\\label{thm:long}\n\\end{theorem}");
    extract_labels(&body, "a.tex", &mut idx);
    let entry = idx.labels.get("thm:long").expect("label found");
    let snippet = &entry.snippet;
    assert!(snippet.contains("% (truncated)"), "snippet = {snippet:?}");
    let line_count = snippet.lines().count();
    assert!(line_count <= 13, "expected ≤ 13 lines, got {line_count}: {snippet:?}");
    assert!(snippet.contains("line 0"), "snippet = {snippet:?}");
    assert!(!snippet.contains("line 19"), "snippet should not include line 19: {snippet:?}");
}

#[test]
fn snippet_truncated_at_4_kib() {
    let mut idx = Index::new();
    let big_line = "x".repeat(500);
    let mut body = String::from("\\begin{theorem}\n");
    for _ in 0..10 {
        body.push_str(&big_line);
        body.push('\n');
    }
    body.push_str("\\label{thm:big}\n\\end{theorem}");
    extract_labels(&body, "a.tex", &mut idx);
    let entry = idx.labels.get("thm:big").expect("label found");
    let snippet = &entry.snippet;
    assert!(snippet.contains("% (truncated)"), "snippet = {snippet:?}");
    assert!(
        snippet.len() <= SNIPPET_MAX_BYTES + TRUNCATED_MARKER.len() + 2,
        "snippet len = {}",
        snippet.len()
    );
    let line_count = snippet.lines().count();
    assert!(line_count <= 13, "expected ≤ 13 lines, got {line_count}");
}

#[test]
fn reindexing_replaces_a_files_labels() {
    let mut idx = Index::new();
    extract_labels("\\section{A}\\label{sec:a}\n", "a.tex", &mut idx);
    extract_labels("\\section{B}\\label{sec:b}\n", "b.tex", &mut idx);
    extract_labels("\\section{C}\\label{sec:c}\n", "a.tex", &mut idx);
    assert!(idx.labels.get("sec:a").is_none());
    assert!(idx.labels.get("sec:b").is_some());
    assert_eq!(idx.labels.get("sec:c").unwrap().file, "a.tex");
}

#[test]
fn label_lines_and_offsets() {
    let mut idx = Index::new();
    let text = "intro\nmore\n\\begin{theorem}\nStatement.\\label{thm:x}\n\\end{theorem}";
    extract_labels(text, "t.tex", &mut idx);
    let e = idx.labels.get("thm:x").unwrap();
    assert_eq!(e.line, 3);
    assert_eq!(e.offset, text.find("\\label").unwrap());
    assert_eq!(e.env, "theorem");
    assert_eq!(e.caption, "Statement.\\label");
    assert!(e.math.is_none());
}

#[test]
fn commented_label_is_ignored() {
    let mut idx = Index::new();
    extract_labels("% \\label{hidden}\ntext\n\\label{shown}", "c.tex", &mut idx);
    assert!(idx.labels.get("hidden").is_none());
    let e = idx.labels.get("shown").unwrap();
    assert_eq!(e.env, "document");
}

#[test]
fn free_label_shows_its_line_and_the_one_before() {
    let entries = collect_labels("\n\\label{x}\n", "d.tex");
    assert_eq!(entries.len(), 1);
    assert_eq!(entries[0].snippet, "\n\\label{x}");
    let entries = collect_labels("first\n\\label{x}\n", "d.tex");
    assert_eq!(entries.len(), 1);
    assert_eq!(entries[0].snippet, "first\n\\label{x}");
    let entries = collect_labels("a\n\n\\label{x}", "d.tex");
    assert_eq!(entries[0].snippet, "\n\\label{x}");
    let entries = collect_labels("a\nb\n\\label{x}\nc", "d.tex");
    assert_eq!(entries[0].snippet, "b\n\\label{x}");
}

#[test]
fn math_range_of_equation_label() {
    let mut idx = Index::new();
    let text = "\\begin{equation}x\\label{e}\\end{equation}";
    extract_labels(text, "m.tex", &mut idx);
    let e = idx.labels.get("e").unwrap();
    assert_eq!(e.math, Some([16, 26]));
    assert_eq!(e.snippet, "x\\label{e}");
}

#[test]
fn indexed_label_has_trimmed_key_offset_and_line() {
    let mut idx = Index::new();
    let text = "intro\n\nsee \\label  { eq:a }\n";
    extract_labels(text, "a.tex", &mut idx);
    let entry = idx.labels.get("eq:a").expect("label found");
    assert_eq!(entry.key, "eq:a");
    assert_eq!(entry.file, "a.tex");
    assert_eq!(entry.offset, 11);
    assert!(text[entry.offset..].starts_with("\\label"));
    assert_eq!(entry.line, 2);
    assert!(idx.labels.get("").is_none());
}
