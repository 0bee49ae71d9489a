use latex_index::bibtex::parse_bibtex;
use latex_index::dict::lookup;
use latex_index::hover::{
    clean_field_value, cite_heading, decimal_string, fence_for, fenced_block, format_cite_hover, format_doc_hover,
    format_ref_hover, formula_markdown, latex_block, ref_header, short_path, strip_outer_braces, title_case,
    wrap_ref_math,
};
use latex_index::index::{Index, LabelEntry};

fn label(key: &str, env: &str, caption: &str, snippet: &str) -> LabelEntry {
    LabelEntry {
        key: key.to_string(),
        file: "/home/u/paper/ch1.tex".to_string(),
        offset: 0,
        line: 4,
        env: env.to_string(),
        math: None,
        caption: caption.to_string(),
        snippet: snippet.to_string(),
    }
}

#[test]
fn field_values_are_cleaned() {
    assert_eq!(clean_field_value("  {Foo   {Bar}\n Baz}  "), "Foo {Bar} Baz");
    assert_eq!(clean_field_value("{A} and {B}"), "{A} and {B}");
    assert_eq!(strip_outer_braces("{x}"), "x");
    assert_eq!(strip_outer_braces("{a}{b}"), "{a}{b}");
    assert_eq!(strip_outer_braces("{\\}"), "{\\}");
}

#[test]
fn citation_card() {
    let mut idx = Index::new();
    parse_bibtex(
        "@article{e, author = {Albert Einstein}, year = {1905}, title = {Zur Elektrodynamik}, journal = {Annalen}}",
        "/home/u/paper/refs.bib",
        &mut idx,
    );
    let e = idx.bib.get("e").unwrap().clone();
    assert_eq!(cite_heading(&e).as_deref(), Some("Albert Einstein 1905 - *Zur Elektrodynamik*"));
    let card = format_cite_hover(&e, "/home/u/paper/refs.bib");
    assert_eq!(
        card,
        "Albert Einstein 1905 - *Zur Elektrodynamik*\nJournal: Annalen\n\nFile: .../paper/refs.bib:1"
    );
}

#[test]
fn citation_card_without_heading_fields() {
    let mut idx = Index::new();
    parse_bibtex("@misc{m, publisher = {P}, abstract = {An  abstract.}}", "r.bib", &mut idx);
    let e = idx.bib.get("m").unwrap().clone();
    assert!(cite_heading(&e).is_none());
    assert_eq!(format_cite_hover(&e, "r.bib"), "Publisher: P\n\n> An abstract.\n\nFile: r.bib:1");
}

#[test]
fn reference_headers() {
    assert_eq!(ref_header(&label("sec:a", "section", "Intro", "")), "Section: Intro");
    assert_eq!(ref_header(&label("sec:a", "section", "", "")), "Section: sec:a");
    assert_eq!(ref_header(&label("eq:a", "align*", "", "")), "Align");
    assert_eq!(ref_header(&label("t", "theorem", "Main.", "")), "Theorem: Main.");
    assert_eq!(ref_header(&label("t", "lemma*", "", "")), "Lemma");
    assert_eq!(ref_header(&label("k", "", "", "")), "k");
    assert_eq!(title_case("équation"), "Équation");
}

#[test]
fn reference_card_with_and_without_render() {
    let e = label("eq:a", "equation", "", "x = 1");
    let plain = format_ref_hover(&e, "/home/u/paper/ch1.tex", None);
    assert_eq!(plain, "Equation\n\n```\nx = 1\n```\n\n.../paper/ch1.tex:5");
    let rendered = format_ref_hover(&e, "/home/u/paper/ch1.tex", Some("<svg/>"));
    assert_eq!(rendered, "Equation\n\n![formula](data:image/svg+xml;base64,PHN2Zy8+)\n\n.../paper/ch1.tex:5");
}

#[test]
fn fences_outgrow_backtick_runs() {
    assert_eq!(fence_for("plain"), "```");
    assert_eq!(fence_for("a ```` b"), "`````");
    assert_eq!(fenced_block("x"), "```\nx\n```");
}

#[test]
fn wrapped_math_sources() {
    assert_eq!(wrap_ref_math("equation*", "x"), "x");
    assert_eq!(wrap_ref_math("gather", "x"), "\\begin{gathered}\nx\n\\end{gathered}");
    assert_eq!(wrap_ref_math("align", "x"), "\\begin{aligned}\nx\n\\end{aligned}");
}

#[test]
fn short_paths() {
    assert_eq!(short_path("/a/b/c"), "/a/b/c");
    assert_eq!(short_path("/a/b/c/d"), ".../c/d");
    assert_eq!(short_path("C:\\x\\y\\z\\w.tex"), ".../z/w.tex");
    assert_eq!(short_path("a//b"), "a//b");
}

#[test]
fn small_markdown_pieces() {
    assert_eq!(decimal_string(0), "0");
    assert_eq!(decimal_string(4096), "4096");
    assert_eq!(latex_block("\\Omega"), "```latex\n\\Omega\n```");
    assert_eq!(formula_markdown("ab"), "![formula](data:image/svg+xml;base64,YWI=)");
    let doc = format_doc_hover(&lookup("amsmath").unwrap());
    assert!(doc.starts_with("**amsmath** (package)\n\n"));
}
