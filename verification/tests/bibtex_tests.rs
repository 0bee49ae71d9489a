use latex_index::bibtex::{collect_strings, parse_bibtex};
use latex_index::index::Index;

#[test]
fn parses_article() {
    let mut idx = Index::new();
    let bib = r#"
@article{einstein1905,
  author = {Einstein, A.},
  title  = {On the electrodynamics of moving bodies},
  year   = 1905,
  journal = {Annalen der Physik}
}
"#;
    parse_bibtex(bib, "r.bib", &mut idx);
    let e = idx.bib.get("einstein1905").unwrap();
    assert_eq!(e.entry_type, "article");
    assert_eq!(e.fields.get("year").unwrap(), "1905");
    assert_eq!(e.fields.get("title").unwrap(), "On the electrodynamics of moving bodies");
}

#[test]
fn parses_book() {
    let mut idx = Index::new();
    let bib = r#"@book{knuth1986, author = {Knuth, D.}, title = {The TeXbook}, publisher = {Addison-Wesley}, year = 1986}"#;
    parse_bibtex(bib, "r.bib", &mut idx);
    let e = idx.bib.get("knuth1986").unwrap();
    assert_eq!(e.entry_type, "book");
    assert_eq!(e.fields.get("publisher").unwrap(), "Addison-Wesley");
}

#[test]
fn nested_braces_in_field() {
    let mut idx = Index::new();
    let bib = r#"@misc{x, title = {Foo {Bar} Baz}}"#;
    parse_bibtex(bib, "r.bib", &mut idx);
    let e = idx.bib.get("x").unwrap();
    assert_eq!(e.fields.get("title").unwrap(), "Foo {Bar} Baz");
}

#[test]
fn string_substitution() {
    let mut idx = Index::new();
    let bib = r#"
@string{jp = "Journal of Physics"}
@article{a, journal = jp, year = 2020}
"#;
    parse_bibtex(bib, "r.bib", &mut idx);
    let e = idx.bib.get("a").unwrap();
    assert_eq!(e.fields.get("journal").unwrap(), "Journal of Physics");
}

#[test]
fn multiline_value() {
    let mut idx = Index::new();
    let bib = "@article{x,\n  abstract = {Line one.\n\nLine three.},\n  year = 2020\n}";
    parse_bibtex(bib, "r.bib", &mut idx);
    let e = idx.bib.get("x").unwrap();
    assert!(e.fields.get("abstract").unwrap().contains("Line one."));
}

#[test]
fn malformed_does_not_crash() {
    let mut idx = Index::new();
    let bib = "@article{broken, = value without name\n@article{ok, year=2020}";
    parse_bibtex(bib, "r.bib", &mut idx);
    assert!(idx.bib.get("ok").is_some());
}

#[test]
fn quoted_field_value() {
    let mut idx = Index::new();
    let bib = r#"@misc{x, title = "Quoted title"}"#;
    parse_bibtex(bib, "r.bib", &mut idx);
    let e = idx.bib.get("x").unwrap();
    assert_eq!(e.fields.get("title").unwrap(), "Quoted title");
}

#[test]
fn concatenation_with_at_macro_and_hash() {
    let mut idx = Index::new();
    let bib = "@string{pub = {Springer}}\n@book{b, publisher = \"Printed by\" # @pub # {Verlag}}";
    parse_bibtex(bib, "r.bib", &mut idx);
    let e = idx.bib.get("b").unwrap();
    assert_eq!(e.fields.get("publisher").unwrap(), "Printed by Springer Verlag");
}

#[test]
fn field_names_and_types_are_lower_cased() {
    let mut idx = Index::new();
    parse_bibtex("@ARTICLE{k, TITLE = {T}}", "r.bib", &mut idx);
    let e = idx.bib.get("k").unwrap();
    assert_eq!(e.entry_type, "article");
    assert_eq!(e.fields.get("title").unwrap(), "T");
    assert_eq!(e.offset, 0);
    assert_eq!(e.file, "r.bib");
}

#[test]
fn comment_blocks_are_skipped() {
    let mut idx = Index::new();
    let bib = "@comment{@article{hidden, year = 1}}\n% @article{also, year = 2}\n@preamble(\"x\")\n@misc{seen, year = 3}";
    parse_bibtex(bib, "r.bib", &mut idx);
    assert!(idx.bib.get("hidden").is_none());
    assert!(idx.bib.get("also").is_none());
    assert!(idx.bib.get("seen").is_some());
}

#[test]
fn reparsing_replaces_a_files_entries() {
    let mut idx = Index::new();
    parse_bibtex("@misc{a, year = 1}", "one.bib", &mut idx);
    parse_bibtex("@misc{b, year = 2}", "two.bib", &mut idx);
    parse_bibtex("@misc{c, year = 3}", "one.bib", &mut idx);
    assert!(idx.bib.get("a").is_none());
    assert!(idx.bib.get("b").is_some());
    assert!(idx.bib.get("c").is_some());
}

#[test]
fn string_right_after_a_skipped_block_is_collected() {
    let s = collect_strings(br#"@comment{x}@string{a = "b"}"#);
    assert_eq!(s.get("a").map(|v| v.as_str()), Some("b"));
    let mut idx = Index::new();
    parse_bibtex("@preamble{p}@string{j = \"Journal\"}\n@article{k, journal = j}", "r.bib", &mut idx);
    assert_eq!(idx.bib.get("k").unwrap().fields.get("journal").map(|v| v.as_str()), Some("Journal"));
}
