use latex_index::workspace::{
    file_kind, has_skipped_ancestor, infer_project_root, is_collected_file, normalise_uri, percent_decode,
    should_descend, FileKind,
};

#[test]
fn percent_decode_basic() {
    assert_eq!(percent_decode("hello%20world"), "hello world");
    assert_eq!(percent_decode("a%2Bb"), "a+b");
}

#[test]
fn percent_decode_keeps_incomplete_escapes() {
    assert_eq!(percent_decode("50%"), "50%");
    assert_eq!(percent_decode("%zz"), "%zz");
    assert_eq!(percent_decode("%41%4a"), "AJ");
    assert_eq!(percent_decode("%C3%A9"), "é");
    assert_eq!(percent_decode("%FF"), "\u{FFFD}");
}

#[test]
fn uris_become_paths() {
    assert_eq!(normalise_uri("", false), None);
    assert_eq!(normalise_uri("file:///tmp/a%20b.tex", false).as_deref(), Some("/tmp/a b.tex"));
    assert_eq!(normalise_uri("/plain/path.tex", false).as_deref(), Some("/plain/path.tex"));
    assert_eq!(normalise_uri("file:///C:/x/y.tex", true).as_deref(), Some("C:/x/y.tex"));
    assert_eq!(normalise_uri("file:///C:/x/y.tex", false).as_deref(), Some("/C:/x/y.tex"));
}

#[test]
fn walk_rules() {
    assert!(!should_descend("node_modules"));
    assert!(!should_descend(".cache"));
    assert!(should_descend("."));
    assert!(should_descend("chapters"));
    assert!(is_collected_file("main.tex"));
    assert!(is_collected_file("refs.bib"));
    assert!(!is_collected_file("main.TEX"));
    assert_eq!(file_kind("Refs.BIB"), FileKind::Bib);
    assert_eq!(file_kind("paper.Tex"), FileKind::Tex);
    assert_eq!(file_kind("notes.txt"), FileKind::Other);
}

#[test]
fn skipped_ancestors() {
    assert!(has_skipped_ancestor(&["pkg", "node_modules", "proj"]));
    assert!(!has_skipped_ancestor(&["src", "proj"]));
}

#[test]
fn project_root_is_top_of_tex_run() {
    assert_eq!(infer_project_root(&[true, true, false, true]), Some(1));
    assert_eq!(infer_project_root(&[false, true]), None);
    assert_eq!(infer_project_root(&[true, true]), Some(1));
    assert_eq!(infer_project_root(&[true]), Some(0));
    assert_eq!(infer_project_root(&[]), None);
}

#[test]
fn text_without_escapes_decodes_to_itself() {
    assert_eq!(percent_decode("/home/ü/paper.tex"), "/home/ü/paper.tex");
    assert_eq!(percent_decode(""), "");
}
