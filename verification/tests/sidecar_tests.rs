use latex_index::cursor::BufferStore;
use latex_index::index::Index;
use latex_index::sidecar::{
    all_macros, close_file, failure_code, file_labels, file_macros, initialize_decision, lookup_kind, method_of,
    request_text, update_file, version_accepted, Failure, InitDecision, LookupKind, Method,
    UpdateError, INTERNAL_ERROR, METHOD_NOT_FOUND, PARSE_ERROR, PROTOCOL_VERSION,
};

#[test]
fn methods_are_recognised_by_name() {
    assert_eq!(method_of("initialize"), Some(Method::Initialize));
    assert_eq!(method_of("update_file"), Some(Method::UpdateFile));
    assert_eq!(method_of("close_file"), Some(Method::CloseFile));
    assert_eq!(method_of("lookup"), Some(Method::Lookup));
    assert_eq!(method_of("cursor_context"), Some(Method::CursorContext));
    assert_eq!(method_of("workspace_macros"), Some(Method::WorkspaceMacros));
    assert_eq!(method_of("ping"), Some(Method::Ping));
    assert_eq!(method_of("no_such_method"), None);
    assert_eq!(method_of("doc_lookup"), None);
}

#[test]
fn unknown_method_is_answered_method_not_found() {
    assert_eq!(failure_code(Failure::UnknownMethod), -32601);
    assert_eq!(METHOD_NOT_FOUND, -32601);
    assert_eq!(failure_code(Failure::Parse), PARSE_ERROR);
    assert_eq!(failure_code(Failure::Handler), INTERNAL_ERROR);
    assert_eq!(failure_code(Failure::Panic), -32603);
}

#[test]
fn blank_lines_are_skipped_and_others_trimmed() {
    assert_eq!(request_text("   \t"), None);
    assert_eq!(request_text(""), None);
    assert_eq!(request_text("  {\"id\":1} \n"), Some("{\"id\":1}"));
}

#[test]
fn protocol_version_must_match() {
    assert_eq!(PROTOCOL_VERSION, 1);
    assert!(version_accepted(Some(1)));
    assert!(!version_accepted(Some(2)));
    assert!(!version_accepted(None));
}

#[test]
fn initialize_decisions() {
    assert!(matches!(initialize_decision(true, Some(1), Some("file:///w"), false), InitDecision::Ignore));
    assert!(matches!(initialize_decision(false, Some(7), None, false), InitDecision::Reject(7)));
    assert!(matches!(initialize_decision(false, None, None, false), InitDecision::Reject(0)));
    match initialize_decision(false, Some(1), Some("file:///tmp/my%20proj"), false) {
        InitDecision::Accept(Some(p)) => assert_eq!(p, "/tmp/my proj"),
        _ => panic!("expected a watched root"),
    }
    assert!(matches!(initialize_decision(false, Some(1), None, false), InitDecision::Accept(None)));
    assert!(matches!(initialize_decision(false, Some(1), Some(""), false), InitDecision::Accept(None)));
}

#[test]
fn lookup_kinds() {
    assert_eq!(lookup_kind("cite"), Some(LookupKind::Cite));
    assert_eq!(lookup_kind("ref"), Some(LookupKind::Ref));
    assert_eq!(lookup_kind("doc"), None);
}

#[test]
fn update_file_indexes_tex_and_lists_its_labels_and_macros() {
    let mut idx = Index::new();
    let mut bufs = BufferStore::new();
    let text = "\\newcommand{\\R}{\\mathbb{R}}\n\\begin{equation}\n\\label{eq:foo}\nE = mc^2\n\\end{equation}\n";
    let s = update_file(&mut idx, &mut bufs, "file:///tmp/test.tex", text, false).ok().unwrap();
    assert_eq!(bufs.get("file:///tmp/test.tex").unwrap(), text);
    assert_eq!(s.labels.len(), 1);
    assert_eq!(s.labels[0].0, "eq:foo");
    assert_eq!(s.labels[0].1, 2);
    assert_eq!(s.labels[0].2, "equation");
    assert_eq!(s.macros, vec!["R".to_string()]);
    assert_eq!(idx.labels.get("eq:foo").unwrap().file, "/tmp/test.tex");
}

#[test]
fn update_file_indexes_bib_without_listing() {
    let mut idx = Index::new();
    let mut bufs = BufferStore::new();
    let text = "@article{einstein1905,\n  author = {Einstein},\n  year = {1905}\n}\n";
    let s = update_file(&mut idx, &mut bufs, "file:///tmp/refs.BIB", text, false).ok().unwrap();
    assert!(s.labels.is_empty());
    assert!(s.macros.is_empty());
    assert_eq!(idx.bib.get("einstein1905").unwrap().file, "/tmp/refs.BIB");
}

#[test]
fn update_file_errors() {
    let mut idx = Index::new();
    let mut bufs = BufferStore::new();
    assert!(matches!(update_file(&mut idx, &mut bufs, "", "x", false), Err(UpdateError::BadUri)));
    assert!(bufs.get("").is_none());
    let r = update_file(&mut idx, &mut bufs, "file:///d.tex", "\\label{a}x\n\n\\label{b}\n", false);
    assert!(r.is_ok());
    let r = update_file(&mut idx, &mut bufs, "file:///e.tex", "\n\\label{x}\n\\newcommand{\\Q}{q}", false);
    assert_eq!(r.ok().unwrap().labels.len(), 1);
    assert!(idx.macros.get("Q").is_some());
    assert_eq!(bufs.get("file:///e.tex").unwrap(), "\n\\label{x}\n\\newcommand{\\Q}{q}");
}

#[test]
fn update_file_replaces_the_files_entries() {
    let mut idx = Index::new();
    let mut bufs = BufferStore::new();
    update_file(&mut idx, &mut bufs, "file:///a.tex", "\\section{A}\\label{sec:a}\n\\def\\X{x}", false).ok().unwrap();
    update_file(&mut idx, &mut bufs, "file:///b.tex", "\\section{B}\\label{sec:b}\n", false).ok().unwrap();
    update_file(&mut idx, &mut bufs, "file:///a.tex", "\\section{C}\\label{sec:c}\n", false).ok().unwrap();
    assert!(idx.labels.get("sec:a").is_none());
    assert!(idx.macros.get("X").is_none());
    assert!(idx.labels.get("sec:b").is_some());
    assert!(idx.labels.get("sec:c").is_some());
    let mut listed = file_labels(&idx, "/a.tex");
    listed.sort();
    assert_eq!(listed, vec![("sec:c".to_string(), 0u32, "section".to_string())]);
    assert!(file_macros(&idx, "/a.tex").is_empty());
}

#[test]
fn close_file_forgets_buffer_and_entries() {
    let mut idx = Index::new();
    let mut bufs = BufferStore::new();
    update_file(&mut idx, &mut bufs, "file:///a.tex", "\\section{A}\\label{sec:a}\n", false).ok().unwrap();
    update_file(&mut idx, &mut bufs, "file:///b.tex", "\\section{B}\\label{sec:b}\n", false).ok().unwrap();
    close_file(&mut idx, &mut bufs, "file:///a.tex", false);
    assert!(bufs.get("file:///a.tex").is_none());
    assert!(idx.labels.get("sec:a").is_none());
    assert!(idx.labels.get("sec:b").is_some());
    assert!(bufs.get("file:///b.tex").is_some());
}

#[test]
fn lookups_and_macro_listing() {
    let mut idx = Index::new();
    let mut bufs = BufferStore::new();
    update_file(&mut idx, &mut bufs, "file:///m.tex", "\\newcommand{\\N}[1]{n#1}\\section{S}\\label{s}", false).ok().unwrap();
    update_file(&mut idx, &mut bufs, "file:///r.bib", "@misc{k, note = {hi}}", false).ok().unwrap();
    let rows = all_macros(&idx);
    assert_eq!(rows, vec![("N".to_string(), "n#1".to_string(), 1u32, "/m.tex".to_string())]);
    assert_eq!(idx.label_entry("s").unwrap().caption, "S");
    assert!(idx.label_entry("t").is_none());
    let e = idx.bib_entry("k").unwrap();
    assert_eq!(e.entry_type, "misc");
    assert_eq!(e.fields.get("note").unwrap(), "hi");
    assert!(idx.bib_entry("x").is_none());
}
