use latex_index::cursor::{cursor_context, detect_cite_at, detect_doc_at, detect_ref_command_at, BufferStore};

#[test]
fn detects_cite_inside_braces() {
    let text = r#"See \cite{einstein1905}."#;
    let pos = text.find("einstein1905").unwrap() + 1;
    let (k, _) = detect_cite_at(text, pos).unwrap();
    assert_eq!(k, "einstein1905");
}

#[test]
fn detects_ref_inside_braces() {
    let text = r#"\eqref{eq:x}"#;
    let pos = text.find("eq:x").unwrap() + 1;
    let (k, _) = detect_ref_command_at(text, pos).unwrap();
    assert_eq!(k, "eq:x");
}

#[test]
fn cursor_context_returns_math_for_inline() {
    let mut store = BufferStore::new();
    let uri = "file:///a.tex".to_string();
    let text = r#"Inline $a^2 + b^2 = c^2$ math."#.to_string();
    store.put(uri.clone(), text.clone());
    let pos = text.find("a^2").unwrap() + 1;
    let ctx = cursor_context(&uri, pos, &store);
    assert_eq!(ctx.kind, "math");
}

#[test]
fn cursor_context_returns_none_outside() {
    let mut store = BufferStore::new();
    let uri = "file:///a.tex".to_string();
    store.put(uri.clone(), "Hello world.".to_string());
    let ctx = cursor_context(&uri, 3, &store);
    assert_eq!(ctx.kind, "none");
}

#[test]
fn cite_context_carries_key_and_range() {
    let mut store = BufferStore::new();
    let uri = "file:///b.tex".to_string();
    let text = "See \\cite{knuth} here".to_string();
    store.put(uri.clone(), text.clone());
    let pos = text.find("knuth").unwrap() + 2;
    let ctx = cursor_context(&uri, pos, &store);
    assert_eq!(ctx.kind, "cite");
    assert_eq!(ctx.key.as_deref(), Some("knuth"));
    let open = text.find('{').unwrap();
    let close = text.find('}').unwrap();
    assert_eq!(ctx.range, Some([open + 1, close]));
}

#[test]
fn unknown_uri_gives_none_context() {
    let store = BufferStore::new();
    let ctx = cursor_context("file:///missing.tex", 0, &store);
    assert_eq!(ctx.kind, "none");
    assert!(ctx.key.is_none());
}

#[test]
fn buffer_read_after_write_and_close() {
    let mut store = BufferStore::new();
    store.put("u1".to_string(), "one".to_string());
    store.put("u2".to_string(), "two".to_string());
    store.put("u1".to_string(), "uno".to_string());
    assert_eq!(store.get("u1").as_deref(), Some("uno"));
    assert_eq!(store.get("u2").as_deref(), Some("two"));
    store.close("u1");
    assert!(store.get("u1").is_none());
    assert_eq!(store.get("u2").as_deref(), Some("two"));
}

#[test]
fn doc_context_for_package_name() {
    let mut store = BufferStore::new();
    let uri = "file:///c.tex".to_string();
    let text = "\\usepackage{amsmath}".to_string();
    store.put(uri.clone(), text.clone());
    let pos = text.find("amsmath").unwrap() + 1;
    let ctx = cursor_context(&uri, pos, &store);
    assert_eq!(ctx.kind, "doc");
    assert_eq!(ctx.key.as_deref(), Some("amsmath"));
}

#[test]
fn whole_command_name_under_the_cursor() {
    let text = "\\textbf{x}";
    assert_eq!(detect_doc_at(text, 3), Some("textbf".to_string()));
    assert_eq!(detect_doc_at(text, 0), Some("textbf".to_string()));
    assert_eq!(detect_doc_at(text, 1), Some("textbf".to_string()));
    assert_eq!(detect_doc_at(text, 7), Some("textbf".to_string()));
    assert_eq!(detect_doc_at(text, 9), None);
}
