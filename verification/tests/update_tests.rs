use latex_index::cursor::BufferStore;
use latex_index::dict::{lookup, table_is_sorted, table_len, title_at};
use latex_index::expand::formula_macros;
use latex_index::hover::{fence_for, forward_slashes, math_hover_value};
use latex_index::index::Index;
use latex_index::labels::extract_labels;
use latex_index::macros::extract_macros;
use latex_index::math::find_math_region;
use latex_index::position::{offset_to_position, position_to_offset, Position};
use latex_index::server::{
    color_mode_of, document_event, index_file, initialize_root_uri, plan_hover, update_document,
    DocumentEvent, HoverPlan, HoverSettings, PreviewConfig,
};
use latex_index::svg::{is_render_error, render_source, ColorMode, RenderCache, RenderKey};
use latex_index::watcher::{event_wanted, handle_event};

fn key(s: &str) -> RenderKey {
    RenderKey { source: s.to_string(), display: false, scale_scale_milli: 1400, color: ColorMode::Auto }
}

#[test]
fn indexing_the_same_text_twice_changes_nothing_more() {
    let text = "\\section{A}\\label{a}\n\\begin{equation}x\\label{e}\\end{equation}\n\\newcommand{\\R}{r}";
    let mut once = Index::new();
    index_file(&mut once, "/p/a.tex", "a.tex", text);
    let mut twice = Index::new();
    index_file(&mut twice, "/p/a.tex", "a.tex", text);
    index_file(&mut twice, "/p/a.tex", "a.tex", text);
    assert_eq!(once.labels.len(), twice.labels.len());
    assert_eq!(twice.labels.len(), 2);
    assert_eq!(twice.labels.get("e").unwrap().line, once.labels.get("e").unwrap().line);
    assert_eq!(twice.macros.len(), 1);
}

#[test]
fn reindexing_keeps_other_files_and_last_definition_wins() {
    let mut idx = Index::new();
    extract_labels("\\section{B}\\label{k}\n\\section{O}\\label{other}\n", "b.tex", &mut idx);
    extract_labels("\\section{A}\\label{k}\n\\section{A2}\\label{k}\n", "a.tex", &mut idx);
    let k = idx.labels.get("k").unwrap();
    assert_eq!(k.file, "a.tex");
    assert_eq!(k.caption, "A2");
    drop(k);
    assert_eq!(idx.labels.get("other").unwrap().file, "b.tex");
    extract_labels("no labels here", "a.tex", &mut idx);
    assert!(idx.labels.get("k").is_none());
    assert!(idx.labels.get("other").is_some());
}

#[test]
fn labels_after_an_empty_first_line_are_indexed() {
    let mut idx = Index::new();
    extract_labels("\n\\section{S}\\label{s}\\label{x}\n\\label{z}", "g.tex", &mut idx);
    assert_eq!(idx.labels.get("s").unwrap().file, "g.tex");
    assert_eq!(idx.labels.get("x").unwrap().snippet, "\n\\section{S}\\label{s}\\label{x}");
    assert!(idx.labels.get("z").is_some());
    let mut idx2 = Index::new();
    index_file(&mut idx2, "f.tex", "f.tex", "\n\\label{y}\n\\def\\W{w}");
    assert!(idx2.labels.get("y").is_some());
    assert!(idx2.macros.get("W").is_some());
}

#[test]
fn first_macro_definition_wins() {
    let mut idx = Index::new();
    extract_macros("\\newcommand{\\R}{A}", "a.tex", &mut idx);
    extract_macros("\\newcommand{\\R}{B}\\newcommand{\\S}{s}\\renewcommand{\\S}{t}", "b.tex", &mut idx);
    assert_eq!(idx.macros.get("R").unwrap().file, "a.tex");
    assert_eq!(idx.macros.get("R").unwrap().body, "A");
    assert_eq!(idx.macros.get("S").unwrap().body, "s");
    idx.remove_file("a.tex");
    extract_macros("\\newcommand{\\R}{B}", "b.tex", &mut idx);
    assert_eq!(idx.macros.get("R").unwrap().file, "b.tex");
}

#[test]
fn removing_a_file_drops_only_its_entries() {
    let mut idx = Index::new();
    extract_labels("\\section{A}\\label{a}", "a.tex", &mut idx);
    extract_macros("\\def\\A{a}", "a.tex", &mut idx);
    extract_labels("\\section{B}\\label{b}", "b.tex", &mut idx);
    idx.remove_file("a.tex");
    assert!(idx.labels.get("a").is_none());
    assert!(idx.macros.get("A").is_none());
    assert!(idx.labels.get("b").is_some());
}

#[test]
fn document_macros_take_precedence() {
    let mut idx = Index::new();
    extract_macros("\\newcommand{\\R}{\\mathbb{R}}\\newcommand{\\N}{\\mathbb{N}}", "ws.tex", &mut idx);
    let table = formula_macros(&idx, "\\renewcommand{\\R}{\\mathcal{R}}");
    assert_eq!(table.get("R").unwrap().body, "\\mathcal{R}");
    assert_eq!(table.get("N").unwrap().body, "\\mathbb{N}");
}

fn settings(cite: bool, reference: bool, doc: bool) -> HoverSettings {
    HoverSettings {
        enabled: true,
        max_formula_length: 2000,
        enabled_cite_preview: cite,
        enabled_ref_preview: reference,
        enabled_doc_preview: doc,
    }
}

#[test]
fn disabled_hover_kinds_are_never_shown() {
    let idx = Index::new();
    let mut bufs = BufferStore::new();
    let text = "\\cite{k} \\usepackage{amsmath}";
    bufs.put("u".to_string(), text.to_string());
    let at_cite = Position { line: 0, character: 6 };
    assert!(matches!(plan_hover(&idx, &bufs, &settings(true, true, true), "u", at_cite), HoverPlan::Cite { .. }));
    assert!(matches!(plan_hover(&idx, &bufs, &settings(false, true, true), "u", at_cite), HoverPlan::Nothing));
    let at_pkg = Position { line: 0, character: 23 };
    assert!(matches!(plan_hover(&idx, &bufs, &settings(true, true, true), "u", at_pkg), HoverPlan::Doc { .. }));
    assert!(matches!(plan_hover(&idx, &bufs, &settings(true, true, false), "u", at_pkg), HoverPlan::Nothing));
}

#[test]
fn positions_round_trip_at_every_character() {
    let text = "a\u{e9}\n\u{1d44e}b\n\nz";
    let mut starts: Vec<usize> = text.char_indices().map(|(i, _)| i).collect();
    starts.push(text.len());
    for off in starts {
        let pos = offset_to_position(text, off);
        assert_eq!(position_to_offset(text, pos), off);
    }
    assert_eq!(offset_to_position(text, text.len()), Position { line: 3, character: 1 });
}

#[test]
fn cache_read_after_write() {
    let mut cache = RenderCache::new(2);
    cache.put(key("a"), "<svg a/>".to_string());
    cache.put(key("b"), "<svg b/>".to_string());
    assert_eq!(cache.get(&key("a")), Some("<svg a/>".to_string()));
    cache.put(key("a"), "<svg a2/>".to_string());
    assert_eq!(cache.get(&key("a")), Some("<svg a2/>".to_string()));
    cache.put(key("c"), "<svg c/>".to_string());
    assert_eq!(cache.get(&key("c")), Some("<svg c/>".to_string()));
    assert_eq!(cache.get(&key("b")), None);
}

#[test]
fn fences_are_longer_than_any_backtick_run() {
    assert_eq!(fence_for("plain"), "```");
    assert_eq!(fence_for("a ```` b ` c"), "`````");
}

#[test]
fn sorted_table_finds_every_title_in_any_case() {
    assert!(table_is_sorted());
    for i in 0..table_len() {
        let t = title_at(i);
        assert_eq!(lookup(&t.to_ascii_uppercase()).unwrap().title, t);
    }
}

#[test]
fn math_region_contains_the_offset() {
    let text = "$a$ and $$b+c$$";
    let off = text.find('+').unwrap();
    let r = find_math_region(text, off, 2000).unwrap();
    assert!(r.start <= off && off < r.end);
    assert_eq!(r.source, "b+c");
    assert!(r.display);
    assert!(find_math_region(text, text.find("and").unwrap(), 2000).is_none());
}

#[test]
fn preview_settings_defaults_and_overrides() {
    let d = PreviewConfig::from_options(None, None, None, None, None, None, None);
    assert!(d.hover.enabled);
    assert_eq!(d.hover.max_formula_length, 2000);
    assert_eq!(d.timeout_ms, 1500);
    assert_eq!(d.color, ColorMode::Auto);
    assert!(d.hover.enabled_cite_preview && d.hover.enabled_ref_preview && d.hover.enabled_doc_preview);
    let c = PreviewConfig::from_options(Some(false), Some(10), Some(99), Some("white"), Some(false), Some(false), Some(false));
    assert!(!c.hover.enabled);
    assert_eq!(c.hover.max_formula_length, 10);
    assert_eq!(c.timeout_ms, 99);
    assert_eq!(c.color, ColorMode::White);
    assert!(!c.hover.enabled_cite_preview && !c.hover.enabled_ref_preview && !c.hover.enabled_doc_preview);
    assert_eq!(color_mode_of("black"), ColorMode::Black);
    assert_eq!(color_mode_of("Black"), ColorMode::Auto);
}

#[test]
fn render_requests_and_results() {
    assert_eq!(render_source("x^2", true), "\\displaystyle x^2");
    assert_eq!(render_source("x^2", false), "x^2");
    assert!(is_render_error("<g data-mjx-error=\"Missing\">"));
    assert!(is_render_error("<text data-mml-node=\"mtext\" fill=\"red\">"));
    assert!(!is_render_error("<svg><g/></svg>"));
    assert_eq!(math_hover_value(None, "\\Omega"), "```latex\n\\Omega\n```");
    assert!(math_hover_value(Some("<svg/>"), "x").starts_with("![formula](data:image/svg+xml;base64,"));
    assert_eq!(forward_slashes("C:\\a\\b.tex"), "C:/a/b.tex");
}

#[test]
fn document_updates_and_events() {
    let mut idx = Index::new();
    let mut bufs = BufferStore::new();
    update_document(&mut idx, &mut bufs, "file:///p/a.tex", "\\section{A}\\label{a}", Some("/p/a.tex"), "a.tex");
    assert!(idx.labels.get("a").is_some());
    update_document(&mut idx, &mut bufs, "untitled:1", "\\section{B}\\label{b}", None, "");
    assert!(idx.labels.get("b").is_none());
    assert_eq!(bufs.get("untitled:1").unwrap(), "\\section{B}\\label{b}");
    assert_eq!(document_event("textDocument/didOpen"), Some(DocumentEvent::Open));
    assert_eq!(document_event("textDocument/didChange"), Some(DocumentEvent::Change));
    assert_eq!(document_event("textDocument/didClose"), Some(DocumentEvent::Close));
    assert_eq!(document_event("textDocument/didSave"), None);
    assert_eq!(initialize_root_uri(Some("f".to_string()), Some("r".to_string())), Some("f".to_string()));
    assert_eq!(initialize_root_uri(None, Some("r".to_string())), Some("r".to_string()));
}

#[test]
fn watcher_filters_and_reindexes() {
    assert!(event_wanted("main.TEX", &["src", "proj"]));
    assert!(!event_wanted("main.aux", &["proj"]));
    assert!(!event_wanted("x.tex", &["node_modules", "proj"]));
    let mut idx = Index::new();
    extract_macros("\\def\\M{m}", "/p/a.tex", &mut idx);
    handle_event(&mut idx, "/p/a.tex", "a.tex", &["p"], Some("\\section{A}\\label{a}"));
    assert!(idx.labels.get("a").is_some());
    assert!(idx.macros.get("M").is_some());
    handle_event(&mut idx, "/p/r.bib", "r.bib", &["p"], Some("@book{k, title={T}}"));
    assert!(idx.bib.get("k").is_some());
    handle_event(&mut idx, "/p/z.tex", "z.tex", &["p"], Some("\n\\label{z}"));
    assert!(idx.labels.get("z").is_some());
}

#[test]
fn filter_skips_noise_dirs() {
    let mut idx = Index::new();
    handle_event(&mut idx, "/tmp/w/node_modules/foo.tex", "foo.tex", &["node_modules", "w", "tmp"], Some(r"\section{x}\label{sec:x}"));
    handle_event(&mut idx, "/tmp/w/keep.tex", "keep.tex", &["w", "tmp"], Some(r"\section{y}\label{sec:y}"));
    assert!(idx.labels.get("sec:x").is_none());
    assert!(idx.labels.get("sec:y").is_some());
}

#[test]
fn unreadable_or_unwanted_file_leaves_index() {
    let mut idx = Index::new();
    handle_event(&mut idx, "/p/a.tex", "a.tex", &["p"], Some(r"\label{a}"));
    handle_event(&mut idx, "/p/a.tex", "a.tex", &["p"], None);
    assert!(idx.labels.get("a").is_some());
    handle_event(&mut idx, "/p/a.aux", "a.aux", &["p"], Some(r"\label{b}"));
    assert!(idx.labels.get("b").is_none());
}
