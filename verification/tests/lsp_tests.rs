use latex_index::expand::{expand_macros, MacroValue};
use latex_index::math::find_math_region;
use latex_index::position::{byte_range_to_lsp_range, offset_to_position, position_to_offset, Position};
use latex_index::sorted_map::SortedMap;
use latex_index::svg::{
    ex_dimension_values, inject_svg_color, strip_data_latex_attrs, ColorMode, RenderCache, RenderKey,
};

#[test]
fn macro_expands_argument() {
    let mut macros = SortedMap::new();
    macros.insert(
        "norm".to_string(),
        MacroValue {
            body: "\\left\\lVert #1 \\right\\rVert".to_string(),
            arity: 1,
        },
    );
    assert_eq!(
        expand_macros("\\norm{x}", &macros),
        "\\left\\lVert x \\right\\rVert"
    );
}

#[test]
fn finds_inline_math_region() {
    let text = "See $x^2$ now";
    let r = find_math_region(text, text.find("x").unwrap(), 2000).unwrap();
    assert_eq!(r.source, "x^2");
    assert!(!r.display);
}

#[test]
fn byte_range_maps_to_actual_line() {
    let text = "first line\nsee \\cite{key} here\n";
    let brace_open = text.find('{').unwrap();
    let brace_close = text.find('}').unwrap();
    let (start, end) = byte_range_to_lsp_range(text, [brace_open + 1, brace_close]);
    assert_eq!(start.line, 1);
    assert_eq!(end.line, 1);
    assert_eq!(start.character, "see \\cite{".len() as u32);
    assert_eq!(end.character, "see \\cite{key".len() as u32);
}

#[test]
fn utf16_position_round_trips() {
    let text = "𝑎x";
    let pos = offset_to_position(text, 4);
    assert_eq!(pos.line, 0);
    assert_eq!(pos.character, 2);
    assert_eq!(position_to_offset(text, pos), 4);
}

#[test]
fn render_cache_quantises_scale() {
    let mut cache = RenderCache::new(8);
    let k1 = RenderKey {
        source: "x".to_string(),
        display: false,
        scale_scale_milli: (1.4_f64 * 1000.0).round() as u64,
        color: ColorMode::Auto,
    };
    cache.put(k1.clone(), "<svg/>".to_string());
    let k2 = RenderKey {
        scale_scale_milli: (1.4001_f64 * 1000.0).round() as u64,
        ..k1.clone()
    };
    assert_eq!(k1.scale_scale_milli, k2.scale_scale_milli);
    assert!(cache.get(&k2).is_some(), "quantised keys must collide");
}

#[test]
fn strips_mathjax_data_latex_attrs_with_raw_less_than() {
    let svg = r#"<svg><g data-latex="\displaystyle
C^{0,\gamma}(\Omega)<+\infty" data-latex-item="x<y"><path /></g></svg>"#;
    let cleaned = strip_data_latex_attrs(svg);
    assert!(!cleaned.contains("data-latex"));
    assert!(!cleaned.contains("<+\\infty"));
    assert!(cleaned.contains("<path />"));
}

#[test]
fn macros_expand_in_name_order_and_skip_longer_names() {
    let mut macros = SortedMap::new();
    macros.insert("R".to_string(), MacroValue { body: "\\mathbb{R}".to_string(), arity: 0 });
    macros.insert("Rn".to_string(), MacroValue { body: "\\R^n".to_string(), arity: 0 });
    assert_eq!(expand_macros("\\Rn + \\R + \\Rx", &macros), "\\R^n + \\mathbb{R} + \\Rx");
}

#[test]
fn missing_macro_argument_leaves_text() {
    let mut macros = SortedMap::new();
    macros.insert("f".to_string(), MacroValue { body: "F(#1,#2)".to_string(), arity: 2 });
    assert_eq!(expand_macros("\\f{a}{b}", &macros), "F(a,b)");
    assert_eq!(expand_macros("\\f{a}", &macros), "\\f{a}");
}

#[test]
fn display_math_region_and_length_limit() {
    let text = "a $$x+y$$ b";
    let r = find_math_region(text, 4, 2000).unwrap();
    assert!(r.display);
    assert_eq!(r.source, "x+y");
    assert_eq!((r.start, r.end), (2, 9));
    assert!(find_math_region(text, 4, 2).is_none());
    assert!(find_math_region(text, 0, 2000).is_none());
}

#[test]
fn positions_count_lines_and_utf16_units() {
    let text = "ab\nc𝑎d";
    let p = offset_to_position(text, text.find('d').unwrap());
    assert_eq!(p, Position { line: 1, character: 3 });
    assert_eq!(position_to_offset(text, Position { line: 1, character: 3 }), text.find('d').unwrap());
    assert_eq!(position_to_offset(text, Position { line: 7, character: 0 }), text.len());
}

#[test]
fn color_is_injected_into_the_svg_tag() {
    let out = inject_svg_color("<svg width=\"1ex\"><path/></svg>".to_string(), ColorMode::White);
    assert_eq!(out, "<svg width=\"1ex\" color=\"white\"><path/></svg>");
    let plain = inject_svg_color("no svg here".to_string(), ColorMode::Black);
    assert_eq!(plain, "no svg here");
}

#[test]
fn ex_sizes_are_found_on_root_and_nested_svgs() {
    let svg = r#"<svg width="10ex" height="2.5ex"><svg width="1ex" height="1ex"></svg><path stroke-width="2ex"/></svg>"#;
    let spans = ex_dimension_values(svg);
    let values: Vec<&str> = spans.iter().map(|&(a, b)| &svg[a..b]).collect();
    assert_eq!(values, vec!["10ex", "2.5ex", "1ex", "1ex"]);
}

#[test]
fn cache_evicts_least_recently_used() {
    let key = |s: &str| RenderKey { source: s.to_string(), display: false, scale_scale_milli: 1000, color: ColorMode::Auto };
    let mut cache = RenderCache::new(2);
    cache.put(key("a"), "A".to_string());
    cache.put(key("b"), "B".to_string());
    assert_eq!(cache.get(&key("a")).as_deref(), Some("A"));
    cache.put(key("c"), "C".to_string());
    assert!(cache.get(&key("b")).is_none());
    assert_eq!(cache.get(&key("a")).as_deref(), Some("A"));
    assert_eq!(cache.get(&key("c")).as_deref(), Some("C"));
}
