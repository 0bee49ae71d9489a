use latex_index::expand::{expand_macros, formula_macros, MacroValue};
use latex_index::index::Index;
use latex_index::macros::extract_macros;
use latex_index::math::find_math_region;
use latex_index::sorted_map::SortedMap;

fn region(text: &str, at: &str) -> (String, bool) {
    let r = find_math_region(text, text.find(at).unwrap(), 2000).unwrap();
    (r.source, r.display)
}

#[test]
fn every_supported_delimiter_is_found_with_its_mode() {
    assert_eq!(region("a $x+1$ b", "+"), ("x+1".to_string(), false));
    assert_eq!(region("a \\(x+1\\) b", "+"), ("x+1".to_string(), false));
    assert_eq!(region("a $$x+1$$ b", "+"), ("x+1".to_string(), true));
    assert_eq!(region("a \\[x+1\\] b", "+"), ("x+1".to_string(), true));
    for env in ["equation", "align", "gather", "multline", "equation*", "align*", "gather*", "multline*"] {
        let text = format!("\\begin{{{env}}}x+1\\end{{{env}}}");
        assert_eq!(region(&text, "+"), ("x+1".to_string(), true), "{env}");
    }
}

#[test]
fn every_documented_definition_form_is_recognised() {
    let text = "\\newcommand{\\A}{a}\\newcommand*{\\B}{b}\\renewcommand{\\C}{c}\\renewcommand*{\\D}{d}\
                \\providecommand{\\E}{e}\\providecommand*{\\F}{f}\\def\\G{g}\\DeclareMathOperator{\\div}{div}";
    let mut idx = Index::new();
    extract_macros(text, "defs.tex", &mut idx);
    for (name, body) in [("A", "a"), ("B", "b"), ("C", "c"), ("D", "d"), ("E", "e"), ("F", "f"), ("G", "g")] {
        assert_eq!(idx.macros.get(name).unwrap().body, body, "{name}");
    }
    assert_eq!(idx.macros.get("div").unwrap().body, "\\operatorname{div}");
}

#[test]
fn two_argument_macro_expands_in_order() {
    let mut idx = Index::new();
    extract_macros("\\newcommand{\\foo}[2]{#1+#2}", "m.tex", &mut idx);
    let table = formula_macros(&idx, "");
    assert_eq!(expand_macros("\\foo{a}{b}", &table), "a+b");
}

#[test]
fn one_argument_macro_from_a_table() {
    let mut table = SortedMap::new();
    table.insert("norm".to_string(), MacroValue { body: "\\|#1\\|".to_string(), arity: 1 });
    assert_eq!(expand_macros("\\norm{v} + \\norm{w}", &table), "\\|v\\| + \\|w\\|");
}
