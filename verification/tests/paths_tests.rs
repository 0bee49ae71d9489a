use latex_index::index::Index;
use latex_index::labels::extract_labels;
use latex_index::paths::same_path;
use latex_index::position::all_positions_fit;
use latex_index::sidecar::file_labels;
use latex_index::snippet::lines_fit;

#[test]
fn paths_compare_by_components() {
    assert!(same_path("a//b.tex", "a/b.tex"));
    assert!(same_path("/p/./q/b.tex", "/p/q/b.tex"));
    assert!(same_path("a/b/", "a/b"));
    assert!(same_path("./a", "./a"));
    assert!(!same_path("./a", "a"));
    assert!(!same_path("/a", "a"));
    assert!(!same_path("a/../b", "b"));
    assert!(!same_path("a/b.tex", "a/c.tex"));
}

#[test]
fn reindexing_under_another_spelling_replaces_labels() {
    let mut idx = Index::new();
    extract_labels(r"\label{old}", "/p//a.tex", &mut idx);
    assert!(idx.labels.get("old").is_some());
    extract_labels(r"\label{new}", "/p/a.tex", &mut idx);
    assert!(idx.labels.get("old").is_none());
    assert!(idx.labels.get("new").is_some());
    let rows = file_labels(&idx, "/p/./a.tex");
    assert_eq!(rows.len(), 1);
    assert_eq!(rows[0].0, "new");
}

#[test]
fn line_and_position_limits() {
    assert!(lines_fit(b"a\nb\nc"));
    assert!(lines_fit(b""));
    assert!(all_positions_fit("x\ny\u{1D44E}"));
    assert!(all_positions_fit(""));
}

