use latex_index::launch::{
    binary_candidates, is_preview_server, launch_step, lsp_binary_name, not_found_message, LaunchStep,
};

#[test]
fn binary_name_per_platform() {
    assert_eq!(lsp_binary_name(true), "latex-preview-lsp.exe");
    assert_eq!(lsp_binary_name(false), "latex-preview-lsp");
}

#[test]
fn candidates_cover_raw_and_installed_directories() {
    let c = binary_candidates("/ext/work/latex-preview/", "latex-preview-lsp");
    assert_eq!(
        c,
        vec![
            "/ext/work/latex-preview/bin/latex-preview-lsp".to_string(),
            "/ext/work/latex-preview/latex-index/target/release/latex-preview-lsp".to_string(),
            "/ext/work/latex-preview/latex-index/target/debug/latex-preview-lsp".to_string(),
            "/ext/installed/latex-preview/bin/latex-preview-lsp".to_string(),
            "/ext/installed/latex-preview/latex-index/target/release/latex-preview-lsp".to_string(),
            "/ext/installed/latex-preview/latex-index/target/debug/latex-preview-lsp".to_string(),
        ]
    );
    let w = binary_candidates("C:\\ext\\work\\lp\\", "x.exe");
    assert_eq!(w[0], "C:\\ext\\work\\lp/bin/x.exe");
    assert_eq!(w[3], "C:\\ext\\installed\\lp/bin/x.exe");
    assert!(binary_candidates("", "x").is_empty());
    assert!(binary_candidates("///", "x").is_empty());
}

#[test]
fn launch_order() {
    assert!(is_preview_server("latex-preview"));
    assert!(matches!(launch_step("texlab", None, None), LaunchStep::UnknownServer));
    match launch_step("latex-preview", Some("/opt/lsp".to_string()), Some("/usr/bin/lsp".to_string())) {
        LaunchStep::Run(c) => assert_eq!(c, "/opt/lsp"),
        _ => panic!("settings path first"),
    }
    match launch_step("latex-preview", None, Some("/usr/bin/lsp".to_string())) {
        LaunchStep::Run(c) => assert_eq!(c, "/usr/bin/lsp"),
        _ => panic!("PATH second"),
    }
    assert!(matches!(launch_step("latex-preview", None, None), LaunchStep::Probe));
}

#[test]
fn not_found_message_lists_where_it_looked() {
    let tried = vec!["/a/bin/x".to_string(), "/b/bin/x".to_string()];
    let m = not_found_message("x", &tried);
    assert_eq!(
        m,
        "latex-preview: `x` was not found.  Looked in:\n      /a/bin/x\n      /b/bin/x\n  Fix one of:\n    1. Put `x` on your PATH and reload Zed.\n    2. Set `lsp.latex-preview.binary.path` in Zed settings to an absolute path.\n    3. Build it and copy it into `bin/` next to `extension.wasm`:\n         cd latex-index && cargo build --release --bin latex-preview-lsp\n         cp target/release/x ../bin/"
    );
}
