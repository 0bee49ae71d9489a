[package]
name = "latex_index"
version = "0.1.0"
edition = "2021"
publish = false

[dependencies]
dashmap = "6"
base64 = "0.22"
serde = { version = "1", features = ["derive"] }
serde_json = "1"
anyhow = "1"
lsp-server = "0.7"
lsp-types = "0.97"
mathjax-svg-rs = "*"
notify = "6"
notify-debouncer-mini = "0.4"
zed_extension_api = "*"
