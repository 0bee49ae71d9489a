//! Indexing and cursor analysis for LaTeX documents: labels, BibTeX
//! entries, user macros, math regions and hover text, and the decisions of
//! the language server, the JSON-RPC sidecar, the file watcher and the
//! editor extension built on them.
pub mod text;
pub mod chars;
pub mod sorted_map;
pub mod position;
pub mod snippet;
pub mod labels;
pub mod macros;
pub mod bibtex;
pub mod index;
pub mod paths;
pub mod reindex;
pub mod cursor;
pub mod math;
pub mod expand;
pub mod dict;
pub mod hover;
pub mod svg;
pub mod workspace;
pub mod watcher;
pub mod server;
pub mod sidecar;
pub mod launch;
