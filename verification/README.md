# latex_index

Indexing and hover logic for LaTeX documents, verified with Verus: the
labels, BibTeX entries and user macros of a workspace, what the cursor is
on, math regions, macro expansion, and the Markdown text of hovers.

## Layout

- `src/` — the verified library.
  - `text`, `chars`, `sorted_map`, `position`: byte and character helpers,
    an ordered string map, LSP positions (UTF-16 columns).
  - `labels`, `snippet`, `macros`, `bibtex`: scanners for `\label`,
    source snippets, macro definitions and `.bib` files.
  - `index`, `reindex`, `paths`: the three indexes, what indexing a file
    does to them, and when two paths name the same file.
  - `cursor`, `math`, `expand`, `dict`: cursor context, math regions, macro
    expansion, the bundled package and command dictionary.
  - `hover`, `svg`: hover cards and SVG post-processing, plus a bounded
    render cache.
  - `server`, `sidecar`, `watcher`, `workspace`, `launch`: the decisions of
    the language server, of the line-oriented JSON-RPC sidecar, of the file
    watcher, of workspace scanning, and of the editor extension that starts
    the server.
- `app/` — the program around the library: the LSP transport, the sidecar
  loop, MathJax rendering, file system access and the Zed extension.
- `tests/` — tests of the library.
