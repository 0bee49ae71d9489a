//! The language server's decisions: which files to index and how, and what
//! a hover over a position shows.
use vstd::prelude::*;
use crate::snippet::newlines;
use vstd::string::{StringSliceAdditionalSpecFns, StringExecFns};
use vstd::utf8::encode_utf8;
use crate::index::{Index, BibEntry, LabelEntry, bib_view, label_view, bib_map, label_map, get_bib, get_label, bibs_ordered};
use crate::cursor::{BufferStore, cursor_context, spec_context};
use crate::position::{Position, position_of, offset_of, position_to_offset, offset_to_position, byte_range_to_lsp_range, positions_fit};
use crate::math::{find_math_region, spec_math_span_at};
use crate::expand::{formula_macros, expand_macros, expand_all, table_pairs, table_view};
use crate::dict::{lookup, spec_lookup_index, spec_table, entry_is};
use crate::hover::{format_doc_hover, doc_card};
use crate::workspace::{FileKind, file_kind, kind_of};
use crate::labels::{extract_labels, label_scan};
use crate::macros::extract_macros;
use crate::bibtex::parse_bibtex;
use crate::text::str_eq;
use crate::svg::ColorMode;

verus! {

// ── indexing ───────────────────────────────────────────────────────────

/// Index the file at `path` (named `name`) with contents `text`: a `.bib`
/// file's entries, or a `.tex` file's labels and then its macros; other
/// files are left alone.
pub fn index_file(index: &mut Index, path: &str, name: &str, text: &str)
    requires
        old(index).wf(),
        newlines(text.spec_bytes()) <= u32::MAX,
        text.spec_bytes().len() <= isize::MAX,
    ensures
        final(index).wf(),
        kind_of(name@) == FileKind::Other ==> *final(index) == *old(index),
        kind_of(name@) == FileKind::Bib ==> final(index).labels == old(index).labels
            && final(index).macros == old(index).macros
            && bib_map(final(index).bib) == crate::bibtex::insert_bibs(
                crate::index::bibs_not_from(bib_map(old(index).bib), path@),
                crate::bibtex::bib_scan(text.spec_bytes(), path@, 0, crate::bibtex::strings_of(text.spec_bytes()))),
        kind_of(name@) == FileKind::Tex ==> final(index).bib == old(index).bib
            && label_map(final(index).labels) == crate::labels::insert_labels(
                crate::index::labels_not_from(label_map(old(index).labels), path@),
                label_scan(text.spec_bytes(), path@, 0, Seq::empty()))
            && crate::index::macro_map(final(index).macros) == crate::macros::insert_macros(
                crate::index::macros_not_from(crate::index::macro_map(old(index).macros), path@),
                crate::macros::macro_scan(text.spec_bytes(), path@, 0)),
{
    match file_kind(name) {
        FileKind::Bib => parse_bibtex(text, path, index),
        FileKind::Tex => {
            extract_labels(text, path, index);
            extract_macros(text, path, index);
        },
        FileKind::Other => {},
    }
}

/// Update the open document `uri` to `text`: the buffer is remembered and,
/// when the URI names a path (`path`, whose file name is `name`), the
/// document is re-indexed from `text` in place of what was indexed from
/// that path.
pub fn update_document(index: &mut Index, buffers: &mut BufferStore, uri: &str, text: &str, path: Option<&str>, name: &str)
    requires
        old(index).wf(),
        old(buffers).wf(),
        newlines(text.spec_bytes()) <= u32::MAX,
        text.spec_bytes().len() <= isize::MAX,
    ensures
        final(index).wf(),
        final(buffers).wf(),
        final(buffers)@ == old(buffers)@.insert(uri@, text@),
        path is None ==> *final(index) == *old(index),
        path matches Some(p) ==> ({
            let t = text.spec_bytes();
            let kind = kind_of(name@);
            &&& label_map(final(index).labels) == (if kind == FileKind::Tex {
                crate::labels::insert_labels(crate::index::labels_not_from(label_map(old(index).labels), p@), label_scan(t, p@, 0, Seq::empty()))
            } else {
                crate::index::labels_not_from(label_map(old(index).labels), p@)
            })
            &&& bib_map(final(index).bib) == (if kind == FileKind::Bib {
                crate::bibtex::insert_bibs(crate::index::bibs_not_from(bib_map(old(index).bib), p@),
                    crate::bibtex::bib_scan(t, p@, 0, crate::bibtex::strings_of(t)))
            } else {
                crate::index::bibs_not_from(bib_map(old(index).bib), p@)
            })
            &&& crate::index::macro_map(final(index).macros) == (if kind == FileKind::Tex {
                crate::macros::insert_macros(crate::index::macros_not_from(crate::index::macro_map(old(index).macros), p@),
                    crate::macros::macro_scan(t, p@, 0))
            } else {
                crate::index::macros_not_from(crate::index::macro_map(old(index).macros), p@)
            })
        }),
{
    buffers.put(uri.to_owned(), text.to_owned());
    match path {
        None => {},
        Some(p) => {
            proof {
                let l = label_map(index.labels);
                let b = bib_map(index.bib);
                let m = crate::index::macro_map(index.macros);
                assert(crate::index::labels_not_from(crate::index::labels_not_from(l, p@), p@) =~= crate::index::labels_not_from(l, p@));
                assert(crate::index::bibs_not_from(crate::index::bibs_not_from(b, p@), p@) =~= crate::index::bibs_not_from(b, p@));
                assert(crate::index::macros_not_from(crate::index::macros_not_from(m, p@), p@) =~= crate::index::macros_not_from(m, p@));
            }
            index.remove_file(p);
            index_file(index, p, name, text);
        },
    }
}

/// The workspace root a client announces: its first workspace folder, or
/// else its root URI.
pub fn initialize_root_uri(first_folder: Option<String>, root_uri: Option<String>) -> (r: Option<String>)
    ensures
        r == (match first_folder {
            Some(f) => Some(f),
            None => root_uri,
        }),
{
    match first_folder {
        Some(f) => Some(f),
        None => root_uri,
    }
}

/// The document notifications the server acts on.
#[derive(Clone, Copy, Debug, PartialEq, Eq, Structural)]
pub enum DocumentEvent {
    Open,
    Change,
    Close,
}

/// The document notification named `method`, if the server acts on it.
pub fn document_event(method: &str) -> (r: Option<DocumentEvent>)
    ensures
        r == (if method@ == "textDocument/didOpen"@ {
            Some(DocumentEvent::Open)
        } else if method@ == "textDocument/didChange"@ {
            Some(DocumentEvent::Change)
        } else if method@ == "textDocument/didClose"@ {
            Some(DocumentEvent::Close)
        } else {
            None
        }),
{
    if str_eq(method, "textDocument/didOpen") {
        Some(DocumentEvent::Open)
    } else if str_eq(method, "textDocument/didChange") {
        Some(DocumentEvent::Change)
    } else if str_eq(method, "textDocument/didClose") {
        Some(DocumentEvent::Close)
    } else {
        None
    }
}

// ── hovers ─────────────────────────────────────────────────────────────

/// What the server's hover shows, before anything is rendered.
pub struct HoverSettings {
    pub enabled: bool,
    pub max_formula_length: usize,
    pub enabled_cite_preview: bool,
    pub enabled_ref_preview: bool,
    pub enabled_doc_preview: bool,
}

/// The preview settings other than the formula scale: what hovers show,
/// how long a render may take, and the formula colour.
pub struct PreviewConfig {
    pub hover: HoverSettings,
    pub timeout_ms: u64,
    pub color: ColorMode,
}

/// The colour named by the `color` setting: `black`, `white`, or (for any
/// other name) automatic.
pub fn color_mode_of(name: &str) -> (r: ColorMode)
    ensures
        r == (if name@ == "black"@ {
            ColorMode::Black
        } else if name@ == "white"@ {
            ColorMode::White
        } else {
            ColorMode::Auto
        }),
{
    if str_eq(name, "black") {
        ColorMode::Black
    } else if str_eq(name, "white") {
        ColorMode::White
    } else {
        ColorMode::Auto
    }
}

impl PreviewConfig {
    /// The settings given by the options that are present, each missing one
    /// at its default: previews enabled, formulas up to 2000 bytes, renders
    /// up to 1500 ms, automatic colour, and citation, reference and
    /// documentation hovers enabled.
    pub fn from_options(
        enabled: Option<bool>,
        max_formula_length: Option<u64>,
        timeout_ms: Option<u64>,
        color: Option<&str>,
        cite: Option<bool>,
        reference: Option<bool>,
        doc: Option<bool>,
    ) -> (r: Self)
        ensures
            r.hover.enabled == (match enabled { Some(v) => v, None => true }),
            r.hover.max_formula_length == (match max_formula_length { Some(v) => v as usize, None => 2000usize }),
            r.timeout_ms == (match timeout_ms { Some(v) => v, None => 1500u64 }),
            r.color == (match color {
                Some(c) => if c@ == "black"@ {
                    ColorMode::Black
                } else if c@ == "white"@ {
                    ColorMode::White
                } else {
                    ColorMode::Auto
                },
                None => ColorMode::Auto,
            }),
            r.hover.enabled_cite_preview == (match cite { Some(v) => v, None => true }),
            r.hover.enabled_ref_preview == (match reference { Some(v) => v, None => true }),
            r.hover.enabled_doc_preview == (match doc { Some(v) => v, None => true }),
    {
        PreviewConfig {
            hover: HoverSettings {
                enabled: match enabled { Some(v) => v, None => true },
                max_formula_length: match max_formula_length { Some(v) => v as usize, None => 2000 },
                enabled_cite_preview: match cite { Some(v) => v, None => true },
                enabled_ref_preview: match reference { Some(v) => v, None => true },
                enabled_doc_preview: match doc { Some(v) => v, None => true },
            },
            timeout_ms: match timeout_ms { Some(v) => v, None => 1500 },
            color: match color { Some(c) => color_mode_of(c), None => ColorMode::Auto },
        }
    }
}

/// The hover to show at a position, before rendering.
pub enum HoverPlan {
    /// No hover.
    Nothing,
    /// A citation card for the entry (or a not-found note when it is not
    /// indexed) over the key's range.
    Cite { entry: Option<BibEntry>, range: Option<(Position, Position)> },
    /// A reference card for the label over the key's range.
    Ref { entry: LabelEntry, range: Option<(Position, Position)> },
    /// Documentation of a package or command.
    Doc { value: String },
    /// A formula (macros expanded) to render, over the region's range.
    Math { source: String, display: bool, start: Position, end: Position },
}

/// A byte range of `t` as an LSP range.
pub open spec fn lsp_range_is(r: Option<(Position, Position)>, chars: Seq<char>, range: Option<(int, int)>) -> bool {
    match (r, range) {
        (None, None) => true,
        (Some((s, e)), Some((a, b))) => (s.line as nat, s.character as nat) == position_of(chars, a)
            && (e.line as nat, e.character as nat) == position_of(chars, b),
        _ => false,
    }
}

/// The macros for formulas in a document with bytes `t`: the workspace's,
/// overridden by the document's own.
pub open spec fn formula_macro_map(index: Index, t: Seq<u8>) -> Map<Seq<char>, (Seq<char>, nat)> {
    crate::expand::index_macros(crate::index::macro_map(index.macros)).union_prefer_right(
        crate::expand::index_macros(crate::macros::insert_macros(Map::empty(), crate::macros::macro_scan(t, "<buffer>"@, 0))))
}

/// The math fallback of a hover: the formula around `off`, if any and not
/// too long, with the macros of the workspace and the document expanded.
pub open spec fn math_plan_is(p: HoverPlan, index: Index, chars: Seq<char>, off: int, max_len: usize) -> bool {
    let t = encode_utf8(chars);
    match spec_math_span_at(t, off) {
        None => p is Nothing,
        Some(sp) => if sp.body_end - sp.body_start > max_len {
            p is Nothing
        } else {
            p matches HoverPlan::Math { source, display, start, end }
                && display == sp.display
                && (start.line as nat, start.character as nat) == position_of(chars, sp.open as int)
                && (end.line as nat, end.character as nat) == position_of(chars, sp.end as int)
                && (exists|ps: Seq<(Seq<char>, (Seq<char>, nat))>|
                    crate::sorted_map::ascending(ps) && crate::sorted_map::pairs_map(ps) == formula_macro_map(index, t)
                    && source@ == expand_all(vstd::utf8::decode_utf8(t.subrange(sp.body_start as int, sp.body_end as int)), ps))
        },
    }
}

/// Plan the hover at `pos` in the open document `uri`.  A citation key
/// comes first, then a reference key whose label is indexed, then a
/// documented name, then the formula around the position.
pub fn plan_hover(index: &Index, buffers: &BufferStore, settings: &HoverSettings, uri: &str, pos: Position) -> (r: HoverPlan)
    requires
        buffers.wf(),
        index.wf(),
        buffers@.contains_key(uri@) ==> positions_fit(buffers@[uri@]),
    ensures
        !settings.enabled ==> r is Nothing,
        !settings.enabled_cite_preview ==> !(r is Cite),
        !settings.enabled_ref_preview ==> !(r is Ref),
        !settings.enabled_doc_preview ==> !(r is Doc),
        settings.enabled && !buffers@.contains_key(uri@) ==> r is Nothing,
        settings.enabled && buffers@.contains_key(uri@) ==> ({
            let chars = buffers@[uri@];
            let t = encode_utf8(chars);
            let off = offset_of(chars, pos.line as nat, pos.character as nat, 0);
            let c = spec_context(t, off);
            if c.0 == "cite"@ && settings.enabled_cite_preview && c.1 is Some {
                r matches HoverPlan::Cite { entry, range }
                    && lsp_range_is(range, chars, c.2)
                    && match entry {
                        Some(e) => bib_map(index.bib).contains_key(c.1->0) && bib_view(e) == bib_map(index.bib)[c.1->0]
                            && e.fields.wf(),
                        None => !bib_map(index.bib).contains_key(c.1->0),
                    }
            } else if c.0 == "ref"@ && settings.enabled_ref_preview && c.1 is Some && label_map(index.labels).contains_key(c.1->0) {
                r matches HoverPlan::Ref { entry, range }
                    && lsp_range_is(range, chars, c.2)
                    && label_view(entry) == label_map(index.labels)[c.1->0]
            } else if c.0 == "doc"@ && settings.enabled_doc_preview && c.1 is Some && crate::dict::lookup_chars(c.1->0) is Some {
                r matches HoverPlan::Doc { value }
                    && (exists|e: crate::dict::DictEntry| entry_is(e, spec_table()[crate::dict::lookup_chars(c.1->0)->0]) && value@ == doc_card(e))
            } else {
                math_plan_is(r, *index, chars, off, settings.max_formula_length)
            }
        }),
{
    if !settings.enabled {
        return HoverPlan::Nothing;
    }
    let text = match buffers.get(uri) {
        Some(t) => t,
        None => return HoverPlan::Nothing,
    };
    let text = text.as_str();
    let offset = position_to_offset(text, pos);
    let ctx = cursor_context(uri, offset, buffers);
    let kind = ctx.kind.as_str();
    let range = match ctx.range {
        Some(rg) => Some(byte_range_to_lsp_range(text, rg)),
        None => None,
    };
    if str_eq(kind, "cite") && settings.enabled_cite_preview {
        match &ctx.key {
            Some(key) => {
                let entry = get_bib(&index.bib, key.as_str());
                proof {
                    if entry is Some {
                        assert(bib_map(index.bib).contains_key(key@));
                    }
                }
                return HoverPlan::Cite { entry, range };
            },
            None => {},
        }
    }
    if str_eq(kind, "ref") && settings.enabled_ref_preview {
        match &ctx.key {
            Some(key) => {
                match get_label(&index.labels, key.as_str()) {
                    Some(entry) => return HoverPlan::Ref { entry, range },
                    None => {},
                }
            },
            None => {},
        }
    }
    if str_eq(kind, "doc") && settings.enabled_doc_preview {
        match &ctx.key {
            Some(key) => {
                match lookup(key.as_str()) {
                    Some(e) => {
                        let value = format_doc_hover(&e);
                        return HoverPlan::Doc { value };
                    },
                    None => {},
                }
            },
            None => {},
        }
    }
    match find_math_region(text, offset, settings.max_formula_length) {
        None => HoverPlan::Nothing,
        Some(region) => {
            let macros = formula_macros(index, text);
            proof {
                crate::expand::lemma_table_pairs(&macros);
            }
            let source = expand_macros(region.source.as_str(), &macros);
            let start = offset_to_position(text, region.start);
            let end = offset_to_position(text, region.end);
            HoverPlan::Math { source, display: region.display, start, end }
        },
    }
}

} // verus!
