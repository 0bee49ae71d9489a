//! The decisions of the line-oriented JSON-RPC sidecar: which method a
//! request names, which error code a failure gets, and what updating and
//! closing a file do to the buffers and the index.  Reading lines, JSON and
//! writing replies are left to the program around the library.
use vstd::prelude::*;
use crate::snippet::newlines;
use vstd::string::StringSliceAdditionalSpecFns;
use crate::index::{Index, LabelsView, BibsView, MacrosView, label_map, bib_map, macro_map, labels_not_from, bibs_not_from, macros_not_from, label_entries, macro_entries};
use crate::cursor::BufferStore;
use crate::workspace::{FileKind, kind_of, uri_path, normalise_uri};
use crate::labels::{label_scan, insert_labels};
use crate::macros::{macro_scan, insert_macros};
use crate::bibtex::{bib_scan, insert_bibs, strings_of};
use crate::server::index_file;
use crate::paths::{same_file, same_path};
use crate::text::{str_eq, str_trim, trim_ws};

verus! {

/// The protocol version both sides must speak.
pub const PROTOCOL_VERSION: u32 = 1;

/// The request line is not valid JSON.
pub const PARSE_ERROR: i32 = -32700;
/// The request is not a valid request object.
pub const INVALID_REQUEST: i32 = -32600;
/// The request names no known method.
pub const METHOD_NOT_FOUND: i32 = -32601;
/// The request's parameters are invalid.
pub const INVALID_PARAMS: i32 = -32602;
/// The handler failed.
pub const INTERNAL_ERROR: i32 = -32603;

/// The methods the sidecar serves.
#[derive(Clone, Copy, Debug, PartialEq, Eq, Structural)]
pub enum Method {
    Initialize,
    UpdateFile,
    CloseFile,
    Lookup,
    CursorContext,
    WorkspaceMacros,
    Ping,
}

/// The method named `name`, if the sidecar serves it.
pub open spec fn spec_method_of(name: Seq<char>) -> Option<Method> {
    if name == "initialize"@ {
        Some(Method::Initialize)
    } else if name == "update_file"@ {
        Some(Method::UpdateFile)
    } else if name == "close_file"@ {
        Some(Method::CloseFile)
    } else if name == "lookup"@ {
        Some(Method::Lookup)
    } else if name == "cursor_context"@ {
        Some(Method::CursorContext)
    } else if name == "workspace_macros"@ {
        Some(Method::WorkspaceMacros)
    } else if name == "ping"@ {
        Some(Method::Ping)
    } else {
        None
    }
}

pub fn method_of(name: &str) -> (r: Option<Method>)
    ensures
        r == spec_method_of(name@),
{
    if str_eq(name, "initialize") {
        Some(Method::Initialize)
    } else if str_eq(name, "update_file") {
        Some(Method::UpdateFile)
    } else if str_eq(name, "close_file") {
        Some(Method::CloseFile)
    } else if str_eq(name, "lookup") {
        Some(Method::Lookup)
    } else if str_eq(name, "cursor_context") {
        Some(Method::CursorContext)
    } else if str_eq(name, "workspace_macros") {
        Some(Method::WorkspaceMacros)
    } else if str_eq(name, "ping") {
        Some(Method::Ping)
    } else {
        None
    }
}

/// The JSON text of a request line: the line without surrounding white
/// space, or nothing for a blank line (which is skipped).
pub fn request_text(line: &str) -> (r: Option<&str>)
    ensures
        match r {
            Some(t) => t@ == trim_ws(line@) && t@.len() > 0,
            None => trim_ws(line@).len() == 0,
        },
{
    let t = str_trim(line);
    if t.is_empty() {
        None
    } else {
        Some(t)
    }
}

/// Why a request was not answered with a result.
#[derive(Clone, Copy, Debug, PartialEq, Eq, Structural)]
pub enum Failure {
    /// The line is not a JSON request.
    Parse,
    /// The request names no method the sidecar serves.
    UnknownMethod,
    /// The handler returned an error.
    Handler,
    /// The handler stopped on an internal failure.
    Panic,
}

/// The error code a failure is answered with.
pub fn failure_code(f: Failure) -> (r: i32)
    ensures
        r == match f {
            Failure::Parse => PARSE_ERROR,
            Failure::UnknownMethod => METHOD_NOT_FOUND,
            Failure::Handler => INTERNAL_ERROR,
            Failure::Panic => INTERNAL_ERROR,
        },
{
    match f {
        Failure::Parse => PARSE_ERROR,
        Failure::UnknownMethod => METHOD_NOT_FOUND,
        Failure::Handler => INTERNAL_ERROR,
        Failure::Panic => INTERNAL_ERROR,
    }
}

/// Whether the version a client announces (none counts as 0) is the
/// sidecar's.
pub fn version_accepted(version: Option<u64>) -> (r: bool)
    ensures
        r == (match version {
            Some(v) => v == PROTOCOL_VERSION,
            None => false,
        }),
{
    let v = match version {
        Some(v) => v,
        None => 0,
    };
    v == 1
}

/// What to do with an `initialize` request.
pub enum InitDecision {
    /// The sidecar is already initialised: no reply and no new watcher.
    Ignore,
    /// The client speaks another protocol version (the one it announced,
    /// none counting as 0).
    Reject(u64),
    /// Accept, and watch the workspace at this path when there is one.
    Accept(Option<String>),
}

/// Decide an `initialize` request from whether the sidecar is initialised
/// already, the announced protocol version and the workspace root URI.
pub fn initialize_decision(initialised: bool, version: Option<u64>, root_uri: Option<&str>, windows: bool) -> (r: InitDecision)
    ensures
        initialised ==> r is Ignore,
        !initialised && !(version == Some(PROTOCOL_VERSION as u64)) ==> (r matches InitDecision::Reject(v)
            && v == (match version { Some(x) => x, None => 0 })),
        !initialised && version == Some(PROTOCOL_VERSION as u64) ==> (r matches InitDecision::Accept(w) && match root_uri {
            None => w is None,
            Some(u) => match uri_path(u@, windows) {
                None => w is None,
                Some(p) => w matches Some(q) && q@ == p,
            },
        }),
{
    if initialised {
        return InitDecision::Ignore;
    }
    if !version_accepted(version) {
        let v = match version {
            Some(x) => x,
            None => 0,
        };
        return InitDecision::Reject(v);
    }
    match root_uri {
        None => InitDecision::Accept(None),
        Some(u) => InitDecision::Accept(normalise_uri(u, windows)),
    }
}

/// What a `lookup` request looks for.
#[derive(Clone, Copy, Debug, PartialEq, Eq, Structural)]
pub enum LookupKind {
    Cite,
    Ref,
}

/// The lookup kind named `kind`, if it is supported.
pub fn lookup_kind(kind: &str) -> (r: Option<LookupKind>)
    ensures
        r == (if kind@ == "cite"@ {
            Some(LookupKind::Cite)
        } else if kind@ == "ref"@ {
            Some(LookupKind::Ref)
        } else {
            None
        }),
{
    if str_eq(kind, "cite") {
        Some(LookupKind::Cite)
    } else if str_eq(kind, "ref") {
        Some(LookupKind::Ref)
    } else {
        None
    }
}

// ── files ──────────────────────────────────────────────────────────────

/// Why `update_file` did not index a file.
#[derive(Clone, Copy, Debug, PartialEq, Eq, Structural)]
pub enum UpdateError {
    /// The URI names no path.
    BadUri,
}

/// What updating a `.tex` file found in it: each label's key, line and
/// environment, and each macro's name (in no particular order).
pub struct FileSummary {
    pub labels: Vec<(String, u32, String)>,
    pub macros: Vec<String>,
}

/// `rows` lists exactly the labels of `m` that come from `file`, each once,
/// with their lines and environments.
pub open spec fn lists_file_labels(rows: Seq<(String, u32, String)>, m: LabelsView, file: Seq<char>) -> bool {
    &&& forall|j: int| 0 <= j < rows.len() ==> #[trigger] m.contains_key(rows[j].0@)
        && same_file(m[rows[j].0@].file, file) && m[rows[j].0@].line == rows[j].1 as int && m[rows[j].0@].env == rows[j].2@
    &&& forall|k: Seq<char>| #[trigger] m.contains_key(k) && same_file(m[k].file, file) ==> exists|j: int| 0 <= j < rows.len() && rows[j].0@ == k
    &&& forall|i: int, j: int| 0 <= i < j < rows.len() ==> #[trigger] rows[i].0@ != #[trigger] rows[j].0@
}

/// `names` lists exactly the macros of `m` that come from `file`, each once.
pub open spec fn lists_file_macros(names: Seq<String>, m: MacrosView, file: Seq<char>) -> bool {
    &&& forall|j: int| 0 <= j < names.len() ==> #[trigger] m.contains_key(names[j]@) && same_file(m[names[j]@].file, file)
    &&& forall|k: Seq<char>| #[trigger] m.contains_key(k) && same_file(m[k].file, file) ==> exists|j: int| 0 <= j < names.len() && names[j]@ == k
    &&& forall|i: int, j: int| 0 <= i < j < names.len() ==> #[trigger] names[i]@ != #[trigger] names[j]@
}

/// The labels of `index` that come from `file`.
pub fn file_labels(index: &Index, file: &str) -> (r: Vec<(String, u32, String)>)
    ensures
        lists_file_labels(r@, label_map(index.labels), file@),
{
    let entries = label_entries(&index.labels);
    let ghost m = label_map(index.labels);
    let mut out: Vec<(String, u32, String)> = Vec::new();
    let ghost mut from: Seq<int> = Seq::empty();
    let mut j: usize = 0;
    while j < entries.len()
        invariant
            j <= entries@.len(),
            m == label_map(index.labels),
            forall|q: int| 0 <= q < entries@.len() ==> #[trigger] m.contains_key(entries@[q].0@)
                && m[entries@[q].0@].line == entries@[q].1 as int
                && m[entries@[q].0@].env == entries@[q].2@
                && m[entries@[q].0@].file == entries@[q].3@,
            forall|k: Seq<char>| #[trigger] m.contains_key(k) ==> exists|q: int| 0 <= q < entries@.len() && entries@[q].0@ == k,
            forall|a: int, b: int| 0 <= a < b < entries@.len() ==> #[trigger] entries@[a].0@ != #[trigger] entries@[b].0@,
            from.len() == out@.len(),
            forall|i: int| 0 <= i < out@.len() ==> 0 <= #[trigger] from[i] < j && entries@[from[i]].0@ == out@[i].0@
                && entries@[from[i]].1 == out@[i].1 && entries@[from[i]].2@ == out@[i].2@ && same_file(entries@[from[i]].3@, file@),
            forall|a: int, b: int| 0 <= a < b < out@.len() ==> #[trigger] from[a] < #[trigger] from[b],
            forall|q: int| 0 <= q < j && #[trigger] same_file(entries@[q].3@, file@) ==> exists|i: int| 0 <= i < out@.len() && from[i] == q,
        decreases entries@.len() - j,
    {
        if same_path(entries[j].3.as_str(), file) {
            let ghost before = out@;
            let ghost fb = from;
            out.push((entries[j].0.clone(), entries[j].1, entries[j].2.clone()));
            proof {
                from = from.push(j as int);
                assert forall|q: int| 0 <= q < j + 1 && #[trigger] same_file(entries@[q].3@, file@) implies exists|i: int| 0 <= i < out@.len() && from[i] == q by {
                    if q < j {
                        let i = choose|i: int| 0 <= i < before.len() && fb[i] == q;
                        assert(from[i] == fb[i]);
                    } else {
                        assert(from[before.len() as int] == q);
                    }
                }
            }
        }
        j += 1;
    }
    proof {
        let rows = out@;
        assert forall|a: int, b: int| 0 <= a < b < rows.len() implies #[trigger] rows[a].0@ != #[trigger] rows[b].0@ by {
            assert(from[a] < from[b]);
        }
        assert forall|x: int| 0 <= x < rows.len() implies #[trigger] m.contains_key(rows[x].0@)
            && same_file(m[rows[x].0@].file, file@) && m[rows[x].0@].line == rows[x].1 as int && m[rows[x].0@].env == rows[x].2@ by {
            assert(0 <= from[x] < entries@.len());
            assert(m.contains_key(entries@[from[x]].0@));
        }
        assert forall|k: Seq<char>| #[trigger] m.contains_key(k) && same_file(m[k].file, file@)
            implies exists|x: int| 0 <= x < rows.len() && rows[x].0@ == k by {
            let q = choose|q: int| 0 <= q < entries@.len() && entries@[q].0@ == k;
            assert(m.contains_key(entries@[q].0@));
            assert(same_file(entries@[q].3@, file@));
            let x = choose|x: int| 0 <= x < out@.len() && from[x] == q;
            assert(rows[x].0@ == k);
        }
    }
    out
}

/// The macros of `index` that come from `file`.
pub fn file_macros(index: &Index, file: &str) -> (r: Vec<String>)
    ensures
        lists_file_macros(r@, macro_map(index.macros), file@),
{
    let entries = macro_entries(&index.macros);
    let ghost m = macro_map(index.macros);
    let mut out: Vec<String> = Vec::new();
    let ghost mut from: Seq<int> = Seq::empty();
    let mut j: usize = 0;
    while j < entries.len()
        invariant
            j <= entries@.len(),
            m == macro_map(index.macros),
            forall|q: int| 0 <= q < entries@.len() ==> #[trigger] m.contains_key(entries@[q].0@)
                && m[entries@[q].0@].file == entries@[q].3@,
            forall|k: Seq<char>| #[trigger] m.contains_key(k) ==> exists|q: int| 0 <= q < entries@.len() && entries@[q].0@ == k,
            forall|a: int, b: int| 0 <= a < b < entries@.len() ==> #[trigger] entries@[a].0@ != #[trigger] entries@[b].0@,
            from.len() == out@.len(),
            forall|i: int| 0 <= i < out@.len() ==> 0 <= #[trigger] from[i] < j && entries@[from[i]].0@ == out@[i]@
                && same_file(entries@[from[i]].3@, file@),
            forall|a: int, b: int| 0 <= a < b < out@.len() ==> #[trigger] from[a] < #[trigger] from[b],
            forall|q: int| 0 <= q < j && #[trigger] same_file(entries@[q].3@, file@) ==> exists|i: int| 0 <= i < out@.len() && from[i] == q,
        decreases entries@.len() - j,
    {
        if same_path(entries[j].3.as_str(), file) {
            let ghost before = out@;
            let ghost fb = from;
            out.push(entries[j].0.clone());
            proof {
                from = from.push(j as int);
                assert forall|q: int| 0 <= q < j + 1 && #[trigger] same_file(entries@[q].3@, file@) implies exists|i: int| 0 <= i < out@.len() && from[i] == q by {
                    if q < j {
                        let i = choose|i: int| 0 <= i < before.len() && fb[i] == q;
                        assert(from[i] == fb[i]);
                    } else {
                        assert(from[before.len() as int] == q);
                    }
                }
            }
        }
        j += 1;
    }
    proof {
        let rows = out@;
        assert forall|a: int, b: int| 0 <= a < b < rows.len() implies #[trigger] rows[a]@ != #[trigger] rows[b]@ by {
            assert(from[a] < from[b]);
        }
        assert forall|x: int| 0 <= x < rows.len() implies #[trigger] m.contains_key(rows[x]@) && same_file(m[rows[x]@].file, file@) by {
            assert(0 <= from[x] < entries@.len());
            assert(m.contains_key(entries@[from[x]].0@));
        }
        assert forall|k: Seq<char>| #[trigger] m.contains_key(k) && same_file(m[k].file, file@)
            implies exists|x: int| 0 <= x < rows.len() && rows[x]@ == k by {
            let q = choose|q: int| 0 <= q < entries@.len() && entries@[q].0@ == k;
            assert(m.contains_key(entries@[q].0@));
            assert(same_file(entries@[q].3@, file@));
            let x = choose|x: int| 0 <= x < out@.len() && from[x] == q;
            assert(rows[x]@ == k);
        }
    }
    out
}

/// Every macro of `index`: its name, body, argument count and file, each
/// macro once, in no particular order.
pub fn all_macros(index: &Index) -> (r: Vec<(String, String, u32, String)>)
    ensures
        forall|j: int| 0 <= j < r@.len() ==> #[trigger] macro_map(index.macros).contains_key(r@[j].0@)
            && macro_map(index.macros)[r@[j].0@].body == r@[j].1@
            && macro_map(index.macros)[r@[j].0@].arity == r@[j].2 as int
            && macro_map(index.macros)[r@[j].0@].file == r@[j].3@,
        forall|k: Seq<char>| #[trigger] macro_map(index.macros).contains_key(k) ==> exists|j: int| 0 <= j < r@.len() && r@[j].0@ == k,
        forall|i: int, j: int| 0 <= i < j < r@.len() ==> #[trigger] r@[i].0@ != #[trigger] r@[j].0@,
{
    let r = macro_entries(&index.macros);
    assert forall|j: int| 0 <= j < r@.len() implies #[trigger] macro_map(index.macros).contains_key(r@[j].0@)
        && macro_map(index.macros)[r@[j].0@].body == r@[j].1@
        && macro_map(index.macros)[r@[j].0@].arity == r@[j].2 as int
        && macro_map(index.macros)[r@[j].0@].file == r@[j].3@ by {
        assert(macro_map(index.macros).contains_key(r@[j].0@));
    }
    r
}

proof fn lemma_not_from_twice(l: LabelsView, b: BibsView, m: MacrosView, p: Seq<char>)
    ensures
        labels_not_from(labels_not_from(l, p), p) == labels_not_from(l, p),
        bibs_not_from(bibs_not_from(b, p), p) == bibs_not_from(b, p),
        macros_not_from(macros_not_from(m, p), p) == macros_not_from(m, p),
{
    assert(labels_not_from(labels_not_from(l, p), p) =~= labels_not_from(l, p));
    assert(bibs_not_from(bibs_not_from(b, p), p) =~= bibs_not_from(b, p));
    assert(macros_not_from(macros_not_from(m, p), p) =~= macros_not_from(m, p));
}

/// Update the open document `uri` to `text` and re-index it: the buffer
/// is remembered and everything indexed from the document's path is
/// replaced by what `text` holds (by the URI's extension: bibliography
/// entries, or labels and macros).  Nothing changes when the URI names no
/// path.  For a `.tex` document the result lists its labels and macros.
pub fn update_file(index: &mut Index, buffers: &mut BufferStore, uri: &str, text: &str, windows: bool) -> (r: Result<FileSummary, UpdateError>)
    requires
        old(index).wf(),
        old(buffers).wf(),
        newlines(text.spec_bytes()) <= u32::MAX,
        text.spec_bytes().len() <= isize::MAX,
    ensures
        final(index).wf(),
        final(buffers).wf(),
        match uri_path(uri@, windows) {
            None => r == Err::<FileSummary, UpdateError>(UpdateError::BadUri) && *final(index) == *old(index)
                && final(buffers)@ == old(buffers)@,
            Some(p) => {
                let kind = kind_of(uri@);
                let t = text.spec_bytes();
                &&& final(buffers)@ == old(buffers)@.insert(uri@, text@)
                &&& label_map(final(index).labels) == (if kind == FileKind::Tex {
                    insert_labels(labels_not_from(label_map(old(index).labels), p), label_scan(t, p, 0, Seq::empty()))
                } else {
                    labels_not_from(label_map(old(index).labels), p)
                })
                &&& bib_map(final(index).bib) == (if kind == FileKind::Bib {
                    insert_bibs(bibs_not_from(bib_map(old(index).bib), p), bib_scan(t, p, 0, strings_of(t)))
                } else {
                    bibs_not_from(bib_map(old(index).bib), p)
                })
                &&& macro_map(final(index).macros) == (if kind == FileKind::Tex {
                    insert_macros(macros_not_from(macro_map(old(index).macros), p), macro_scan(t, p, 0))
                } else {
                    macros_not_from(macro_map(old(index).macros), p)
                })
                &&& (r matches Ok(s) && (if kind == FileKind::Tex {
                    lists_file_labels(s.labels@, label_map(final(index).labels), p)
                        && lists_file_macros(s.macros@, macro_map(final(index).macros), p)
                } else {
                    s.labels@.len() == 0 && s.macros@.len() == 0
                }))
            },
        },
{
    let path = match normalise_uri(uri, windows) {
        Some(p) => p,
        None => return Err(UpdateError::BadUri),
    };
    buffers.put(uri.to_owned(), text.to_owned());
    proof {
        lemma_not_from_twice(label_map(index.labels), bib_map(index.bib), macro_map(index.macros), path@);
    }
    index.remove_file(path.as_str());
    index_file(index, path.as_str(), uri, text);
    match crate::workspace::file_kind(uri) {
        FileKind::Tex => {
            let labels = file_labels(index, path.as_str());
            let macros = file_macros(index, path.as_str());
            Ok(FileSummary { labels, macros })
        },
        _ => Ok(FileSummary { labels: Vec::new(), macros: Vec::new() }),
    }
}

/// Close the document `uri`: its buffer is forgotten and, when the URI
/// names a path, everything indexed from that path is dropped.
pub fn close_file(index: &mut Index, buffers: &mut BufferStore, uri: &str, windows: bool)
    requires
        old(index).wf(),
        old(buffers).wf(),
    ensures
        final(index).wf(),
        final(buffers).wf(),
        final(buffers)@ == old(buffers)@.remove(uri@),
        match uri_path(uri@, windows) {
            None => *final(index) == *old(index),
            Some(p) => label_map(final(index).labels) == labels_not_from(label_map(old(index).labels), p)
                && bib_map(final(index).bib) == bibs_not_from(bib_map(old(index).bib), p)
                && macro_map(final(index).macros) == macros_not_from(macro_map(old(index).macros), p),
        },
{
    buffers.close(uri);
    match normalise_uri(uri, windows) {
        Some(path) => index.remove_file(path.as_str()),
        None => {},
    }
}

} // verus!
