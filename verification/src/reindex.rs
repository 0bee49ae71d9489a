//! What indexing a file does to the index, stated once for all files: the
//! file's labels, macros and bibliography entries replace those it gave
//! before, the other files' entries stay, and indexing the same text twice
//! changes nothing more than indexing it once.
use vstd::prelude::*;
use crate::index::{LabelView, MacroView, BibView, LabelsView, MacrosView, BibsView, labels_not_from, macros_not_from, bibs_not_from};
use crate::paths::same_file;
use crate::labels::{label_scan, insert_labels, label_entry_ok, lemma_label_scan_ok};
use crate::macros::{macro_scan, insert_macros};
use crate::bibtex::{bib_scan, insert_bibs, entry_at};

verus! {

// ── labels ─────────────────────────────────────────────────────────────

/// The last label of `es` with key `k`, if any.
pub open spec fn last_label(es: Seq<LabelView>, k: Seq<char>) -> Option<LabelView>
    decreases es.len(),
{
    if es.len() == 0 {
        None
    } else if es.last().key == k {
        Some(es.last())
    } else {
        last_label(es.drop_last(), k)
    }
}

/// Inserting `es` in order: a key names the last entry of `es` under it,
/// failing that what it named in `m`.
pub proof fn lemma_insert_labels_at(m: LabelsView, es: Seq<LabelView>, k: Seq<char>)
    ensures
        match last_label(es, k) {
            Some(v) => insert_labels(m, es).contains_key(k) && insert_labels(m, es)[k] == v,
            None => insert_labels(m, es).contains_key(k) == m.contains_key(k)
                && (m.contains_key(k) ==> insert_labels(m, es)[k] == m[k]),
        },
    decreases es.len(),
{
    if es.len() > 0 {
        lemma_insert_labels_at(m, es.drop_last(), k);
    }
}

/// Labels all from `path` have their last occurrences from `path` too.
proof fn lemma_last_label_file(es: Seq<LabelView>, k: Seq<char>, path: Seq<char>)
    requires
        forall|j: int| 0 <= j < es.len() ==> (#[trigger] es[j]).file == path,
    ensures
        last_label(es, k) matches Some(v) ==> v.file == path && v.key == k,
    decreases es.len(),
{
    if es.len() > 0 {
        assert(es.last() == es[es.len() - 1]);
        assert forall|j: int| 0 <= j < es.drop_last().len() implies (#[trigger] es.drop_last()[j]).file == path by {
            assert(es.drop_last()[j] == es[j]);
        }
        lemma_last_label_file(es.drop_last(), k, path);
    }
}

/// Indexing the labels of the file at `path` (with bytes `t`) replaces
/// that file's labels: afterwards a key names the last label the file
/// defines under it; failing that, the label that another file gave it
/// before; otherwise nothing.
pub proof fn law_label_reindex(old_map: LabelsView, t: Seq<u8>, path: Seq<char>, k: Seq<char>)
    ensures
        ({
            let es = label_scan(t, path, 0, Seq::empty());
            let new_map = insert_labels(labels_not_from(old_map, path), es);
            match last_label(es, k) {
                Some(v) => new_map.contains_key(k) && new_map[k] == v && v.file == path,
                None => if old_map.contains_key(k) && !same_file(old_map[k].file, path) {
                    new_map.contains_key(k) && new_map[k] == old_map[k]
                } else {
                    !new_map.contains_key(k)
                },
            }
        }),
{
    let es = label_scan(t, path, 0, Seq::empty());
    lemma_label_scan_ok(t, path, 0, Seq::empty());
    lemma_last_label_file(es, k, path);
    lemma_insert_labels_at(labels_not_from(old_map, path), es, k);
}

/// Labels that all satisfy `label_entry_ok` have their last occurrence
/// under `k` satisfy it too, filed under `k`.
proof fn lemma_last_label_ok(es: Seq<LabelView>, k: Seq<char>, t: Seq<u8>, path: Seq<char>)
    requires
        forall|j: int| 0 <= j < es.len() ==> label_entry_ok(t, path, #[trigger] es[j]),
    ensures
        last_label(es, k) matches Some(v) ==> label_entry_ok(t, path, v) && v.key == k,
    decreases es.len(),
{
    if es.len() > 0 {
        assert(es.last() == es[es.len() - 1]);
        assert forall|j: int| 0 <= j < es.drop_last().len() implies label_entry_ok(t, path, #[trigger] es.drop_last()[j]) by {
            assert(es.drop_last()[j] == es[j]);
        }
        lemma_last_label_ok(es.drop_last(), k, t, path);
    }
}

/// After the labels of the file at `path` (bytes `t`) are indexed, every
/// label the index attributes to that file is filed under its own key,
/// which is non-empty and trimmed; its offset is where `\label` is
/// spelled, and its line is the number of line breaks before that offset.
pub proof fn law_indexed_labels_well_formed(old_map: LabelsView, t: Seq<u8>, path: Seq<char>, k: Seq<char>)
    ensures
        ({
            let new_map = insert_labels(labels_not_from(old_map, path), label_scan(t, path, 0, Seq::empty()));
            new_map.contains_key(k) && same_file(new_map[k].file, path) ==> new_map[k].key == k && label_entry_ok(t, path, new_map[k])
        }),
{
    let es = label_scan(t, path, 0, Seq::empty());
    lemma_label_scan_ok(t, path, 0, Seq::empty());
    lemma_last_label_ok(es, k, t, path);
    lemma_insert_labels_at(labels_not_from(old_map, path), es, k);
}

/// Indexing the labels of the same text twice leaves the label map as
/// indexing it once does.
pub proof fn law_label_reindex_idempotent(old_map: LabelsView, t: Seq<u8>, path: Seq<char>)
    ensures
        ({
            let es = label_scan(t, path, 0, Seq::empty());
            let once = insert_labels(labels_not_from(old_map, path), es);
            insert_labels(labels_not_from(once, path), es) == once
        }),
{
    let es = label_scan(t, path, 0, Seq::empty());
    let once = insert_labels(labels_not_from(old_map, path), es);
    let twice = insert_labels(labels_not_from(once, path), es);
    lemma_label_scan_ok(t, path, 0, Seq::empty());
    assert forall|k: Seq<char>| #[trigger] twice.dom().contains(k) == once.dom().contains(k)
        && (once.dom().contains(k) ==> twice[k] == once[k]) by {
        lemma_last_label_file(es, k, path);
        lemma_insert_labels_at(labels_not_from(old_map, path), es, k);
        lemma_insert_labels_at(labels_not_from(once, path), es, k);
    }
    assert(twice.dom() =~= once.dom());
    assert(twice =~= once);
}

// ── macros ─────────────────────────────────────────────────────────────

/// The first definition of `ds` named `k`, if any.
pub open spec fn first_macro(ds: Seq<MacroView>, k: Seq<char>) -> Option<MacroView>
    decreases ds.len(),
{
    if ds.len() == 0 {
        None
    } else {
        match first_macro(ds.drop_last(), k) {
            Some(v) => Some(v),
            None => if ds.last().name == k {
                Some(ds.last())
            } else {
                None
            },
        }
    }
}

/// Every definition a scan records carries the scanned file's path.
pub proof fn lemma_macro_scan_file(t: Seq<u8>, path: Seq<char>, i: int)
    ensures
        forall|j: int| 0 <= j < macro_scan(t, path, i).len() ==> (#[trigger] macro_scan(t, path, i)[j]).file == path,
    decreases t.len() - i,
{
    if !(i < 0 || i >= t.len()) {
        match crate::macros::macro_site(t, i) {
            Some((k, ns, ne, n, bo)) => match crate::text::braced(t, bo) {
                Some((a, b, e)) => if !(e <= i || e > t.len()) {
                    lemma_macro_scan_file(t, path, e);
                    let rest = macro_scan(t, path, e);
                    let head = MacroView { name: vstd::utf8::decode_utf8(t.subrange(ns, ne)), file: path, body: crate::macros::macro_body(t, k, a, b), arity: n };
                    assert(macro_scan(t, path, i) == seq![head] + rest);
                    assert forall|j: int| 0 <= j < macro_scan(t, path, i).len() implies (#[trigger] macro_scan(t, path, i)[j]).file == path by {
                        if j > 0 {
                            assert(macro_scan(t, path, i)[j] == rest[j - 1]);
                        } else {
                            assert(macro_scan(t, path, i)[j] == head);
                        }
                    }
                } else {
                    assert(macro_scan(t, path, i).len() == 0);
                },
                None => {
                    lemma_macro_scan_file(t, path, i + 1);
                    assert(macro_scan(t, path, i) == macro_scan(t, path, i + 1));
                },
            },
            None => {
                lemma_macro_scan_file(t, path, i + 1);
                assert(macro_scan(t, path, i) == macro_scan(t, path, i + 1));
            },
        }
    }
}

/// Adding `ds` in order: a name `m` holds keeps its definition; any
/// other name gets the first definition of `ds` under it, if any.
pub proof fn lemma_insert_macros_at(m: MacrosView, ds: Seq<MacroView>, k: Seq<char>)
    ensures
        m.contains_key(k) ==> insert_macros(m, ds).contains_key(k) && insert_macros(m, ds)[k] == m[k],
        !m.contains_key(k) ==> match first_macro(ds, k) {
            Some(v) => insert_macros(m, ds).contains_key(k) && insert_macros(m, ds)[k] == v,
            None => !insert_macros(m, ds).contains_key(k),
        },
    decreases ds.len(),
{
    if ds.len() > 0 {
        lemma_insert_macros_at(m, ds.drop_last(), k);
    }
}

/// Definitions all from `path` have their first occurrences from `path` too.
proof fn lemma_first_macro_file(ds: Seq<MacroView>, k: Seq<char>, path: Seq<char>)
    requires
        forall|j: int| 0 <= j < ds.len() ==> (#[trigger] ds[j]).file == path,
    ensures
        first_macro(ds, k) matches Some(v) ==> v.file == path && v.name == k,
    decreases ds.len(),
{
    if ds.len() > 0 {
        assert(ds.last() == ds[ds.len() - 1]);
        assert forall|j: int| 0 <= j < ds.drop_last().len() implies (#[trigger] ds.drop_last()[j]).file == path by {
            assert(ds.drop_last()[j] == ds[j]);
        }
        lemma_first_macro_file(ds.drop_last(), k, path);
    }
}

/// Indexing the macros of the file at `path` (with bytes `t`) replaces
/// that file's macros, the first definition of a name winning: afterwards
/// a name another file defined keeps that definition; otherwise it names
/// the first definition the file gives it, or nothing.
pub proof fn law_macro_reindex(old_map: MacrosView, t: Seq<u8>, path: Seq<char>, k: Seq<char>)
    ensures
        ({
            let ds = macro_scan(t, path, 0);
            let new_map = insert_macros(macros_not_from(old_map, path), ds);
            if old_map.contains_key(k) && !same_file(old_map[k].file, path) {
                new_map.contains_key(k) && new_map[k] == old_map[k]
            } else {
                match first_macro(ds, k) {
                    Some(v) => new_map.contains_key(k) && new_map[k] == v && v.file == path,
                    None => !new_map.contains_key(k),
                }
            }
        }),
{
    let ds = macro_scan(t, path, 0);
    lemma_macro_scan_file(t, path, 0);
    lemma_first_macro_file(ds, k, path);
    lemma_insert_macros_at(macros_not_from(old_map, path), ds, k);
}

/// Indexing the macros of the same text twice leaves the macro map as
/// indexing it once does.
pub proof fn law_macro_reindex_idempotent(old_map: MacrosView, t: Seq<u8>, path: Seq<char>)
    ensures
        ({
            let ds = macro_scan(t, path, 0);
            let once = insert_macros(macros_not_from(old_map, path), ds);
            insert_macros(macros_not_from(once, path), ds) == once
        }),
{
    let ds = macro_scan(t, path, 0);
    let once = insert_macros(macros_not_from(old_map, path), ds);
    let twice = insert_macros(macros_not_from(once, path), ds);
    lemma_macro_scan_file(t, path, 0);
    assert forall|k: Seq<char>| #[trigger] twice.dom().contains(k) == once.dom().contains(k)
        && (once.dom().contains(k) ==> twice[k] == once[k]) by {
        lemma_first_macro_file(ds, k, path);
        lemma_insert_macros_at(macros_not_from(old_map, path), ds, k);
        lemma_insert_macros_at(macros_not_from(once, path), ds, k);
    }
    assert(twice.dom() =~= once.dom());
    assert(twice =~= once);
}

// ── bibliography ───────────────────────────────────────────────────────

/// The last entry of `es` with key `k`, if any.
pub open spec fn last_bib(es: Seq<BibView>, k: Seq<char>) -> Option<BibView>
    decreases es.len(),
{
    if es.len() == 0 {
        None
    } else if es.last().key == k {
        Some(es.last())
    } else {
        last_bib(es.drop_last(), k)
    }
}

/// Every entry a scan records carries the scanned file's path.
pub proof fn lemma_bib_scan_file(t: Seq<u8>, path: Seq<char>, i: int, strs: Map<Seq<char>, Seq<char>>)
    ensures
        forall|j: int| 0 <= j < bib_scan(t, path, i, strs).len() ==> (#[trigger] bib_scan(t, path, i, strs)[j]).file == path,
    decreases t.len() + 1 - i,
{
    if !(i < 0 || i >= t.len()) {
        let (e, nx) = if t[i] == 37 {
            (None, crate::text::eol_after(t, i + 1))
        } else if t[i] != 64 {
            (None, i + 1)
        } else {
            entry_at(t, path, i, strs)
        };
        if !(nx <= i || nx > t.len() + 1) {
            lemma_bib_scan_file(t, path, nx, strs);
            let rest = bib_scan(t, path, nx, strs);
            match e {
                Some(v) => {
                    assert(v.file == path);
                    assert forall|j: int| 0 <= j < bib_scan(t, path, i, strs).len() implies (#[trigger] bib_scan(t, path, i, strs)[j]).file == path by {
                        if j > 0 {
                            assert(bib_scan(t, path, i, strs)[j] == rest[j - 1]);
                        }
                    }
                },
                None => {},
            }
        }
    }
}

/// Inserting `es` in order: a key names the last entry of `es` under it,
/// failing that what it named in `m`.
pub proof fn lemma_insert_bibs_at(m: BibsView, es: Seq<BibView>, k: Seq<char>)
    ensures
        match last_bib(es, k) {
            Some(v) => insert_bibs(m, es).contains_key(k) && insert_bibs(m, es)[k] == v,
            None => insert_bibs(m, es).contains_key(k) == m.contains_key(k)
                && (m.contains_key(k) ==> insert_bibs(m, es)[k] == m[k]),
        },
    decreases es.len(),
{
    if es.len() > 0 {
        lemma_insert_bibs_at(m, es.drop_last(), k);
    }
}

/// Entries all from `path` have their last occurrences from `path` too.
proof fn lemma_last_bib_file(es: Seq<BibView>, k: Seq<char>, path: Seq<char>)
    requires
        forall|j: int| 0 <= j < es.len() ==> (#[trigger] es[j]).file == path,
    ensures
        last_bib(es, k) matches Some(v) ==> v.file == path && v.key == k,
    decreases es.len(),
{
    if es.len() > 0 {
        assert(es.last() == es[es.len() - 1]);
        assert forall|j: int| 0 <= j < es.drop_last().len() implies (#[trigger] es.drop_last()[j]).file == path by {
            assert(es.drop_last()[j] == es[j]);
        }
        lemma_last_bib_file(es.drop_last(), k, path);
    }
}

/// Indexing the `.bib` file at `path` (with bytes `t`) replaces that
/// file's entries: afterwards a key names the last entry the file gives
/// it; failing that, the one another file gave it before; otherwise
/// nothing.
pub proof fn law_bib_reindex(old_map: BibsView, t: Seq<u8>, path: Seq<char>, k: Seq<char>)
    ensures
        ({
            let es = bib_scan(t, path, 0, crate::bibtex::strings_of(t));
            let new_map = insert_bibs(bibs_not_from(old_map, path), es);
            match last_bib(es, k) {
                Some(v) => new_map.contains_key(k) && new_map[k] == v && v.file == path,
                None => if old_map.contains_key(k) && !same_file(old_map[k].file, path) {
                    new_map.contains_key(k) && new_map[k] == old_map[k]
                } else {
                    !new_map.contains_key(k)
                },
            }
        }),
{
    let es = bib_scan(t, path, 0, crate::bibtex::strings_of(t));
    lemma_bib_scan_file(t, path, 0, crate::bibtex::strings_of(t));
    lemma_last_bib_file(es, k, path);
    lemma_insert_bibs_at(bibs_not_from(old_map, path), es, k);
}

/// Indexing the same `.bib` text twice leaves the bibliography map as
/// indexing it once does.
pub proof fn law_bib_reindex_idempotent(old_map: BibsView, t: Seq<u8>, path: Seq<char>)
    ensures
        ({
            let es = bib_scan(t, path, 0, crate::bibtex::strings_of(t));
            let once = insert_bibs(bibs_not_from(old_map, path), es);
            insert_bibs(bibs_not_from(once, path), es) == once
        }),
{
    let es = bib_scan(t, path, 0, crate::bibtex::strings_of(t));
    let once = insert_bibs(bibs_not_from(old_map, path), es);
    let twice = insert_bibs(bibs_not_from(once, path), es);
    lemma_bib_scan_file(t, path, 0, crate::bibtex::strings_of(t));
    assert forall|k: Seq<char>| #[trigger] twice.dom().contains(k) == once.dom().contains(k)
        && (once.dom().contains(k) ==> twice[k] == once[k]) by {
        lemma_last_bib_file(es, k, path);
        lemma_insert_bibs_at(bibs_not_from(old_map, path), es, k);
        lemma_insert_bibs_at(bibs_not_from(once, path), es, k);
    }
    assert(twice.dom() =~= once.dom());
    assert(twice =~= once);
}

// ── forgetting a file ──────────────────────────────────────────────────

/// Forgetting the file `file` (what `Index::remove_file` does to each map)
/// drops exactly the entries that came from it: an entry stays, unchanged,
/// if and only if it came from another file.
pub proof fn law_remove_file(labels: LabelsView, bibs: BibsView, macros: MacrosView, file: Seq<char>)
    ensures
        forall|k: Seq<char>| #[trigger] labels_not_from(labels, file).contains_key(k)
            <==> labels.contains_key(k) && !same_file(labels[k].file, file),
        forall|k: Seq<char>| #[trigger] labels_not_from(labels, file).contains_key(k)
            ==> labels_not_from(labels, file)[k] == labels[k],
        forall|k: Seq<char>| #[trigger] bibs_not_from(bibs, file).contains_key(k)
            <==> bibs.contains_key(k) && !same_file(bibs[k].file, file),
        forall|k: Seq<char>| #[trigger] bibs_not_from(bibs, file).contains_key(k)
            ==> bibs_not_from(bibs, file)[k] == bibs[k],
        forall|k: Seq<char>| #[trigger] macros_not_from(macros, file).contains_key(k)
            <==> macros.contains_key(k) && !same_file(macros[k].file, file),
        forall|k: Seq<char>| #[trigger] macros_not_from(macros, file).contains_key(k)
            ==> macros_not_from(macros, file)[k] == macros[k],
{
}

} // verus!
