//! The decisions behind the workspace file watcher: which changed files are
//! re-read, and what re-reading one does to the index.  Watching, debouncing
//! and reading files are left to the program around the library.
use vstd::prelude::*;
use vstd::string::StringSliceAdditionalSpecFns;
use crate::index::{Index, label_map, bib_map, labels_not_from, bibs_not_from};
use crate::workspace::{FileKind, kind_of, file_kind, has_skipped_ancestor, spec_skip_dirs};
use crate::labels::{label_scan, insert_labels, extract_labels};
use crate::bibtex::{bib_scan, insert_bibs, strings_of, parse_bibtex};
use crate::text::is_one_of;
use crate::snippet::newlines;

verus! {

/// Whether a change to the file named `name`, whose ancestor directories
/// are named `ancestors`, is picked up: a `.tex` or `.bib` file (ASCII
/// case-insensitively) under no noise directory.
pub fn event_wanted(name: &str, ancestors: &[&str]) -> (r: bool)
    ensures
        r == (kind_of(name@) != FileKind::Other
            && !exists|k: int| 0 <= k < ancestors@.len() && is_one_of(#[trigger] ancestors@[k].spec_bytes(), spec_skip_dirs())),
{
    match file_kind(name) {
        FileKind::Other => false,
        _ => !has_skipped_ancestor(ancestors),
    }
}

/// React to a change of the file at `path`, named `name`, whose ancestor
/// directories are named `ancestors`: a change that `event_wanted` refuses,
/// or a file that could not be read (`text` is `None`), leaves the index as
/// it was; otherwise a `.bib` file's entries or a `.tex` file's labels are
/// re-indexed from the new contents, and nothing else changes.
pub fn handle_event(index: &mut Index, path: &str, name: &str, ancestors: &[&str], text: Option<&str>)
    requires
        old(index).wf(),
        text matches Some(t) ==> newlines(t.spec_bytes()) <= u32::MAX && t.spec_bytes().len() <= isize::MAX,
    ensures
        final(index).wf(),
        ({
            let wanted = kind_of(name@) != FileKind::Other
                && !exists|k: int| 0 <= k < ancestors@.len() && is_one_of(#[trigger] ancestors@[k].spec_bytes(), spec_skip_dirs());
            if wanted && text is Some {
                let t = text->0;
                &&& final(index).macros == old(index).macros
                &&& kind_of(name@) == FileKind::Bib ==> final(index).labels == old(index).labels
                    && bib_map(final(index).bib) == insert_bibs(bibs_not_from(bib_map(old(index).bib), path@),
                        bib_scan(t.spec_bytes(), path@, 0, strings_of(t.spec_bytes())))
                &&& kind_of(name@) == FileKind::Tex ==> final(index).bib == old(index).bib
                    && label_map(final(index).labels) == insert_labels(labels_not_from(label_map(old(index).labels), path@),
                        label_scan(t.spec_bytes(), path@, 0, Seq::empty()))
            } else {
                *final(index) == *old(index)
            }
        }),
{
    if !event_wanted(name, ancestors) {
        return;
    }
    let t = match text {
        Some(t) => t,
        None => return,
    };
    match file_kind(name) {
        FileKind::Bib => parse_bibtex(t, path, index),
        FileKind::Tex => extract_labels(t, path, index),
        FileKind::Other => {},
    }
}

} // verus!
