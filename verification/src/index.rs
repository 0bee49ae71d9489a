//! In-memory indexes of labels, bibliography entries and macros, keyed by
//! label key, citation key and macro name.
//!
//! The three maps are `dashmap::DashMap`s.  What each holds is named
//! (`label_map`, `bib_map`, `macro_map`: key to entry), and every map
//! operation the library performs goes through one of the functions below,
//! which state what it does to that content.
use vstd::prelude::*;
use dashmap::DashMap;
use std::hash::RandomState;
use crate::sorted_map::SortedMap;
use crate::paths::{same_file, same_path};
use vstd::string::StringSliceAdditionalSpecFns;

verus! {

#[verifier::external_type_specification]
#[verifier::external_body]
#[verifier::reject_recursive_types(K)]
#[verifier::reject_recursive_types(V)]
#[verifier::reject_recursive_types(S)]
pub struct ExDashMap<K, V, S>(DashMap<K, V, S>);

/// A `\ref{…}` target: a `\label{…}` site in some file.
#[derive(Clone, Debug)]
pub struct LabelEntry {
    pub key: String,
    /// Path of the file containing the `\label{…}`.
    pub file: String,
    /// Byte offset of the `\label` command.
    pub offset: usize,
    /// 0-based line of the label.
    pub line: u32,
    /// Enclosing environment name: `equation`, `theorem`, `section`, …
    pub env: String,
    /// Byte range of the math body, when the label is inside a math env.
    pub math: Option<[usize; 2]>,
    /// Best-effort human caption (first line of a theorem body, a section title).
    pub caption: String,
    /// Source snippet around the label, pre-formatted for hover.
    pub snippet: String,
}

/// What a label entry says, as mathematical values.
pub struct LabelView {
    pub key: Seq<char>,
    pub file: Seq<char>,
    pub offset: int,
    pub line: int,
    pub env: Seq<char>,
    pub math: Option<(int, int)>,
    pub caption: Seq<char>,
    pub snippet: Seq<char>,
}

pub open spec fn label_view(e: LabelEntry) -> LabelView {
    LabelView {
        key: e.key@,
        file: e.file@,
        offset: e.offset as int,
        line: e.line as int,
        env: e.env@,
        math: match e.math {
            Some(r) => Some((r[0] as int, r[1] as int)),
            None => None,
        },
        caption: e.caption@,
        snippet: e.snippet@,
    }
}

/// A BibTeX entry (`@article`, `@book`, …).
#[derive(Clone, Debug)]
pub struct BibEntry {
    pub key: String,
    pub file: String,
    /// Byte offset of the entry's `@`.
    pub offset: usize,
    /// Fields by lower-cased name, in name order.
    pub fields: SortedMap<String>,
    /// Entry type name, lower-cased: `article`, `book`, …
    pub entry_type: String,
}

/// What a BibTeX entry says, as mathematical values.
pub struct BibView {
    pub key: Seq<char>,
    pub file: Seq<char>,
    pub offset: int,
    pub fields: Map<Seq<char>, Seq<char>>,
    /// The field list is in strictly ascending name order.
    pub ordered: bool,
    pub entry_type: Seq<char>,
}

pub open spec fn field_values(m: Map<Seq<char>, String>) -> Map<Seq<char>, Seq<char>> {
    m.map_values(|v: String| v@)
}

pub open spec fn bib_view(e: BibEntry) -> BibView {
    BibView {
        key: e.key@,
        file: e.file@,
        offset: e.offset as int,
        fields: field_values(e.fields.as_map()),
        ordered: e.fields.wf(),
        entry_type: e.entry_type@,
    }
}

/// A user-defined macro.
#[derive(Clone, Debug)]
pub struct MacroDef {
    pub name: String,
    /// File the macro was defined in.
    pub file: String,
    pub body: String,
    pub arity: u32,
}

/// What a macro definition says, as mathematical values.
pub struct MacroView {
    pub name: Seq<char>,
    pub file: Seq<char>,
    pub body: Seq<char>,
    pub arity: int,
}

pub open spec fn macro_view(d: MacroDef) -> MacroView {
    MacroView { name: d.name@, file: d.file@, body: d.body@, arity: d.arity as int }
}

// ── the three DashMaps ─────────────────────────────────────────────────

pub type LabelsView = Map<Seq<char>, LabelView>;
pub type BibsView = Map<Seq<char>, BibView>;
pub type MacrosView = Map<Seq<char>, MacroView>;

/// What a label map holds: label key → entry.
pub uninterp spec fn label_map(m: DashMap<String, LabelEntry>) -> LabelsView;

/// What a bibliography map holds: citation key → entry.
pub uninterp spec fn bib_map(m: DashMap<String, BibEntry>) -> BibsView;

/// What a macro map holds: macro name → definition.
pub uninterp spec fn macro_map(m: DashMap<String, MacroDef>) -> MacrosView;

/// `DashMap::new`: an empty map.
#[verifier::external_body]
fn new_label_map() -> (r: DashMap<String, LabelEntry>)
    ensures
        label_map(r) == LabelsView::empty(),
{
    DashMap::new()
}

/// `DashMap::new`: an empty map.
#[verifier::external_body]
fn new_bib_map() -> (r: DashMap<String, BibEntry>)
    ensures
        bib_map(r) == BibsView::empty(),
{
    DashMap::new()
}

/// `DashMap::new`: an empty map.
#[verifier::external_body]
fn new_macro_map() -> (r: DashMap<String, MacroDef>)
    ensures
        macro_map(r) == MacrosView::empty(),
{
    DashMap::new()
}

/// The labels of `m` that do not come from `file`.
pub open spec fn labels_not_from(m: LabelsView, file: Seq<char>) -> LabelsView {
    m.restrict(m.dom().filter(|k: Seq<char>| !same_file(m[k].file, file)))
}

/// The bibliography entries of `m` that do not come from `file`.
pub open spec fn bibs_not_from(m: BibsView, file: Seq<char>) -> BibsView {
    m.restrict(m.dom().filter(|k: Seq<char>| !same_file(m[k].file, file)))
}

/// The macros of `m` that do not come from `file`.
pub open spec fn macros_not_from(m: MacrosView, file: Seq<char>) -> MacrosView {
    m.restrict(m.dom().filter(|k: Seq<char>| !same_file(m[k].file, file)))
}

/// Whether a label comes from a file other than `file`.
pub fn label_from_other_file(v: &LabelEntry, file: &str) -> (r: bool)
    ensures
        r == !same_file(v.file@, file@),
{
    !same_path(v.file.as_str(), file)
}

/// Whether a bibliography entry comes from a file other than `file`.
pub fn bib_from_other_file(v: &BibEntry, file: &str) -> (r: bool)
    ensures
        r == !same_file(v.file@, file@),
{
    !same_path(v.file.as_str(), file)
}

/// Whether a macro comes from a file other than `file`.
pub fn macro_from_other_file(v: &MacroDef, file: &str) -> (r: bool)
    ensures
        r == !same_file(v.file@, file@),
{
    !same_path(v.file.as_str(), file)
}

/// `DashMap::insert` on a label map: `key` now maps to `value`.
#[verifier::external_body]
pub(crate) fn insert_label(m: &mut DashMap<String, LabelEntry>, key: String, value: LabelEntry)
    ensures
        label_map(*final(m)) == label_map(*old(m)).insert(key@, label_view(value)),
{
    m.insert(key, value);
}

/// `DashMap::insert` on a bibliography map: `key` now maps to `value`.
#[verifier::external_body]
pub(crate) fn insert_bib(m: &mut DashMap<String, BibEntry>, key: String, value: BibEntry)
    ensures
        bib_map(*final(m)) == bib_map(*old(m)).insert(key@, bib_view(value)),
{
    m.insert(key, value);
}

/// `DashMap::insert` on a macro map: `key` now maps to `value`.
#[verifier::external_body]
pub(crate) fn insert_macro(m: &mut DashMap<String, MacroDef>, key: String, value: MacroDef)
    ensures
        macro_map(*final(m)) == macro_map(*old(m)).insert(key@, macro_view(value)),
{
    m.insert(key, value);
}

/// `DashMap::contains_key` on a macro map: whether `key` is a name in it.
#[verifier::external_body]
pub(crate) fn contains_macro(m: &DashMap<String, MacroDef>, key: &str) -> (r: bool)
    ensures
        r == macro_map(*m).contains_key(key@),
{
    m.contains_key(key)
}

/// `DashMap::retain` on a label map, keeping the labels of other files.
#[verifier::external_body]
pub(crate) fn retain_labels_not_from(m: &mut DashMap<String, LabelEntry>, file: &str)
    ensures
        label_map(*final(m)) == labels_not_from(label_map(*old(m)), file@),
{
    m.retain(|_, v| label_from_other_file(v, file));
}

/// `DashMap::retain` on a bibliography map, keeping the entries of other files.
#[verifier::external_body]
pub(crate) fn retain_bibs_not_from(m: &mut DashMap<String, BibEntry>, file: &str)
    ensures
        bib_map(*final(m)) == bibs_not_from(bib_map(*old(m)), file@),
{
    m.retain(|_, v| bib_from_other_file(v, file));
}

/// `DashMap::retain` on a macro map, keeping the macros of other files.
#[verifier::external_body]
pub(crate) fn retain_macros_not_from(m: &mut DashMap<String, MacroDef>, file: &str)
    ensures
        macro_map(*final(m)) == macros_not_from(macro_map(*old(m)), file@),
{
    m.retain(|_, v| macro_from_other_file(v, file));
}

/// `DashMap::get` on a label map, the entry copied out.
#[verifier::external_body]
pub(crate) fn get_label(m: &DashMap<String, LabelEntry>, key: &str) -> (r: Option<LabelEntry>)
    ensures
        match r {
            Some(e) => label_map(*m).contains_key(key@) && label_view(e) == label_map(*m)[key@],
            None => !label_map(*m).contains_key(key@),
        },
{
    m.get(key).map(|e| e.value().clone())
}

/// `DashMap::get` on a bibliography map, the entry copied out.
#[verifier::external_body]
pub(crate) fn get_bib(m: &DashMap<String, BibEntry>, key: &str) -> (r: Option<BibEntry>)
    ensures
        match r {
            Some(e) => bib_map(*m).contains_key(key@) && bib_view(e) == bib_map(*m)[key@],
            None => !bib_map(*m).contains_key(key@),
        },
{
    m.get(key).map(|e| e.value().clone())
}

/// `DashMap::iter` on a macro map, each entry turned into its name, body,
/// argument count and file.  Every entry comes out exactly once; the order
/// (which follows the map's hashing) is not stated.
#[verifier::external_body]
pub(crate) fn macro_entries(m: &DashMap<String, MacroDef>) -> (r: Vec<(String, String, u32, String)>)
    ensures
        forall|j: int| 0 <= j < r@.len() ==> #[trigger] macro_map(*m).contains_key(r@[j].0@)
            && macro_map(*m)[r@[j].0@].body == r@[j].1@ && macro_map(*m)[r@[j].0@].arity == r@[j].2 as int
            && macro_map(*m)[r@[j].0@].file == r@[j].3@,
        forall|k: Seq<char>| #[trigger] macro_map(*m).contains_key(k) ==> exists|j: int| 0 <= j < r@.len() && r@[j].0@ == k,
        forall|i: int, j: int| 0 <= i < j < r@.len() ==> #[trigger] r@[i].0@ != #[trigger] r@[j].0@,
{
    m.iter().map(|e| (e.key().clone(), e.value().body.clone(), e.value().arity, e.value().file.clone())).collect()
}

/// `DashMap::iter` on a label map, each entry turned into its key, line,
/// environment and file.  Every entry comes out exactly once; the order
/// (which follows the map's hashing) is not stated.
#[verifier::external_body]
pub(crate) fn label_entries(m: &DashMap<String, LabelEntry>) -> (r: Vec<(String, u32, String, String)>)
    ensures
        forall|j: int| 0 <= j < r@.len() ==> #[trigger] label_map(*m).contains_key(r@[j].0@)
            && label_map(*m)[r@[j].0@].line == r@[j].1 as int && label_map(*m)[r@[j].0@].env == r@[j].2@
            && label_map(*m)[r@[j].0@].file == r@[j].3@,
        forall|k: Seq<char>| #[trigger] label_map(*m).contains_key(k) ==> exists|j: int| 0 <= j < r@.len() && r@[j].0@ == k,
        forall|i: int, j: int| 0 <= i < j < r@.len() ==> #[trigger] r@[i].0@ != #[trigger] r@[j].0@,
{
    m.iter().map(|e| (e.key().clone(), e.value().line, e.value().env.clone(), e.value().file.clone())).collect()
}

/// All three indexes held together.
pub struct Index {
    pub labels: DashMap<String, LabelEntry>,
    pub bib: DashMap<String, BibEntry>,
    pub macros: DashMap<String, MacroDef>,
}

/// Every bibliography entry keeps its fields in ascending name order.
pub open spec fn bibs_ordered(m: BibsView) -> bool {
    forall|k: Seq<char>| #[trigger] m.dom().contains(k) ==> m[k].ordered
}

impl Index {
    /// The invariant the library keeps: bibliography fields are ordered.
    pub open spec fn wf(&self) -> bool {
        bibs_ordered(bib_map(self.bib))
    }

    pub fn new() -> (r: Self)
        ensures
            r.wf(),
            label_map(r.labels) == LabelsView::empty(),
            bib_map(r.bib) == BibsView::empty(),
            macro_map(r.macros) == MacrosView::empty(),
    {
        Index { labels: new_label_map(), bib: new_bib_map(), macros: new_macro_map() }
    }

    /// The bibliography entry with citation key `key`, if any.
    pub fn bib_entry(&self, key: &str) -> (r: Option<BibEntry>)
        ensures
            match r {
                Some(e) => bib_map(self.bib).contains_key(key@) && bib_view(e) == bib_map(self.bib)[key@],
                None => !bib_map(self.bib).contains_key(key@),
            },
    {
        get_bib(&self.bib, key)
    }

    /// The label with key `key`, if any.
    pub fn label_entry(&self, key: &str) -> (r: Option<LabelEntry>)
        ensures
            match r {
                Some(e) => label_map(self.labels).contains_key(key@) && label_view(e) == label_map(self.labels)[key@],
                None => !label_map(self.labels).contains_key(key@),
            },
    {
        get_label(&self.labels, key)
    }

    /// Drop everything that came from `file`.
    pub fn remove_file(&mut self, file: &str)
        requires
            old(self).wf(),
        ensures
            final(self).wf(),
            label_map(final(self).labels) == labels_not_from(label_map(old(self).labels), file@),
            bib_map(final(self).bib) == bibs_not_from(bib_map(old(self).bib), file@),
            macro_map(final(self).macros) == macros_not_from(macro_map(old(self).macros), file@),
    {
        retain_labels_not_from(&mut self.labels, file);
        retain_bibs_not_from(&mut self.bib, file);
        retain_macros_not_from(&mut self.macros, file);
    }
}

} // verus!
