//! Macro expansion for formula previews: user macros (from the workspace
//! index and the open document) substituted into a formula's source.
use vstd::prelude::*;
use vstd::string::{StringSliceAdditionalSpecFns, StringExecFns};
use dashmap::DashMap;
use crate::chars::{chars_of, string_of, string_of_all};
use crate::hover::{decimal, decimal_string};
use crate::sorted_map::SortedMap;
use crate::index::{Index, MacroDef, MacroView, MacrosView, macro_map, macro_entries};
use crate::macros::{collect_macros, macro_scan, insert_macros};

verus! {

/// A macro's body and argument count.
#[derive(Clone, Debug)]
pub struct MacroValue {
    pub body: String,
    pub arity: u32,
}

pub open spec fn value_view(v: MacroValue) -> (Seq<char>, nat) {
    (v.body@, v.arity as nat)
}

/// The macros of a table, name → (body, argument count).
pub open spec fn table_view(t: Map<Seq<char>, MacroValue>) -> Map<Seq<char>, (Seq<char>, nat)> {
    t.map_values(|v: MacroValue| value_view(v))
}

/// The (body, argument count) of the macros of an index.
pub open spec fn index_macros(m: Map<Seq<char>, MacroView>) -> Map<Seq<char>, (Seq<char>, nat)> {
    m.map_values(|d: MacroView| (d.body, d.arity as nat))
}

// ── the workspace macros ───────────────────────────────────────────────

/// The macros recorded in the workspace index.
pub fn workspace_macros(index: &Index) -> (r: SortedMap<MacroValue>)
    ensures
        r.wf(),
        table_view(r.as_map()) == index_macros(macro_map(index.macros)),
{
    let ghost m = index_macros(macro_map(index.macros));
    let entries = macro_entries(&index.macros);
    let mut out: SortedMap<MacroValue> = SortedMap::new();
    let mut j: usize = 0;
    assert(table_view(out.as_map()) =~= m.restrict(Set::empty()));
    while j < entries.len()
        invariant
            j <= entries@.len(),
            out.wf(),
            m == index_macros(macro_map(index.macros)),
            forall|q: int| 0 <= q < entries@.len() ==> #[trigger] macro_map(index.macros).contains_key(entries@[q].0@)
                && macro_map(index.macros)[entries@[q].0@].body == entries@[q].1@
                && macro_map(index.macros)[entries@[q].0@].arity == entries@[q].2 as int,
            table_view(out.as_map()) == m.restrict(Set::new(|k: Seq<char>| exists|q: int| 0 <= q < j && entries@[q].0@ == k)),
        decreases entries@.len() - j,
    {
        let name = entries[j].0.clone();
        let body = entries[j].1.clone();
        let arity = entries[j].2;
        let ghost key = entries@[j as int].0@;
        assert(macro_map(index.macros).contains_key(entries@[j as int].0@));
        let ghost before = out.as_map();
        let ghost nv = (body@, arity as nat);
        let ghost nk = name@;
        out.insert(name, MacroValue { body, arity });
        assert(table_view(out.as_map()) =~= table_view(before).insert(nk, nv));
        proof {
            let s_old = Set::new(|k: Seq<char>| exists|q: int| 0 <= q < j && entries@[q].0@ == k);
            let s_new = Set::new(|k: Seq<char>| exists|q: int| 0 <= q < j + 1 && entries@[q].0@ == k);
            assert forall|k: Seq<char>| #[trigger] s_new.contains(k) <==> s_old.contains(k) || k == key by {
                if s_new.contains(k) && k != key {
                    let q = choose|q: int| 0 <= q < j + 1 && entries@[q].0@ == k;
                    assert(q < j);
                }
                if k == key {
                    assert(entries@[j as int].0@ == k);
                }
            }
            assert(table_view(out.as_map()) =~= m.restrict(s_new));
        }
        j += 1;
    }
    proof {
        let s_all = Set::new(|k: Seq<char>| exists|q: int| 0 <= q < j && entries@[q].0@ == k);
        assert forall|k: Seq<char>| #[trigger] m.contains_key(k) implies s_all.contains(k) by {
            assert(macro_map(index.macros).contains_key(k));
        }
        assert(m.restrict(s_all) =~= m);
    }
    out
}

/// The macros defined in the document `text`, the first definition of a
/// name winning.
pub fn document_macros(text: &str) -> (r: SortedMap<MacroValue>)
    ensures
        r.wf(),
        table_view(r.as_map()) == index_macros(insert_macros(Map::empty(), macro_scan(text.spec_bytes(), "<buffer>"@, 0))),
{
    let defs = collect_macros(text, "<buffer>");
    let ghost ds = defs@.map_values(|d: MacroDef| crate::index::macro_view(d));
    let mut out: SortedMap<MacroValue> = SortedMap::new();
    assert(table_view(out.as_map()) =~= index_macros(insert_macros(Map::empty(), ds.take(0))));
    let mut j: usize = 0;
    while j < defs.len()
        invariant
            j <= defs@.len(),
            out.wf(),
            ds == defs@.map_values(|d: MacroDef| crate::index::macro_view(d)),
            table_view(out.as_map()) == index_macros(insert_macros(Map::empty(), ds.take(j as int))),
        decreases defs@.len() - j,
    {
        let d = &defs[j];
        assert(ds.take(j + 1).drop_last() =~= ds.take(j as int));
        assert(ds.take(j + 1).last() == crate::index::macro_view(*d));
        let ghost before = out.as_map();
        if out.get(d.name.as_str()).is_none() {
            out.insert(d.name.clone(), MacroValue { body: d.body.clone(), arity: d.arity });
            assert(table_view(out.as_map()) =~= table_view(before).insert(d.name@, (d.body@, d.arity as nat)));
            assert(index_macros(insert_macros(Map::empty(), ds.take(j + 1))) =~= index_macros(insert_macros(Map::empty(), ds.take(j as int))).insert(d.name@, (d.body@, d.arity as nat)));
        } else {
            assert(table_view(before).contains_key(d.name@));
            assert(index_macros(insert_macros(Map::empty(), ds.take(j as int))).contains_key(d.name@));
        }
        j += 1;
    }
    assert(ds.take(ds.len() as int) =~= ds);
    out
}

/// The macros for a formula in `text`: the workspace macros, overridden by
/// those the document defines.
pub fn formula_macros(index: &Index, text: &str) -> (r: SortedMap<MacroValue>)
    ensures
        r.wf(),
        table_view(r.as_map()) == index_macros(macro_map(index.macros)).union_prefer_right(
            index_macros(insert_macros(Map::empty(), macro_scan(text.spec_bytes(), "<buffer>"@, 0)))),
{
    let mut out = workspace_macros(index);
    let doc = document_macros(text);
    let ghost base = table_view(out.as_map());
    let ghost dm = table_view(doc.as_map());
    let mut j: usize = 0;
    while j < doc.len()
        invariant
            j <= doc.pairs().len(),
            out.wf(),
            doc.wf(),
            dm == table_view(doc.as_map()),
            table_view(out.as_map()) == base.union_prefer_right(dm.restrict(Set::new(|k: Seq<char>| exists|q: int| 0 <= q < j && doc.pairs()[q].0 == k))),
        decreases doc.pairs().len() - j,
    {
        let name = doc.key_at(j);
        let v = doc.value_at(j);
        proof {
            crate::sorted_map::lemma_value_at(doc.pairs(), j as int);
        }
        let ghost before = out.as_map();
        out.insert(name.to_owned(), MacroValue { body: v.body.clone(), arity: v.arity });
        assert(table_view(out.as_map()) =~= table_view(before).insert(name@, value_view(*v)));
        proof {
            let s_old = Set::new(|k: Seq<char>| exists|q: int| 0 <= q < j && doc.pairs()[q].0 == k);
            let s_new = Set::new(|k: Seq<char>| exists|q: int| 0 <= q < j + 1 && doc.pairs()[q].0 == k);
            assert forall|k: Seq<char>| #[trigger] s_new.contains(k) <==> s_old.contains(k) || k == name@ by {
                if s_new.contains(k) && k != name@ {
                    let q = choose|q: int| 0 <= q < j + 1 && doc.pairs()[q].0 == k;
                    assert(q < j);
                }
                if k == name@ {
                    assert(doc.pairs()[j as int].0 == k);
                }
            }
            assert(table_view(out.as_map()) =~= base.union_prefer_right(dm.restrict(s_new)));
        }
        j += 1;
    }
    proof {
        let s_all = Set::new(|k: Seq<char>| exists|q: int| 0 <= q < j && doc.pairs()[q].0 == k);
        assert forall|k: Seq<char>| #[trigger] dm.contains_key(k) implies s_all.contains(k) by {
            let q = crate::sorted_map::key_index(doc.pairs(), k);
            assert(0 <= q < doc.pairs().len() && doc.pairs()[q].0 == k);
        }
        assert(dm.restrict(s_all) =~= dm);
    }
    out
}


/// Macros defined in the current document take precedence over those of
/// the workspace: in the table a formula is expanded with, a name the
/// document defines has the document's (first) definition, and any other
/// name has the workspace's, if it has one.
pub proof fn law_document_macros_win(workspace: MacrosView, t: Seq<u8>, k: Seq<char>)
    ensures
        ({
            let doc = insert_macros(Map::empty(), macro_scan(t, "<buffer>"@, 0));
            let table = index_macros(workspace).union_prefer_right(index_macros(doc));
            &&& doc.contains_key(k) ==> table.contains_key(k) && table[k] == (doc[k].body, doc[k].arity as nat)
            &&& !doc.contains_key(k) ==> table.contains_key(k) == workspace.contains_key(k)
                && (workspace.contains_key(k) ==> table[k] == (workspace[k].body, workspace[k].arity as nat))
        }),
{
}

// ── expansion ──────────────────────────────────────────────────────────

pub open spec fn is_ident_char(c: char) -> bool {
    ('a' <= c && c <= 'z') || ('A' <= c && c <= 'Z') || c == '@'
}

/// First index `>= i` where `pat` occurs in `s`.
pub open spec fn find_chars(s: Seq<char>, i: int, pat: Seq<char>) -> Option<int>
    decreases s.len() - i,
{
    if pat.len() == 0 || i < 0 || i + pat.len() > s.len() {
        None
    } else if s.subrange(i, i + pat.len()) == pat {
        Some(i)
    } else {
        find_chars(s, i + 1, pat)
    }
}

pub proof fn lemma_find_chars(s: Seq<char>, i: int, pat: Seq<char>)
    ensures
        find_chars(s, i, pat) matches Some(p) ==> i <= p && p + pat.len() <= s.len() && pat.len() > 0,
    decreases s.len() - i,
{
    if !(pat.len() == 0 || i < 0 || i + pat.len() > s.len()) && s.subrange(i, i + pat.len()) != pat {
        lemma_find_chars(s, i + 1, pat);
    }
}

pub fn chars_match_at(h: &Vec<char>, j: usize, n: &Vec<char>) -> (r: bool)
    requires
        j + n@.len() <= h@.len(),
    ensures
        r == (h@.subrange(j as int, j + n@.len()) == n@),
{
    let hl = h.len();
    let mut k: usize = 0;
    while k < n.len()
        invariant
            hl == h@.len(),
            j + n@.len() <= h@.len(),
            k <= n@.len(),
            forall|q: int| 0 <= q < k ==> h@[j + q] == n@[q],
        decreases n@.len() - k,
    {
        if h[j + k] != n[k] {
            assert(h@.subrange(j as int, j + n@.len())[k as int] != n@[k as int]);
            return false;
        }
        k += 1;
    }
    assert(h@.subrange(j as int, j + n@.len()) =~= n@);
    true
}

pub fn find_chars_from(s: &Vec<char>, from: usize, pat: &Vec<char>) -> (r: Option<usize>)
    ensures
        match r {
            Some(p) => find_chars(s@, from as int, pat@) == Some(p as int),
            None => find_chars(s@, from as int, pat@) is None,
        },
{
    if pat.len() == 0 {
        return None;
    }
    let mut i = from;
    while i < s.len() && pat.len() <= s.len() - i
        invariant
            from <= i,
            pat@.len() > 0,
            find_chars(s@, i as int, pat@) == find_chars(s@, from as int, pat@),
        decreases s@.len() - i,
    {
        if chars_match_at(s, i, pat) {
            return Some(i);
        }
        i += 1;
    }
    None
}

/// Scan for the `}` closing a group, from `i` at nesting `depth`; a
/// backslash hides the character after it.  The index just past it.
pub open spec fn char_brace_close(s: Seq<char>, i: int, depth: int) -> Option<int>
    decreases s.len() - i,
{
    if i < 0 || i >= s.len() {
        None
    } else if s[i] == '\\' {
        char_brace_close(s, if i + 2 < s.len() { i + 2 } else { s.len() as int }, depth)
    } else if s[i] == '{' {
        char_brace_close(s, i + 1, depth + 1)
    } else if s[i] == '}' {
        if depth <= 1 {
            Some(i + 1)
        } else {
            char_brace_close(s, i + 1, depth - 1)
        }
    } else {
        char_brace_close(s, i + 1, depth)
    }
}

proof fn lemma_char_brace_close(s: Seq<char>, i: int, depth: int)
    ensures
        char_brace_close(s, i, depth) matches Some(e) ==> i < e <= s.len(),
    decreases s.len() - i,
{
    if 0 <= i < s.len() {
        if s[i] == '\\' {
            lemma_char_brace_close(s, if i + 2 < s.len() { i + 2 } else { s.len() as int }, depth);
        } else if s[i] == '{' {
            lemma_char_brace_close(s, i + 1, depth + 1);
        } else if s[i] == '}' {
            if depth > 1 {
                lemma_char_brace_close(s, i + 1, depth - 1);
            }
        } else {
            lemma_char_brace_close(s, i + 1, depth);
        }
    }
}

/// Index just past the spaces and tabs starting at `i`.
pub open spec fn skip_blank_chars(s: Seq<char>, i: int) -> int
    decreases s.len() - i,
{
    if 0 <= i < s.len() && (s[i] == ' ' || s[i] == '\t') {
        skip_blank_chars(s, i + 1)
    } else {
        i
    }
}

/// Index of the first space, tab or `{` at or after `i`.
pub open spec fn arg_end(s: Seq<char>, i: int) -> int
    decreases s.len() - i,
{
    if 0 <= i < s.len() && !(s[i] == ' ' || s[i] == '\t' || s[i] == '{') {
        arg_end(s, i + 1)
    } else {
        i
    }
}

/// A macro argument at `at`: a braced group (its inside) or a run up to
/// white space or `{`; and the index just past it.
pub open spec fn macro_arg(s: Seq<char>, at: int) -> Option<(Seq<char>, int)> {
    let i = skip_blank_chars(s, at);
    if i < 0 || i >= s.len() {
        None
    } else if s[i] == '{' {
        match char_brace_close(s, i + 1, 1) {
            Some(e) => Some((s.subrange(i + 1, e - 1), e)),
            None => None,
        }
    } else {
        Some((s.subrange(i, arg_end(s, i)), arg_end(s, i)))
    }
}

proof fn lemma_macro_arg(s: Seq<char>, at: int)
    requires
        0 <= at <= s.len(),
    ensures
        macro_arg(s, at) matches Some((a, e)) ==> at < e <= s.len(),
{
    lemma_skip_blank_chars(s, at);
    let i = skip_blank_chars(s, at);
    if 0 <= i < s.len() {
        if s[i] == '{' {
            lemma_char_brace_close(s, i + 1, 1);
        } else {
            lemma_arg_end(s, i);
        }
    }
}

proof fn lemma_skip_blank_chars(s: Seq<char>, i: int)
    ensures
        i <= skip_blank_chars(s, i),
        i <= s.len() ==> skip_blank_chars(s, i) <= s.len(),
        0 <= i && skip_blank_chars(s, i) < s.len() ==> !(s[skip_blank_chars(s, i)] == ' ' || s[skip_blank_chars(s, i)] == '\t'),
    decreases s.len() - i,
{
    if 0 <= i < s.len() && (s[i] == ' ' || s[i] == '\t') {
        lemma_skip_blank_chars(s, i + 1);
    }
}

proof fn lemma_arg_end(s: Seq<char>, i: int)
    requires
        0 <= i < s.len(),
        !(s[i] == ' ' || s[i] == '\t' || s[i] == '{'),
    ensures
        i < arg_end(s, i) <= s.len(),
    decreases s.len() - i,
{
    if i + 1 < s.len() && !(s[i + 1] == ' ' || s[i + 1] == '\t' || s[i + 1] == '{') {
        lemma_arg_end(s, i + 1);
    } else {
        assert(arg_end(s, i + 1) == i + 1);
    }
}

fn read_macro_arg(s: &Vec<char>, at: usize) -> (r: Option<(Vec<char>, usize)>)
    requires
        at <= s@.len(),
    ensures
        match r {
            Some((a, e)) => macro_arg(s@, at as int) == Some((a@, e as int)) && at < e <= s@.len(),
            None => macro_arg(s@, at as int) is None,
        },
{
    proof {
        lemma_macro_arg(s@, at as int);
    }
    let n = s.len();
    let mut i = at;
    while i < n && (s[i] == ' ' || s[i] == '\t')
        invariant
            n == s@.len(),
            at <= i <= n,
            skip_blank_chars(s@, i as int) == skip_blank_chars(s@, at as int),
        decreases n - i,
    {
        i += 1;
    }
    if i >= n {
        return None;
    }
    if s[i] == '{' {
        let mut depth: usize = 1;
        let mut j = i + 1;
        while j < n
            invariant
                n == s@.len(),
                i < j <= n,
                s@[i as int] == '{',
                at <= i,
                skip_blank_chars(s@, at as int) == i,
                depth >= 1,
                depth <= j,
                char_brace_close(s@, j as int, depth as int) == char_brace_close(s@, i + 1, 1),
            decreases n - j,
        {
            let c = s[j];
            if c == '\\' {
                j = if n - j > 2 { j + 2 } else { n };
            } else if c == '{' {
                depth += 1;
                j += 1;
            } else if c == '}' {
                if depth == 1 {
                    let mut a: Vec<char> = Vec::new();
                    push_range(&mut a, s, i + 1, j);
                    assert(a@ =~= s@.subrange(i + 1, j as int));
                    return Some((a, j + 1));
                }
                depth -= 1;
                j += 1;
            } else {
                j += 1;
            }
        }
        return None;
    }
    let start = i;
    let mut j = i;
    while j < n && !(s[j] == ' ' || s[j] == '\t' || s[j] == '{')
        invariant
            n == s@.len(),
            start <= j <= n,
            arg_end(s@, j as int) == arg_end(s@, start as int),
        decreases n - j,
    {
        j += 1;
    }
    let mut a: Vec<char> = Vec::new();
    push_range(&mut a, s, start, j);
    assert(a@ =~= s@.subrange(start as int, j as int));
    Some((a, j))
}

/// Read `n` arguments from `pos`: those read, where reading stopped, and
/// whether all `n` were read.
pub open spec fn read_args(s: Seq<char>, pos: int, n: nat) -> (Seq<Seq<char>>, int, bool)
    decreases n,
{
    if n == 0 {
        (Seq::empty(), pos, true)
    } else {
        match macro_arg(s, pos) {
            None => (Seq::empty(), pos, false),
            Some((a, e)) => {
                let (rest, p2, ok) = read_args(s, e, (n - 1) as nat);
                (seq![a] + rest, p2, ok)
            },
        }
    }
}

proof fn lemma_read_args(s: Seq<char>, pos: int, n: nat)
    requires
        0 <= pos <= s.len(),
    ensures
        pos <= read_args(s, pos, n).1 <= s.len(),
        read_args(s, pos, n).0.len() <= n,
    decreases n,
{
    if n > 0 {
        lemma_macro_arg(s, pos);
        match macro_arg(s, pos) {
            None => {},
            Some((a, e)) => {
                lemma_read_args(s, e, (n - 1) as nat);
            },
        }
    }
}

/// Every match of `pat` (non-empty), leftmost first and not overlapping,
/// replaced by `rep`.
pub open spec fn replace_all(s: Seq<char>, pat: Seq<char>, rep: Seq<char>) -> Seq<char>
    decreases s.len(),
{
    if s.len() == 0 {
        Seq::empty()
    } else if pat.len() > 0 && pat.len() <= s.len() && s.subrange(0, pat.len() as int) == pat {
        rep + replace_all(s.subrange(pat.len() as int, s.len() as int), pat, rep)
    } else {
        seq![s[0]] + replace_all(s.drop_first(), pat, rep)
    }
}

/// The body with `#1`, `#2`, … replaced by the arguments, in that order.
pub open spec fn substitute(body: Seq<char>, args: Seq<Seq<char>>, k: int) -> Seq<char>
    decreases args.len() - k,
{
    if k < 0 || k >= args.len() {
        body
    } else {
        substitute(replace_all(body, seq!['#'] + decimal((k + 1) as nat), args[k]), args, k + 1)
    }
}

/// No `#` of `s` is directly followed by `1`.
pub open spec fn no_param_one(s: Seq<char>) -> bool {
    forall|i: int| 0 <= i && i + 1 < s.len() ==> !(#[trigger] s[i] == '#' && s[i + 1] == '1')
}

proof fn lemma_replace_param_one(s: Seq<char>, a: Seq<char>)
    requires
        a.len() > 0,
        forall|j: int| 0 <= j < a.len() ==> #[trigger] a[j] != '#' && a[j] != '1',
    ensures
        no_param_one(replace_all(s, seq!['#', '1'], a)),
        replace_all(s, seq!['#', '1'], a).len() > 0 ==> s.len() > 0
            && (replace_all(s, seq!['#', '1'], a)[0] == '1' ==> s[0] == '1'),
    decreases s.len(),
{
    let p = seq!['#', '1'];
    let r = replace_all(s, p, a);
    if s.len() > 0 {
        if p.len() <= s.len() && s.subrange(0, 2) == p {
            let rest = s.subrange(2, s.len() as int);
            lemma_replace_param_one(rest, a);
            let r2 = replace_all(rest, p, a);
            assert(r == a + r2);
            assert forall|i: int| 0 <= i && i + 1 < r.len() implies !(#[trigger] r[i] == '#' && r[i + 1] == '1') by {
                if i < a.len() {
                    assert(r[i] == a[i]);
                } else {
                    assert(r[i] == r2[i - a.len()]);
                    assert(r[i + 1] == r2[i + 1 - a.len()]);
                }
            }
            assert(r[0] == a[0]);
        } else {
            let rest = s.drop_first();
            lemma_replace_param_one(rest, a);
            let r2 = replace_all(rest, p, a);
            assert(r == seq![s[0]] + r2);
            assert forall|i: int| 0 <= i && i + 1 < r.len() implies !(#[trigger] r[i] == '#' && r[i + 1] == '1') by {
                if i == 0 {
                    if r[0] == '#' && r[1] == '1' {
                        assert(r2[0] == '1');
                        assert(rest[0] == '1');
                        assert(s.subrange(0, 2) =~= p);
                    }
                } else {
                    assert(r[i] == r2[i - 1]);
                    assert(r[i + 1] == r2[i]);
                }
            }
        }
    }
}

/// Substituting the argument of a one-argument macro replaces every `#1`
/// of the body: when the argument is not empty and holds neither `#` nor
/// `1`, no `#1` is left in the result.  A body without `#` comes back as
/// it is, whatever the arguments.
pub proof fn law_substitute_all_params(body: Seq<char>, a: Seq<char>, args: Seq<Seq<char>>)
    ensures
        (a.len() > 0 && forall|j: int| 0 <= j < a.len() ==> #[trigger] a[j] != '#' && a[j] != '1')
            ==> no_param_one(substitute(body, seq![a], 0)),
        (forall|j: int| 0 <= j < body.len() ==> #[trigger] body[j] != '#') ==> substitute(body, args, 0) == body,
{
    assert(seq!['#'] + decimal(1) =~= seq!['#', '1']);
    if a.len() > 0 && forall|j: int| 0 <= j < a.len() ==> #[trigger] a[j] != '#' && a[j] != '1' {
        lemma_replace_param_one(body, a);
        assert(substitute(body, seq![a], 0) == substitute(replace_all(body, seq!['#', '1'], a), seq![a], 1));
    }
    if forall|j: int| 0 <= j < body.len() ==> #[trigger] body[j] != '#' {
        lemma_substitute_plain(body, args, 0);
    }
}

proof fn lemma_replace_plain(s: Seq<char>, pat: Seq<char>, rep: Seq<char>)
    requires
        pat.len() > 0,
        pat[0] == '#',
        forall|j: int| 0 <= j < s.len() ==> #[trigger] s[j] != '#',
    ensures
        replace_all(s, pat, rep) == s,
    decreases s.len(),
{
    if s.len() > 0 {
        if pat.len() <= s.len() {
            assert(s.subrange(0, pat.len() as int)[0] == s[0]);
        }
        assert forall|j: int| 0 <= j < s.drop_first().len() implies #[trigger] s.drop_first()[j] != '#' by {
            assert(s.drop_first()[j] == s[j + 1]);
        }
        lemma_replace_plain(s.drop_first(), pat, rep);
        assert(s =~= seq![s[0]] + s.drop_first());
    }
}

proof fn lemma_substitute_plain(body: Seq<char>, args: Seq<Seq<char>>, k: int)
    requires
        forall|j: int| 0 <= j < body.len() ==> #[trigger] body[j] != '#',
    ensures
        substitute(body, args, k) == body,
    decreases args.len() - k,
{
    if 0 <= k < args.len() {
        let pat = seq!['#'] + decimal((k + 1) as nat);
        assert(pat[0] == '#');
        lemma_replace_plain(body, pat, args[k]);
        lemma_substitute_plain(body, args, k + 1);
    }
}

/// One pass of one macro over `s` from `cursor`.
pub open spec fn expand_pass(s: Seq<char>, head: Seq<char>, body: Seq<char>, arity: nat, cursor: int) -> Seq<char>
    decreases s.len() - cursor,
{
    if cursor < 0 || cursor >= s.len() {
        Seq::empty()
    } else {
        match find_chars(s, cursor, head) {
            None => s.subrange(cursor, s.len() as int),
            Some(idx) => {
                let after = idx + head.len();
                if after <= cursor || after > s.len() {
                    Seq::empty()
                } else if after < s.len() && is_ident_char(s[after]) {
                    s.subrange(cursor, after) + expand_pass(s, head, body, arity, after)
                } else if arity == 0 {
                    s.subrange(cursor, idx) + body + expand_pass(s, head, body, arity, after)
                } else {
                    let (args, pos, ok) = read_args(s, after, arity);
                    if pos < after || pos > s.len() {
                        Seq::empty()
                    } else if !ok {
                        s.subrange(cursor, pos) + expand_pass(s, head, body, arity, pos)
                    } else {
                        s.subrange(cursor, idx) + substitute(body, args, 0) + expand_pass(s, head, body, arity, pos)
                    }
                }
            },
        }
    }
}

/// The pairs of a macro table as (name, (body, argument count)).
pub open spec fn table_pairs(ps: Seq<(Seq<char>, MacroValue)>) -> Seq<(Seq<char>, (Seq<char>, nat))> {
    ps.map_values(|p: (Seq<char>, MacroValue)| (p.0, value_view(p.1)))
}

/// Expand the macros `ps`, one after the other in order, in `s`.
pub open spec fn expand_all(s: Seq<char>, ps: Seq<(Seq<char>, (Seq<char>, nat))>) -> Seq<char>
    decreases ps.len(),
{
    if ps.len() == 0 {
        s
    } else {
        expand_all(expand_pass(s, seq!['\\'] + ps[0].0, ps[0].1.0, ps[0].1.1, 0), ps.drop_first())
    }
}

pub(crate) fn replace_all_chars(s: &Vec<char>, pat: &Vec<char>, rep: &Vec<char>) -> (r: Vec<char>)
    ensures
        r@ == replace_all(s@, pat@, rep@),
{
    let mut out: Vec<char> = Vec::new();
    let mut i: usize = 0;
    let ghost whole = replace_all(s@, pat@, rep@);
    assert(s@.subrange(0, s@.len() as int) =~= s@);
    while i < s.len()
        invariant
            i <= s@.len(),
            whole == replace_all(s@, pat@, rep@),
            whole == out@ + replace_all(s@.subrange(i as int, s@.len() as int), pat@, rep@),
        decreases s@.len() - i,
    {
        let ghost rest = s@.subrange(i as int, s@.len() as int);
        if pat.len() > 0 && pat.len() <= s.len() - i && chars_match_at(s, i, pat) {
            assert(rest.subrange(0, pat@.len() as int) =~= s@.subrange(i as int, i + pat@.len()));
            assert(rest.subrange(pat@.len() as int, rest.len() as int) =~= s@.subrange(i + pat@.len(), s@.len() as int));
            let ghost o = out@;
            let mut k: usize = 0;
            while k < rep.len()
                invariant
                    k <= rep@.len(),
                    out@ == o + rep@.take(k as int),
                decreases rep@.len() - k,
            {
                out.push(rep[k]);
                assert(rep@.take(k + 1) =~= rep@.take(k as int).push(rep@[k as int]));
                k += 1;
            }
            assert(rep@.take(rep@.len() as int) =~= rep@);
            assert(whole =~= out@ + replace_all(s@.subrange(i + pat@.len(), s@.len() as int), pat@, rep@));
            i += pat.len();
        } else {
            proof {
                if pat@.len() > 0 && pat@.len() <= rest.len() {
                    assert(rest.subrange(0, pat@.len() as int) =~= s@.subrange(i as int, i + pat@.len()));
                }
                assert(rest.drop_first() =~= s@.subrange(i + 1, s@.len() as int));
            }
            out.push(s[i]);
            assert(whole =~= out@ + replace_all(s@.subrange(i + 1, s@.len() as int), pat@, rep@));
            i += 1;
        }
    }
    assert(out@ + replace_all(s@.subrange(i as int, s@.len() as int), pat@, rep@) =~= out@);
    out
}

fn substitute_args(body: &Vec<char>, args: &Vec<Vec<char>>) -> (r: Vec<char>)
    ensures
        r@ == substitute(body@, args@.map_values(|a: Vec<char>| a@), 0),
{
    let ghost av = args@.map_values(|a: Vec<char>| a@);
    let mut cur: Vec<char> = body.clone();
    assert(cur@ =~= body@);
    let mut k: usize = 0;
    while k < args.len()
        invariant
            k <= args@.len(),
            av == args@.map_values(|a: Vec<char>| a@),
            substitute(cur@, av, k as int) == substitute(body@, av, 0),
        decreases args@.len() - k,
    {
        let num = decimal_string(k as u64 + 1);
        let mut pat: Vec<char> = Vec::new();
        pat.push('#');
        let nv = chars_of(num.as_str());
        let mut q: usize = 0;
        while q < nv.len()
            invariant
                q <= nv@.len(),
                pat@ == seq!['#'] + nv@.take(q as int),
            decreases nv@.len() - q,
        {
            pat.push(nv[q]);
            assert(nv@.take(q + 1) =~= nv@.take(q as int).push(nv@[q as int]));
            q += 1;
        }
        assert(nv@.take(nv@.len() as int) =~= nv@);
        cur = replace_all_chars(&cur, &pat, &args[k]);
        k += 1;
    }
    cur
}

fn read_args_exec(s: &Vec<char>, pos: usize, n: u32) -> (r: (Vec<Vec<char>>, usize, bool))
    requires
        pos <= s@.len(),
    ensures
        (r.0@.map_values(|a: Vec<char>| a@), r.1 as int, r.2) == read_args(s@, pos as int, n as nat),
{
    let mut args: Vec<Vec<char>> = Vec::new();
    let mut p = pos;
    let mut k: u32 = 0;
    let ghost whole = read_args(s@, pos as int, n as nat);
    while k < n
        invariant
            k <= n,
            pos <= p <= s@.len(),
            whole == read_args(s@, pos as int, n as nat),
            ({
                let (rest, p2, ok) = read_args(s@, p as int, (n - k) as nat);
                whole == (args@.map_values(|a: Vec<char>| a@) + rest, p2, ok)
            }),
        decreases n - k,
    {
        match read_macro_arg(s, p) {
            Some((a, e)) => {
                let ghost old_args = args@;
                args.push(a);
                assert(args@.map_values(|a: Vec<char>| a@) =~= old_args.map_values(|a: Vec<char>| a@).push(a@));
                proof {
                    let (rest, p2, ok) = read_args(s@, e as int, (n - k - 1) as nat);
                    assert(seq![a@] + rest =~= seq![a@] + rest);
                    assert(old_args.map_values(|a: Vec<char>| a@).push(a@) + rest =~= old_args.map_values(|a: Vec<char>| a@) + (seq![a@] + rest));
                }
                p = e;
                k += 1;
            },
            None => {
                assert(args@.map_values(|a: Vec<char>| a@) + Seq::<Seq<char>>::empty() =~= args@.map_values(|a: Vec<char>| a@));
                return (args, p, false);
            },
        }
    }
    assert(args@.map_values(|a: Vec<char>| a@) + Seq::<Seq<char>>::empty() =~= args@.map_values(|a: Vec<char>| a@));
    (args, p, true)
}

fn push_range(out: &mut Vec<char>, s: &Vec<char>, a: usize, b: usize)
    requires
        a <= b <= s@.len(),
    ensures
        final(out)@ == old(out)@ + s@.subrange(a as int, b as int),
{
    let mut k = a;
    while k < b
        invariant
            a <= k <= b <= s@.len(),
            out@ == old(out)@ + s@.subrange(a as int, k as int),
        decreases b - k,
    {
        out.push(s[k]);
        assert(s@.subrange(a as int, k + 1) =~= s@.subrange(a as int, k as int).push(s@[k as int]));
        k += 1;
    }
}

fn push_all(out: &mut Vec<char>, s: &Vec<char>)
    ensures
        final(out)@ == old(out)@ + s@,
{
    push_range(out, s, 0, s.len());
    assert(s@.subrange(0, s@.len() as int) =~= s@);
}

/// One pass of the macro with head `\NAME` over `s`.
fn expand_one(s: &Vec<char>, head: &Vec<char>, body: &Vec<char>, arity: u32) -> (r: Vec<char>)
    requires
        head@.len() > 0,
    ensures
        r@ == expand_pass(s@, head@, body@, arity as nat, 0),
{
    let mut out: Vec<char> = Vec::new();
    let mut cursor: usize = 0;
    let ghost whole = expand_pass(s@, head@, body@, arity as nat, 0);
    while cursor < s.len()
        invariant
            cursor <= s@.len(),
            head@.len() > 0,
            whole == expand_pass(s@, head@, body@, arity as nat, 0),
            whole == out@ + expand_pass(s@, head@, body@, arity as nat, cursor as int),
        decreases s@.len() - cursor,
    {
        let ghost o = out@;
        proof {
            lemma_find_chars(s@, cursor as int, head@);
        }
        match find_chars_from(s, cursor, head) {
            None => {
                push_range(&mut out, s, cursor, s.len());
                assert(whole =~= out@);
                return out;
            },
            Some(idx) => {
                let after = idx + head.len();
                if after < s.len() && is_ident_char_exec(s[after]) {
                    push_range(&mut out, s, cursor, after);
                    assert(whole =~= out@ + expand_pass(s@, head@, body@, arity as nat, after as int));
                    cursor = after;
                } else if arity == 0 {
                    push_range(&mut out, s, cursor, idx);
                    push_all(&mut out, body);
                    assert(whole =~= out@ + expand_pass(s@, head@, body@, arity as nat, after as int));
                    cursor = after;
                } else {
                    proof {
                        lemma_read_args(s@, after as int, arity as nat);
                    }
                    let (args, pos, ok) = read_args_exec(s, after, arity);
                    if !ok {
                        push_range(&mut out, s, cursor, pos);
                        assert(whole =~= out@ + expand_pass(s@, head@, body@, arity as nat, pos as int));
                    } else {
                        push_range(&mut out, s, cursor, idx);
                        let sub = substitute_args(body, &args);
                        push_all(&mut out, &sub);
                        assert(whole =~= out@ + expand_pass(s@, head@, body@, arity as nat, pos as int));
                    }
                    cursor = pos;
                }
            },
        }
    }
    assert(whole =~= out@);
    out
}

fn is_ident_char_exec(c: char) -> (r: bool)
    ensures
        r == is_ident_char(c),
{
    ('a' <= c && c <= 'z') || ('A' <= c && c <= 'Z') || c == '@'
}

/// Expand every macro of `macros` (in name order, each over the result of
/// the previous one) in `source`.
pub fn expand_macros(source: &str, macros: &SortedMap<MacroValue>) -> (r: String)
    ensures
        r@ == expand_all(source@, table_pairs(macros.pairs())),
{
    let mut out = chars_of(source);
    let ghost ps = table_pairs(macros.pairs());
    let mut k: usize = 0;
    assert(ps.skip(0) =~= ps);
    while k < macros.len()
        invariant
            k <= macros.pairs().len(),
            ps == table_pairs(macros.pairs()),
            expand_all(out@, ps.skip(k as int)) == expand_all(source@, ps),
        decreases macros.pairs().len() - k,
    {
        let name = macros.key_at(k);
        let v = macros.value_at(k);
        let mut head: Vec<char> = Vec::new();
        head.push('\\');
        let nv = chars_of(name);
        push_all(&mut head, &nv);
        let bv = chars_of(v.body.as_str());
        assert(ps.skip(k as int)[0] == ps[k as int]);
        assert(ps.skip(k as int).drop_first() =~= ps.skip(k + 1));
        out = expand_one(&out, &head, &bv, v.arity);
        k += 1;
    }
    assert(ps.skip(k as int) =~= Seq::<(Seq<char>, (Seq<char>, nat))>::empty());
    string_of_all(out.as_slice())
}


/// The pairs of an ordered macro table, as values, are ascending and spell
/// the table's map.
pub proof fn lemma_table_pairs(m: &SortedMap<MacroValue>)
    requires
        m.wf(),
    ensures
        crate::sorted_map::ascending(table_pairs(m.pairs())),
        crate::sorted_map::pairs_map(table_pairs(m.pairs())) == table_view(m.as_map()),
{
    let ps = m.pairs();
    let tp = table_pairs(ps);
    assert forall|i: int, j: int| 0 <= i < j < tp.len() implies crate::sorted_map::key_lt(#[trigger] tp[i].0, #[trigger] tp[j].0) by {
        assert(crate::sorted_map::key_lt(ps[i].0, ps[j].0));
    }
    let a = crate::sorted_map::pairs_map(tp);
    let b = table_view(m.as_map());
    assert forall|k: Seq<char>| #[trigger] a.contains_key(k) <==> b.contains_key(k) by {
        if a.contains_key(k) {
            let i = crate::sorted_map::key_index(tp, k);
            assert(ps[i].0 == k);
        }
        if b.contains_key(k) {
            let i = crate::sorted_map::key_index(ps, k);
            assert(tp[i].0 == k);
        }
    }
    assert forall|k: Seq<char>| #[trigger] a.contains_key(k) implies a[k] == b[k] by {
        let i = crate::sorted_map::key_index(tp, k);
        assert(0 <= i < tp.len() && tp[i].0 == k);
        crate::sorted_map::lemma_value_at(tp, i);
        crate::sorted_map::lemma_value_at(ps, i);
    }
    assert(a =~= b);
}

} // verus!
