//! BibTeX parsing: `@string` macros, then every `@type{key, field = value, …}`
//! entry, with the macros substituted into the field values.
//!
//! Nested `{…}` is honoured; `"…"` is accepted but does not nest;
//! concatenations of bare identifiers and `@string` macros are joined with
//! single spaces.  `%` comments outside entries and `@comment`,
//! `@preamble` and `@ignore` blocks are skipped.
use vstd::prelude::*;
use vstd::string::{StringSliceAdditionalSpecFns, StringExecFns};
use vstd::utf8::{valid_utf8, decode_utf8, encode_utf8};
use crate::text::{read_braced, braced, lemma_braced_bounds, decoded, has_at, starts_with_word, is_alnum, byte_is_alnum, eol_after, skip_to_eol, lemma_eol_after_bounds, utf8_str, str_trim, trim_ws, lower_seq, lower_bytes, string_from_utf8, is_one_of, one_of, bytes_eq};
use crate::sorted_map::SortedMap;
use crate::index::{Index, BibEntry, BibView, bib_view, bib_map, insert_bib, retain_bibs_not_from, bibs_not_from, BibsView, field_values, bibs_ordered};

verus! {

// ── tokens ─────────────────────────────────────────────────────────────

/// Space, tab, line feed or carriage return.
pub open spec fn is_bib_ws(b: u8) -> bool {
    b == 32 || b == 9 || b == 10 || b == 13
}

/// Index just past the white space starting at `i`.
pub open spec fn skip_bws(t: Seq<u8>, i: int) -> int
    decreases t.len() - i,
{
    if 0 <= i < t.len() && is_bib_ws(t[i]) {
        skip_bws(t, i + 1)
    } else {
        i
    }
}

pub proof fn lemma_skip_bws(t: Seq<u8>, i: int)
    ensures
        i <= skip_bws(t, i),
        i <= t.len() ==> skip_bws(t, i) <= t.len(),
        0 <= i ==> (skip_bws(t, i) < t.len() ==> !is_bib_ws(t[skip_bws(t, i)])),
    decreases t.len() - i,
{
    if 0 <= i < t.len() && is_bib_ws(t[i]) {
        lemma_skip_bws(t, i + 1);
    }
}

pub fn skip_ws(t: &[u8], at: usize) -> (r: usize)
    ensures
        r == skip_bws(t@, at as int),
        at <= r,
        at <= t@.len() ==> r <= t@.len(),
{
    proof {
        lemma_skip_bws(t@, at as int);
    }
    let mut i = at;
    while i < t.len() && (t[i] == 32 || t[i] == 9 || t[i] == 10 || t[i] == 13)
        invariant
            at <= i,
            skip_bws(t@, i as int) == skip_bws(t@, at as int),
        decreases t@.len() - i,
    {
        i += 1;
    }
    i
}

/// A byte allowed in a BibTeX identifier: a letter, a digit, `_`, `:` or `-`.
pub open spec fn is_ident_byte(b: u8) -> bool {
    is_alnum(b) || b == 95 || b == 58 || b == 45
}

/// Index just past the identifier bytes starting at `i`.
pub open spec fn ident_end(t: Seq<u8>, i: int) -> int
    decreases t.len() - i,
{
    if 0 <= i < t.len() && is_ident_byte(t[i]) {
        ident_end(t, i + 1)
    } else {
        i
    }
}

pub proof fn lemma_ident_end(t: Seq<u8>, i: int)
    ensures
        i <= ident_end(t, i),
        i <= t.len() ==> ident_end(t, i) <= t.len(),
    decreases t.len() - i,
{
    if 0 <= i < t.len() && is_ident_byte(t[i]) {
        lemma_ident_end(t, i + 1);
    }
}

/// The identifier starting at `at`, if it is not empty.
pub open spec fn ident(t: Seq<u8>, at: int) -> Option<(int, int)> {
    if ident_end(t, at) == at {
        None
    } else {
        Some((at, ident_end(t, at)))
    }
}

pub fn read_ident(text: &[u8], at: usize) -> (r: Option<(usize, usize)>)
    ensures
        match r {
            Some((s, e)) => ident(text@, at as int) == Some((s as int, e as int)) && s == at < e,
            None => ident(text@, at as int) is None,
        },
        r matches Some((s, e)) ==> e <= text@.len(),
{
    proof {
        lemma_ident_end(text@, at as int);
    }
    let mut i = at;
    while i < text.len() && (byte_is_alnum(text[i]) || text[i] == 95 || text[i] == 58 || text[i] == 45)
        invariant
            at <= i,
            ident_end(text@, i as int) == ident_end(text@, at as int),
        decreases text@.len() - i,
    {
        i += 1;
    }
    if i == at {
        None
    } else {
        Some((at, i))
    }
}

/// Scan a `"…"` string from `i` for its closing quote (a backslash hides the
/// byte after it); the index of the closing quote.
pub open spec fn quote_close(t: Seq<u8>, i: int) -> Option<int>
    decreases t.len() - i,
{
    if i < 0 || i >= t.len() {
        None
    } else if t[i] == 92 {
        quote_close(t, crate::text::skip_escape(t, i))
    } else if t[i] == 34 {
        Some(i)
    } else {
        quote_close(t, i + 1)
    }
}

pub proof fn lemma_quote_close(t: Seq<u8>, i: int)
    ensures
        quote_close(t, i) matches Some(q) ==> i <= q < t.len(),
    decreases t.len() - i,
{
    if 0 <= i < t.len() {
        if t[i] == 92 {
            lemma_quote_close(t, crate::text::skip_escape(t, i));
        } else if t[i] != 34 {
            lemma_quote_close(t, i + 1);
        }
    }
}

/// The `"…"` string opening at `at`: `(inner_start, inner_end, end)`.
pub open spec fn quoted(t: Seq<u8>, at: int) -> Option<(int, int, int)> {
    if 0 <= at < t.len() && t[at] == 34 {
        match quote_close(t, at + 1) {
            Some(q) => Some((at + 1, q, q + 1)),
            None => None,
        }
    } else {
        None
    }
}

pub fn read_quoted(text: &[u8], at: usize) -> (r: Option<(usize, usize, usize)>)
    ensures
        match r {
            Some((a, b, e)) => quoted(text@, at as int) == Some((a as int, b as int, e as int)) && a == at + 1 && a <= b && b + 1 == e && e <= text@.len(),
            None => quoted(text@, at as int) is None,
        },
{
    if at >= text.len() || text[at] != 34 {
        return None;
    }
    proof {
        lemma_quote_close(text@, at + 1);
    }
    let mut i = at + 1;
    while i < text.len()
        invariant
            at < text@.len(),
            text@[at as int] == 34,
            at + 1 <= i,
            quote_close(text@, i as int) == quote_close(text@, at + 1),
        decreases text@.len() - i,
    {
        let b = text[i];
        if b == 92 {
            i = if text.len() - i > 2 { i + 2 } else { text.len() };
        } else if b == 34 {
            return Some((at + 1, i, i + 1));
        } else {
            i += 1;
        }
    }
    None
}

/// Scan for the `)` or `}` that closes a group opened by `(`, from `i` at
/// nesting `depth`; both bracket kinds nest together and a backslash skips
/// the next byte.  The index just past the closer.
pub open spec fn paren_close(t: Seq<u8>, i: int, depth: int) -> Option<int>
    decreases t.len() + 1 - i,
{
    if i < 0 || i >= t.len() {
        None
    } else if t[i] == 92 {
        paren_close(t, i + 2, depth)
    } else if t[i] == 123 || t[i] == 40 {
        paren_close(t, i + 1, depth + 1)
    } else if t[i] == 125 || t[i] == 41 {
        if depth <= 1 {
            Some(i + 1)
        } else {
            paren_close(t, i + 1, depth - 1)
        }
    } else {
        paren_close(t, i + 1, depth)
    }
}

pub proof fn lemma_paren_close(t: Seq<u8>, i: int, depth: int)
    ensures
        paren_close(t, i, depth) matches Some(e) ==> i < e <= t.len(),
    decreases t.len() + 1 - i,
{
    if 0 <= i < t.len() {
        if t[i] == 92 {
            lemma_paren_close(t, i + 2, depth);
        } else if t[i] == 123 || t[i] == 40 {
            lemma_paren_close(t, i + 1, depth + 1);
        } else if t[i] == 125 || t[i] == 41 {
            if depth > 1 {
                lemma_paren_close(t, i + 1, depth - 1);
            }
        } else {
            lemma_paren_close(t, i + 1, depth);
        }
    }
}

/// The index just past the bracket that closes the `(` at `at`.
pub fn find_matching_paren(text: &[u8], at: usize) -> (r: Option<usize>)
    requires
        text@.len() <= isize::MAX,
    ensures
        match r {
            Some(e) => paren_close(text@, at + 1, 1) == Some(e as int) && at < e <= text@.len(),
            None => paren_close(text@, at + 1, 1) is None,
        },
{
    if at >= text.len() {
        return None;
    }
    proof {
        lemma_paren_close(text@, at + 1, 1);
    }
    let mut depth: usize = 1;
    let mut i: usize = at + 1;
    while i < text.len()
        invariant
            text@.len() <= isize::MAX,
            at + 1 <= i <= text@.len() + 1,
            depth >= 1,
            depth <= i,
            paren_close(text@, i as int, depth as int) == paren_close(text@, at + 1, 1),
        decreases text@.len() + 2 - i,
    {
        let b = text[i];
        if b == 92 {
            i = i + 2;
        } else if b == 123 || b == 40 {
            depth += 1;
            i += 1;
        } else if b == 125 || b == 41 {
            if depth == 1 {
                return Some(i + 1);
            }
            depth -= 1;
            i += 1;
        } else {
            i += 1;
        }
    }
    None
}

/// The text of a byte range, or the empty text when it is not UTF-8.
pub open spec fn text_or_empty(b: Seq<u8>) -> Seq<char> {
    match decoded(b) {
        Some(s) => s,
        None => Seq::empty(),
    }
}

pub fn str_or_empty(b: &[u8]) -> (r: &str)
    ensures
        r@ == text_or_empty(b@),
{
    match utf8_str(b) {
        Some(s) => s,
        None => {
            proof {
                reveal_strlit("");
            }
            ""
        },
    }
}

/// Index of the first `,`, space, tab, line feed or carriage return at or
/// after `i`.
pub open spec fn key_end(t: Seq<u8>, i: int) -> int
    decreases t.len() - i,
{
    if 0 <= i < t.len() && !(t[i] == 44 || is_bib_ws(t[i])) {
        key_end(t, i + 1)
    } else {
        i
    }
}

pub proof fn lemma_key_end(t: Seq<u8>, i: int)
    ensures
        i <= key_end(t, i),
        i <= t.len() ==> key_end(t, i) <= t.len(),
    decreases t.len() - i,
{
    if 0 <= i < t.len() && !(t[i] == 44 || is_bib_ws(t[i])) {
        lemma_key_end(t, i + 1);
    }
}

/// The citation key at `at` (up to the first `,` or white space), trimmed
/// and not empty, and where it ends.
pub open spec fn entry_key(t: Seq<u8>, at: int) -> Option<(Seq<char>, int)> {
    let e = key_end(t, at);
    match decoded(t.subrange(at, e)) {
        None => None,
        Some(s) => if trim_ws(s).len() == 0 {
            None
        } else {
            Some((trim_ws(s), e))
        },
    }
}

/// The citation key runs from `at` up to, and not including, the first
/// `,`, space, tab, line feed or carriage return (or the end of the text):
/// every other byte, `:` and `/` among them, belongs to it.  The key is
/// that text trimmed, and there is one exactly when that text is valid
/// UTF-8 and not blank.
pub proof fn law_entry_key(t: Seq<u8>, at: int)
    requires
        0 <= at <= t.len(),
    ensures
        ({
            let e = key_end(t, at);
            &&& at <= e <= t.len()
            &&& forall|j: int| at <= j < e ==> !(#[trigger] t[j] == 44 || is_bib_ws(t[j]))
            &&& e == t.len() || t[e] == 44 || is_bib_ws(t[e])
            &&& match entry_key(t, at) {
                Some((k, ke)) => ke == e && valid_utf8(t.subrange(at, e)) && k == trim_ws(decode_utf8(t.subrange(at, e))) && k.len() > 0,
                None => !valid_utf8(t.subrange(at, e)) || trim_ws(decode_utf8(t.subrange(at, e))).len() == 0,
            }
        }),
    decreases t.len() - at,
{
    lemma_key_end(t, at);
    if at < t.len() && !(t[at] == 44 || is_bib_ws(t[at])) {
        law_entry_key(t, at + 1);
    }
}

pub fn read_entry_key(text: &[u8], at: usize) -> (r: Option<(usize, String)>)
    requires
        at <= text@.len(),
    ensures
        match r {
            Some((e, k)) => entry_key(text@, at as int) == Some((k@, e as int)) && at <= e <= text@.len(),
            None => entry_key(text@, at as int) is None,
        },
{
    proof {
        lemma_key_end(text@, at as int);
    }
    let mut i = at;
    while i < text.len() && !(text[i] == 44 || text[i] == 32 || text[i] == 9 || text[i] == 10 || text[i] == 13)
        invariant
            at <= i <= text@.len(),
            key_end(text@, i as int) == key_end(text@, at as int),
        decreases text@.len() - i,
    {
        i += 1;
    }
    let raw = match utf8_str(&text[at..i]) {
        Some(s) => str_trim(s),
        None => return None,
    };
    if raw.is_empty() {
        return None;
    }
    Some((i, raw.to_owned()))
}


// ── field values ───────────────────────────────────────────────────────

/// What one token of a field value contributes.
pub enum ValueStep {
    /// A `,`, `}` or `)`: the value ends here.
    Stop,
    /// An unterminated group, or an `@` without a name: there is no value.
    Fail,
    /// A token: the text it adds (if any), where scanning resumes, and
    /// whether it counts as a piece (pieces after the first are preceded by
    /// a space).
    Move { piece: Option<Seq<char>>, next: int, counts: bool },
}

/// The token of a field value at `i` (`i < t.len()`), with `@string`
/// macros `strs`.  A bare identifier that names a macro stands for the
/// macro's text.
pub open spec fn value_step(t: Seq<u8>, i: int, strs: Map<Seq<char>, Seq<char>>) -> ValueStep {
    if t[i] == 44 || t[i] == 125 || t[i] == 41 {
        ValueStep::Stop
    } else if t[i] == 123 {
        match braced(t, i) {
            Some((a, b, e)) => ValueStep::Move { piece: Some(text_or_empty(t.subrange(a, b))), next: e, counts: true },
            None => ValueStep::Fail,
        }
    } else if t[i] == 34 {
        match quoted(t, i) {
            Some((a, b, e)) => ValueStep::Move { piece: Some(text_or_empty(t.subrange(a, b))), next: e, counts: true },
            None => ValueStep::Fail,
        }
    } else if t[i] == 35 {
        ValueStep::Move { piece: None, next: i + 1, counts: false }
    } else if t[i] == 64 {
        match ident(t, i + 1) {
            None => ValueStep::Fail,
            Some((s, e)) => match decoded(t.subrange(s, e)) {
                None => ValueStep::Fail,
                Some(name) => ValueStep::Move {
                    piece: if strs.contains_key(name) { Some(strs[name]) } else { None },
                    next: e,
                    counts: true,
                },
            },
        }
    } else {
        match ident(t, i) {
            Some((s, e)) => {
                let name = text_or_empty(t.subrange(s, e));
                ValueStep::Move {
                    piece: Some(if strs.contains_key(name) { strs[name] } else { name }),
                    next: e,
                    counts: true,
                }
            },
            None => ValueStep::Move { piece: None, next: i + 1, counts: false },
        }
    }
}

/// `out` with `piece` appended, after a space unless it is the first piece.
pub open spec fn add_piece(out: Seq<char>, piece: Option<Seq<char>>, first: bool) -> Seq<char> {
    match piece {
        Some(p) => if first { out + p } else { out.push(' ') + p },
        None => out,
    }
}

/// Read value tokens from `i` (just past white space), having collected
/// `out`: the collected text and where the value ends.
pub open spec fn value_loop(t: Seq<u8>, i: int, strs: Map<Seq<char>, Seq<char>>, out: Seq<char>, first: bool) -> Option<(Seq<char>, int)>
    decreases t.len() - i,
{
    if i < 0 || i >= t.len() {
        Some((out, i))
    } else {
        match value_step(t, i, strs) {
            ValueStep::Stop => Some((out, i)),
            ValueStep::Fail => None,
            ValueStep::Move { piece, next, counts } => {
                let j = skip_bws(t, next);
                if j <= i || j > t.len() {
                    None
                } else {
                    value_loop(t, j, strs, add_piece(out, piece, first), first && !counts)
                }
            },
        }
    }
}

/// The value of a field starting at `at`: its pieces joined by spaces and
/// trimmed, and the index where it ends.
pub open spec fn field_value(t: Seq<u8>, at: int, strs: Map<Seq<char>, Seq<char>>) -> Option<(Seq<char>, int)> {
    match value_loop(t, skip_bws(t, at), strs, Seq::empty(), true) {
        None => None,
        Some((o, i)) => Some((trim_ws(o), i)),
    }
}

/// The token at `i`; `None` when there is no value.
fn value_token(text: &[u8], i: usize, strings: &SortedMap<String>) -> (r: Option<(Option<String>, usize, bool)>)
    requires
        i < text@.len(),
        strings.wf(),
        !(text@[i as int] == 44 || text@[i as int] == 125 || text@[i as int] == 41),
    ensures
        match r {
            None => value_step(text@, i as int, field_values(strings.as_map())) is Fail,
            Some((p, nx, c)) => value_step(text@, i as int, field_values(strings.as_map())) == (ValueStep::Move {
                piece: match p { Some(x) => Some(x@), None => None },
                next: nx as int,
                counts: c,
            }) && i < nx <= text@.len(),
        },
{
    let ghost strs = field_values(strings.as_map());
    let b = text[i];
    if b == 123 {
        match read_braced(text, i) {
            Some((a, bb, e)) => Some((Some(str_or_empty(&text[a..bb]).to_owned()), e, true)),
            None => None,
        }
    } else if b == 34 {
        match read_quoted(text, i) {
            Some((a, bb, e)) => Some((Some(str_or_empty(&text[a..bb]).to_owned()), e, true)),
            None => None,
        }
    } else if b == 35 {
        Some((None, i + 1, false))
    } else if b == 64 {
        match read_ident(text, i + 1) {
            None => None,
            Some((s, e)) => match utf8_str(&text[s..e]) {
                None => None,
                Some(name) => match strings.get(name) {
                    Some(v) => Some((Some(v.clone()), e, true)),
                    None => Some((None, e, true)),
                },
            },
        }
    } else {
        match read_ident(text, i) {
            Some((s, e)) => {
                let name = str_or_empty(&text[s..e]);
                match strings.get(name) {
                    Some(v) => Some((Some(v.clone()), e, true)),
                    None => Some((Some(name.to_owned()), e, true)),
                }
            },
            None => Some((None, i + 1, false)),
        }
    }
}

/// Read a field value starting at `at`.
pub fn read_value(text: &[u8], at: usize, strings: &SortedMap<String>) -> (r: Option<(String, usize)>)
    requires
        at <= text@.len(),
        strings.wf(),
    ensures
        match r {
            Some((v, e)) => field_value(text@, at as int, field_values(strings.as_map())) == Some((v@, e as int)) && at <= e <= text@.len(),
            None => field_value(text@, at as int, field_values(strings.as_map())) is None,
        },
{
    let ghost strs = field_values(strings.as_map());
    let mut out = String::new();
    let mut first = true;
    let mut i = skip_ws(text, at);
    let ghost whole = value_loop(text@, i as int, strs, Seq::empty(), true);
    assert(out@ =~= Seq::<char>::empty());
    while i < text.len()
        invariant
            at <= i <= text@.len(),
            strings.wf(),
            strs == field_values(strings.as_map()),
            value_loop(text@, i as int, strs, out@, first) == whole,
            whole == value_loop(text@, skip_bws(text@, at as int), strs, Seq::empty(), true),
        ensures
            whole == Some((out@, i as int)),
            at <= i <= text@.len(),
            whole == value_loop(text@, skip_bws(text@, at as int), strs, Seq::empty(), true),
        decreases text@.len() - i,
    {
        let b = text[i];
        if b == 44 || b == 125 || b == 41 {
            break;
        }
        match value_token(text, i, strings) {
            None => return None,
            Some((piece, nx, counts)) => {
                let ghost old_out = out@;
                let ghost old_first = first;
                match piece {
                    Some(p) => {
                        if !first {
                            out.append(" ");
                            proof {
                                reveal_strlit(" ");
                            }
                        }
                        out.append(p.as_str());
                    },
                    None => {},
                }
                assert(out@ =~= add_piece(old_out, match piece { Some(x) => Some(x@), None => None }, old_first));
                if counts {
                    first = false;
                }
                let j = skip_ws(text, nx);
                i = j;
            },
        }
    }
    let tr = str_trim(out.as_str());
    Some((tr.to_owned(), i))
}


// ── `@string` definitions ──────────────────────────────────────────────

/// The map `m` after inserting the pairs `ps` in order.
pub open spec fn insert_pairs(m: Map<Seq<char>, Seq<char>>, ps: Seq<(Seq<char>, Seq<char>)>) -> Map<Seq<char>, Seq<char>>
    decreases ps.len(),
{
    if ps.len() == 0 {
        m
    } else {
        insert_pairs(m, ps.drop_last()).insert(ps.last().0, ps.last().1)
    }
}

/// One `name = value` of a `@string{…}` block at `q`: the definition (if
/// complete) and where scanning resumes.
pub open spec fn string_step(t: Seq<u8>, q: int) -> (Option<(Seq<char>, Seq<char>)>, int) {
    match ident(t, q) {
        Some((ns, ne)) => {
            let p2 = skip_bws(t, ne);
            if 0 <= p2 < t.len() && t[p2] == 61 {
                let p3 = skip_bws(t, p2 + 1);
                match field_value(t, p3, Map::empty()) {
                    Some((v, after)) => (Some((text_or_empty(t.subrange(ns, ne)), v)), after),
                    None => (None, p3),
                }
            } else {
                (None, p2)
            }
        },
        None => (None, q + 1),
    }
}

/// The definitions of a `@string{…}` block from `p`; `eob` is just past the
/// block.
pub open spec fn string_block(t: Seq<u8>, p: int, eob: int) -> Seq<(Seq<char>, Seq<char>)>
    decreases t.len() + 1 - p,
{
    let q = skip_bws(t, p);
    if q < p || q >= eob || q >= t.len() || t[q] == 125 {
        Seq::empty()
    } else {
        let (d, nx) = string_step(t, q);
        if nx <= q || nx > t.len() {
            Seq::empty()
        } else {
            match d {
                Some(x) => seq![x] + string_block(t, nx, eob),
                None => string_block(t, nx, eob),
            }
        }
    }
}

pub open spec fn skip_tags() -> Seq<&'static str> {
    seq!["comment", "preamble", "ignore"]
}

/// At the `@` at `i`, a `@comment`, `@preamble` or `@ignore` block (tags
/// tried from list index `k`): the index just past it.
pub open spec fn skip_block(t: Seq<u8>, i: int, k: int) -> Option<int>
    decreases skip_tags().len() - k,
{
    if k < 0 || k >= skip_tags().len() {
        None
    } else {
        let ts = skip_bws(t, i + 1);
        let w = skip_tags()[k].spec_bytes();
        if has_at(t, ts, w) {
            let probe = skip_bws(t, ts + w.len());
            if 0 <= probe < t.len() && t[probe] == 123 && braced(t, probe) is Some {
                match braced(t, probe) {
                    Some((_a, _b, e)) => Some(e),
                    None => None,
                }
            } else if 0 <= probe < t.len() && t[probe] == 40 && paren_close(t, probe + 1, 1) is Some {
                Some(paren_close(t, probe + 1, 1)->0)
            } else {
                skip_block(t, i, k + 1)
            }
        } else {
            skip_block(t, i, k + 1)
        }
    }
}

pub open spec fn string_word() -> Seq<u8> {
    "string".spec_bytes()
}

/// Where a `@string` tag at `i` has its `{` (if it does).
pub open spec fn string_open(t: Seq<u8>, i: int) -> Option<int> {
    let ts = skip_bws(t, i + 1);
    if has_at(t, ts, string_word()) {
        let probe = skip_bws(t, ts + string_word().len());
        if 0 <= probe < t.len() && t[probe] == 123 {
            Some(probe)
        } else {
            None
        }
    } else {
        None
    }
}

/// The `@string` definitions found by scanning from `i`, in order, and
/// where scanning resumes after the step at `i`.
pub open spec fn strings_step(t: Seq<u8>, i: int) -> (Seq<(Seq<char>, Seq<char>)>, int) {
    if t[i] == 37 {
        (Seq::empty(), eol_after(t, i + 1))
    } else if t[i] == 64 {
        match string_open(t, i) {
            Some(probe) => match braced(t, probe) {
                None => (Seq::empty(), probe + 1),
                Some((_a, _b, eob)) => (string_block(t, probe + 1, eob), eob),
            },
            None => match skip_block(t, i, 0) {
                Some(e) => (Seq::empty(), e),
                None => (Seq::empty(), i + 1),
            },
        }
    } else {
        (Seq::empty(), i + 1)
    }
}

pub open spec fn strings_scan(t: Seq<u8>, i: int) -> Seq<(Seq<char>, Seq<char>)>
    decreases t.len() + 1 - i,
{
    if i < 0 || i >= t.len() {
        Seq::empty()
    } else {
        let (ds, nx) = strings_step(t, i);
        if nx <= i || nx > t.len() + 1 {
            Seq::empty()
        } else {
            ds + strings_scan(t, nx)
        }
    }
}

/// The `@string` macros of a file.
pub open spec fn strings_of(t: Seq<u8>) -> Map<Seq<char>, Seq<char>> {
    insert_pairs(Map::empty(), strings_scan(t, 0))
}

proof fn lemma_field_values_insert(m: Map<Seq<char>, String>, k: String, v: String)
    ensures
        field_values(m.insert(k@, v)) == field_values(m).insert(k@, v@),
{
    assert(field_values(m.insert(k@, v)) =~= field_values(m).insert(k@, v@));
}

proof fn lemma_field_value_bounds(t: Seq<u8>, at: int, strs: Map<Seq<char>, Seq<char>>)
    requires
        0 <= at <= t.len(),
    ensures
        field_value(t, at, strs) matches Some((v, e)) ==> at <= e <= t.len(),
{
    lemma_skip_bws(t, at);
    lemma_value_loop_bounds(t, skip_bws(t, at), strs, Seq::empty(), true);
}

proof fn lemma_value_loop_bounds(t: Seq<u8>, i: int, strs: Map<Seq<char>, Seq<char>>, out: Seq<char>, first: bool)
    requires
        0 <= i <= t.len(),
    ensures
        value_loop(t, i, strs, out, first) matches Some((o, e)) ==> i <= e <= t.len(),
    decreases t.len() - i,
{
    if i < t.len() {
        match value_step(t, i, strs) {
            ValueStep::Move { piece, next, counts } => {
                let j = skip_bws(t, next);
                if !(j <= i || j > t.len()) {
                    lemma_value_loop_bounds(t, j, strs, add_piece(out, piece, first), first && !counts);
                }
            },
            _ => {},
        }
    }
}

fn string_step_at(text: &[u8], q: usize, empty: &SortedMap<String>) -> (r: (Option<(String, String)>, usize))
    requires
        q < text@.len(),
        empty.wf(),
        field_values(empty.as_map()) == Map::<Seq<char>, Seq<char>>::empty(),
    ensures
        ({
            let (d, nx) = string_step(text@, q as int);
            &&& r.1 == nx
            &&& q < r.1 <= text@.len()
            &&& match r.0 {
                Some((a, b)) => d == Some((a@, b@)),
                None => d is None,
            }
        }),
{
    let n = text.len();
    match read_ident(text, q) {
        Some((ns, ne)) => {
            let p2 = skip_ws(text, ne);
            if p2 < text.len() && text[p2] == 61 {
                let p3 = skip_ws(text, p2 + 1);
                match read_value(text, p3, empty) {
                    Some((v, after)) => {
                        let name = str_or_empty(&text[ns..ne]).to_owned();
                        (Some((name, v)), after)
                    },
                    None => (None, p3),
                }
            } else {
                (None, p2)
            }
        },
        None => (None, q + 1),
    }
}

fn read_string_block(text: &[u8], probe: usize, eob: usize, strings: &mut SortedMap<String>)
    requires
        probe < eob <= text@.len(),
        old(strings).wf(),
    ensures
        final(strings).wf(),
        field_values(final(strings).as_map()) == insert_pairs(field_values(old(strings).as_map()), string_block(text@, probe + 1, eob as int)),
{
    let empty: SortedMap<String> = SortedMap::new();
    assert(field_values(empty.as_map()) =~= Map::<Seq<char>, Seq<char>>::empty());
    let ghost base = field_values(strings.as_map());
    let ghost whole = string_block(text@, probe + 1, eob as int);
    let ghost mut done: Seq<(Seq<char>, Seq<char>)> = Seq::empty();
    let mut p = probe + 1;
    loop
        invariant
            probe + 1 <= p <= text@.len(),
            eob <= text@.len(),
            strings.wf(),
            empty.wf(),
            field_values(empty.as_map()) == Map::<Seq<char>, Seq<char>>::empty(),
            whole == string_block(text@, probe + 1, eob as int),
            base == field_values(old(strings).as_map()),
            whole == done + string_block(text@, p as int, eob as int),
            field_values(strings.as_map()) == insert_pairs(base, done),
        decreases text@.len() + 1 - p,
    {
        let q = skip_ws(text, p);
        if q >= eob || q >= text.len() || text[q] == 125 {
            assert(string_block(text@, p as int, eob as int) =~= Seq::<(Seq<char>, Seq<char>)>::empty());
            assert(whole =~= done);
            return;
        }
        let (d, nx) = string_step_at(text, q, &empty);
        match d {
            Some((name, v)) => {
                let ghost pair = (name@, v@);
                let ghost before = field_values(strings.as_map());
                strings.insert(name, v);
                proof {
                    lemma_field_values_insert(old(strings).as_map(), name, v);
                }
                assert(field_values(strings.as_map()) == before.insert(pair.0, pair.1)) by {
                    assert(field_values(strings.as_map()) =~= before.insert(pair.0, pair.1));
                }
                proof {
                    assert((done.push(pair)).drop_last() =~= done);
                    assert(whole =~= done.push(pair) + string_block(text@, nx as int, eob as int));
                    done = done.push(pair);
                }
            },
            None => {},
        }
        p = nx;
    }
}


fn skip_tag_list() -> (r: Vec<&'static str>)
    ensures
        r@ == skip_tags(),
{
    vec!["comment", "preamble", "ignore"]
}

fn skip_block_at(text: &[u8], i: usize) -> (r: Option<usize>)
    requires
        i < text@.len(),
        text@.len() <= isize::MAX,
    ensures
        match r {
            Some(e) => skip_block(text@, i as int, 0) == Some(e as int),
            None => skip_block(text@, i as int, 0) is None,
        },
        r matches Some(e) ==> i < e <= text@.len(),
{
    let tags = skip_tag_list();
    let mut k: usize = 0;
    while k < tags.len()
        invariant
            tags@ == skip_tags(),
            k <= tags@.len(),
            i < text@.len(),
            text@.len() <= isize::MAX,
            skip_block(text@, i as int, k as int) == skip_block(text@, i as int, 0),
        decreases tags@.len() - k,
    {
        let w = tags[k].as_bytes();
        let ts = skip_ws(text, i + 1);
        if starts_with_word(text, ts, w) {
            let probe = skip_ws(text, ts + w.len());
            proof {
                lemma_braced_bounds(text@, probe as int);
                lemma_paren_close(text@, probe + 1, 1);
            }
            if probe < text.len() && text[probe] == 123 {
                match read_braced(text, probe) {
                    Some((_a, _b, e)) => {
                        return Some(e);
                    },
                    None => {},
                }
            }
            if probe < text.len() && text[probe] == 40 {
                match find_matching_paren(text, probe) {
                    Some(e) => {
                        return Some(e);
                    },
                    None => {},
                }
            }
        }
        k += 1;
    }
    None
}

fn string_open_at(text: &[u8], i: usize) -> (r: Option<usize>)
    requires
        i < text@.len(),
    ensures
        match r {
            Some(p) => string_open(text@, i as int) == Some(p as int),
            None => string_open(text@, i as int) is None,
        },
        r matches Some(p) ==> i < p < text@.len(),
{
    let n = text.len();
    let ts = skip_ws(text, i + 1);
    let w = "string".as_bytes();
    if starts_with_word(text, ts, w) {
        assert(ts + w@.len() <= n);
        let probe = skip_ws(text, ts + w.len());
        if probe < text.len() && text[probe] == 123 {
            return Some(probe);
        }
    }
    None
}

/// Collect every `@string{name = value, …}` definition of `text`.
pub fn collect_strings(text: &[u8]) -> (r: SortedMap<String>)
    requires
        text@.len() <= isize::MAX,
    ensures
        r.wf(),
        field_values(r.as_map()) == strings_of(text@),
{
    let mut strings: SortedMap<String> = SortedMap::new();
    assert(field_values(strings.as_map()) =~= Map::<Seq<char>, Seq<char>>::empty());
    let ghost whole = strings_scan(text@, 0);
    let ghost mut done: Seq<(Seq<char>, Seq<char>)> = Seq::empty();
    let mut i: usize = 0;
    while i < text.len()
        invariant
            i <= text@.len() + 1,
            text@.len() <= isize::MAX,
            strings.wf(),
            whole == strings_scan(text@, 0),
            whole == done + strings_scan(text@, i as int),
            field_values(strings.as_map()) == insert_pairs(Map::empty(), done),
        decreases text@.len() + 1 - i,
    {
        let ghost st = strings_step(text@, i as int);
        if text[i] == 37 {
            proof {
                lemma_eol_after_bounds(text@, i + 1);
            }
            let nx = skip_to_eol(text, i + 1);
            assert(done + st.0 =~= done);
            i = nx;
            continue;
        }
        if text[i] == 64 {
            match string_open_at(text, i) {
                Some(probe) => {
                    match read_braced(text, probe) {
                        None => {
                            assert(done + st.0 =~= done);
                            i = probe + 1;
                            continue;
                        },
                        Some((_a, _b, eob)) => {
                            let ghost before = done;
                            read_string_block(text, probe, eob, &mut strings);
                            proof {
                                lemma_insert_pairs_append(Map::empty(), before, st.0);
                                done = before + st.0;
                                assert(whole =~= done + strings_scan(text@, eob as int));
                            }
                            i = eob;
                            continue;
                        },
                    }
                },
                None => {
                    match skip_block_at(text, i) {
                        Some(e) => {
                            assert(done + st.0 =~= done);
                            if e <= i || e > text.len() {
                                assert(strings_scan(text@, i as int) =~= Seq::<(Seq<char>, Seq<char>)>::empty());
                                assert(whole =~= done);
                                return strings;
                            }
                            i = e;
                            continue;
                        },
                        None => {},
                    }
                },
            }
        }
        assert(done + st.0 =~= done);
        i += 1;
    }
    assert(whole =~= done);
    strings
}

proof fn lemma_insert_pairs_append(m: Map<Seq<char>, Seq<char>>, a: Seq<(Seq<char>, Seq<char>)>, b: Seq<(Seq<char>, Seq<char>)>)
    ensures
        insert_pairs(m, a + b) == insert_pairs(insert_pairs(m, a), b),
    decreases b.len(),
{
    if b.len() == 0 {
        assert(a + b =~= a);
    } else {
        assert((a + b).drop_last() =~= a + b.drop_last());
        lemma_insert_pairs_append(m, a, b.drop_last());
    }
}


// ── entries ────────────────────────────────────────────────────────────

/// One `name = value` of an entry body at `q`: `None` when the value is
/// malformed (the body ends there); otherwise the field recorded (if the
/// name is not empty) and where scanning resumes.
pub open spec fn field_step(t: Seq<u8>, q: int, strs: Map<Seq<char>, Seq<char>>) -> Option<(Option<(Seq<char>, Seq<char>)>, int)> {
    match ident(t, q) {
        Some((fs, fe)) => {
            let fname = text_or_empty(lower_seq(t.subrange(fs, fe)));
            let p2 = skip_bws(t, fe);
            if 0 <= p2 < t.len() && t[p2] == 61 {
                match field_value(t, skip_bws(t, p2 + 1), strs) {
                    Some((v, after)) => Some((if fname.len() > 0 { Some((fname, v)) } else { None }, after)),
                    None => None,
                }
            } else {
                Some((None, fe + 1))
            }
        },
        None => Some((None, q + 1)),
    }
}

/// The fields of an entry body from `p`; `be` is just past the body.
pub open spec fn field_list(t: Seq<u8>, p: int, be: int, strs: Map<Seq<char>, Seq<char>>) -> Seq<(Seq<char>, Seq<char>)>
    decreases t.len() + 2 - p,
{
    let q = skip_bws(t, p);
    if q < p || q >= be || q >= t.len() || t[q] == 125 {
        Seq::empty()
    } else {
        match field_step(t, q, strs) {
            None => Seq::empty(),
            Some((d, nx)) => if nx <= q || nx > t.len() + 1 {
                Seq::empty()
            } else {
                match d {
                    Some(x) => seq![x] + field_list(t, nx, be, strs),
                    None => field_list(t, nx, be, strs),
                }
            },
        }
    }
}

/// Entry types that hold no entry.
pub open spec fn noop_types() -> Seq<&'static str> {
    seq!["string", "comment", "preamble", "ignore"]
}

/// At the `@` at `i`: the entry recorded (if any) and where scanning resumes.
pub open spec fn entry_at(t: Seq<u8>, path: Seq<char>, i: int, strs: Map<Seq<char>, Seq<char>>) -> (Option<BibView>, int) {
    match ident(t, skip_bws(t, i + 1)) {
        None => (None, i + 1),
        Some((tys, tye)) => {
            let ety = text_or_empty(lower_seq(t.subrange(tys, tye)));
            let probe = skip_bws(t, tye);
            if is_one_of(encode_utf8(ety), noop_types()) {
                let skipped = if encode_utf8(ety) == string_word() {
                    None
                } else if 0 <= probe < t.len() && t[probe] == 123 {
                    match braced(t, probe) {
                        Some((_a, _b, e)) => Some(e),
                        None => None,
                    }
                } else if 0 <= probe < t.len() && t[probe] == 40 {
                    paren_close(t, probe + 1, 1)
                } else {
                    None
                };
                match skipped {
                    Some(e) => (None, e),
                    None => (None, tye),
                }
            } else if !(0 <= probe < t.len() && t[probe] == 123) {
                (None, tye)
            } else {
                match braced(t, probe) {
                    None => (None, i + 1),
                    Some((_a, _b, be)) => match entry_key(t, skip_bws(t, probe + 1)) {
                        None => (None, be),
                        Some((key, ke)) => {
                            let p2 = skip_bws(t, ke);
                            let p3 = if 0 <= p2 < t.len() && t[p2] == 44 { p2 + 1 } else { p2 };
                            (Some(BibView {
                                key,
                                file: path,
                                offset: i,
                                fields: insert_pairs(Map::empty(), field_list(t, p3, be, strs)),
                                ordered: true,
                                entry_type: ety,
                            }), be)
                        },
                    },
                }
            }
        },
    }
}

/// The entries found by scanning from `i`, in order.
pub open spec fn bib_scan(t: Seq<u8>, path: Seq<char>, i: int, strs: Map<Seq<char>, Seq<char>>) -> Seq<BibView>
    decreases t.len() + 1 - i,
{
    if i < 0 || i >= t.len() {
        Seq::empty()
    } else {
        let (e, nx) = if t[i] == 37 {
            (None, eol_after(t, i + 1))
        } else if t[i] != 64 {
            (None, i + 1)
        } else {
            entry_at(t, path, i, strs)
        };
        if nx <= i || nx > t.len() + 1 {
            Seq::empty()
        } else {
            match e {
                Some(v) => seq![v] + bib_scan(t, path, nx, strs),
                None => bib_scan(t, path, nx, strs),
            }
        }
    }
}

/// The bibliography map `m` after inserting `es` in order.
pub open spec fn insert_bibs(m: BibsView, es: Seq<BibView>) -> BibsView
    decreases es.len(),
{
    if es.len() == 0 {
        m
    } else {
        insert_bibs(m, es.drop_last()).insert(es.last().key, es.last())
    }
}

fn field_step_at(text: &[u8], q: usize, strings: &SortedMap<String>) -> (r: Option<(Option<(String, String)>, usize)>)
    requires
        q < text@.len(),
        text@.len() <= isize::MAX,
        strings.wf(),
    ensures
        match r {
            None => field_step(text@, q as int, field_values(strings.as_map())) is None,
            Some((d, nx)) => field_step(text@, q as int, field_values(strings.as_map())) == Some((
                match d { Some((a, b)) => Some((a@, b@)), None => None },
                nx as int,
            )) && q < nx <= text@.len() + 1,
        },
{
    match read_ident(text, q) {
        Some((fs, fe)) => {
            let lowered = lower_bytes(&text[fs..fe]);
            let fname = match string_from_utf8(lowered) {
                Some(f) => f,
                None => String::new(),
            };
            let p2 = skip_ws(text, fe);
            if p2 < text.len() && text[p2] == 61 {
                let p3 = skip_ws(text, p2 + 1);
                proof {
                    lemma_field_value_bounds(text@, p3 as int, field_values(strings.as_map()));
                }
                match read_value(text, p3, strings) {
                    Some((v, after)) => {
                        if fname.as_str().is_empty() {
                            Some((None, after))
                        } else {
                            Some((Some((fname, v)), after))
                        }
                    },
                    None => None,
                }
            } else {
                Some((None, fe + 1))
            }
        },
        None => Some((None, q + 1)),
    }
}

fn read_fields(text: &[u8], p0: usize, be: usize, strings: &SortedMap<String>) -> (r: SortedMap<String>)
    requires
        p0 <= text@.len() + 1,
        be <= text@.len(),
        text@.len() <= isize::MAX,
        strings.wf(),
    ensures
        r.wf(),
        field_values(r.as_map()) == insert_pairs(Map::empty(), field_list(text@, p0 as int, be as int, field_values(strings.as_map()))),
{
    let ghost strs = field_values(strings.as_map());
    let mut fields: SortedMap<String> = SortedMap::new();
    assert(field_values(fields.as_map()) =~= Map::<Seq<char>, Seq<char>>::empty());
    let ghost whole = field_list(text@, p0 as int, be as int, strs);
    let ghost mut done: Seq<(Seq<char>, Seq<char>)> = Seq::empty();
    let mut p = p0;
    loop
        invariant
            p0 <= p <= text@.len() + 1,
            be <= text@.len(),
            text@.len() <= isize::MAX,
            strings.wf(),
            fields.wf(),
            strs == field_values(strings.as_map()),
            whole == field_list(text@, p0 as int, be as int, strs),
            whole == done + field_list(text@, p as int, be as int, strs),
            field_values(fields.as_map()) == insert_pairs(Map::empty(), done),
        decreases text@.len() + 2 - p,
    {
        let q = skip_ws(text, p);
        if q >= be || q >= text.len() || text[q] == 125 {
            assert(whole =~= done);
            return fields;
        }
        match field_step_at(text, q, strings) {
            None => {
                assert(whole =~= done);
                return fields;
            },
            Some((d, nx)) => {
                match d {
                    Some((name, v)) => {
                        let ghost pair = (name@, v@);
                        let ghost before = field_values(fields.as_map());
                        let ghost old_map = fields.as_map();
                        fields.insert(name, v);
                        proof {
                            lemma_field_values_insert(old_map, name, v);
                            assert(whole =~= done.push(pair) + field_list(text@, nx as int, be as int, strs));
                            assert(done.push(pair).drop_last() =~= done);
                            done = done.push(pair);
                        }
                    },
                    None => {},
                }
                p = nx;
            },
        }
    }
}

fn noop_type_list() -> (r: Vec<&'static str>)
    ensures
        r@ == noop_types(),
{
    vec!["string", "comment", "preamble", "ignore"]
}

/// Read the entry whose `@` is at `i`.
fn read_entry(text: &[u8], path: &str, i: usize, strings: &SortedMap<String>) -> (r: (Option<BibEntry>, usize))
    requires
        i < text@.len(),
        text@[i as int] == 64,
        text@.len() <= isize::MAX,
        strings.wf(),
    ensures
        ({
            let (e, nx) = entry_at(text@, path@, i as int, field_values(strings.as_map()));
            &&& r.1 == nx
            &&& i < r.1 <= text@.len()
            &&& match r.0 {
                Some(b) => e == Some(bib_view(b)),
                None => e is None,
            }
        }),
{
    let n = text.len();
    let ts = skip_ws(text, i + 1);
    let (tys, tye) = match read_ident(text, ts) {
        Some(x) => x,
        None => return (None, i + 1),
    };
    let lowered = lower_bytes(&text[tys..tye]);
    let ety = match string_from_utf8(lowered) {
        Some(f) => f,
        None => String::new(),
    };
    let probe = skip_ws(text, tye);
    let noops = noop_type_list();
    if one_of(ety.as_str().as_bytes(), noops.as_slice()) {
        if !bytes_eq(ety.as_str().as_bytes(), "string".as_bytes()) {
            if probe < n && text[probe] == 123 {
                proof {
                    lemma_braced_bounds(text@, probe as int);
                }
                match read_braced(text, probe) {
                    Some((_a, _b, e)) => return (None, e),
                    None => {},
                }
            } else if probe < n && text[probe] == 40 {
                match find_matching_paren(text, probe) {
                    Some(e) => return (None, e),
                    None => {},
                }
            }
        }
        return (None, tye);
    }
    if !(probe < n && text[probe] == 123) {
        return (None, tye);
    }
    let (_a, _b, be) = match read_braced(text, probe) {
        Some(x) => x,
        None => return (None, i + 1),
    };
    let kp = skip_ws(text, probe + 1);
    let (ke, key) = match read_entry_key(text, kp) {
        Some(x) => x,
        None => return (None, be),
    };
    let p2 = skip_ws(text, ke);
    let p3 = if p2 < n && text[p2] == 44 { p2 + 1 } else { p2 };
    let fields = read_fields(text, p3, be, strings);
    let entry = BibEntry { key, file: path.to_owned(), offset: i, fields, entry_type: ety };
    (Some(entry), be)
}

/// The entries of a `.bib` file (the contents `text` of the file at
/// `path`), in order.
pub fn collect_bib_entries(text: &str, path: &str) -> (r: Vec<BibEntry>)
    requires
        text.spec_bytes().len() <= isize::MAX,
    ensures
        r@.map_values(|e: BibEntry| bib_view(e)) == bib_scan(text.spec_bytes(), path@, 0, strings_of(text.spec_bytes())),
{
    let bytes = text.as_bytes();
    let strings = collect_strings(bytes);
    let ghost strs = field_values(strings.as_map());
    let mut out: Vec<BibEntry> = Vec::new();
    let ghost whole = bib_scan(bytes@, path@, 0, strs);
    let mut i: usize = 0;
    while i < bytes.len()
        invariant
            i <= bytes@.len() + 1,
            bytes@ == text.spec_bytes(),
            bytes@.len() <= isize::MAX,
            strings.wf(),
            strs == field_values(strings.as_map()),
            strs == strings_of(bytes@),
            whole == bib_scan(bytes@, path@, 0, strs),
            whole == out@.map_values(|e: BibEntry| bib_view(e)) + bib_scan(bytes@, path@, i as int, strs),
        decreases bytes@.len() + 1 - i,
    {
        let ghost old_out = out@;
        if bytes[i] == 37 {
            proof {
                lemma_eol_after_bounds(bytes@, i + 1);
            }
            i = skip_to_eol(bytes, i + 1);
            continue;
        }
        if bytes[i] != 64 {
            i += 1;
            continue;
        }
        let (e, nx) = read_entry(bytes, path, i, &strings);
        match e {
            Some(b) => {
                out.push(b);
                assert(out@.map_values(|e: BibEntry| bib_view(e)) =~= old_out.map_values(|e: BibEntry| bib_view(e)).push(bib_view(b)));
            },
            None => {},
        }
        i = nx;
    }
    assert(out@.map_values(|e: BibEntry| bib_view(e)) + bib_scan(bytes@, path@, i as int, strs) =~= out@.map_values(|e: BibEntry| bib_view(e)));
    out
}

proof fn lemma_insert_bibs_ordered(m: BibsView, es: Seq<BibView>)
    requires
        bibs_ordered(m),
        forall|k: int| 0 <= k < es.len() ==> (#[trigger] es[k]).ordered,
    ensures
        bibs_ordered(insert_bibs(m, es)),
    decreases es.len(),
{
    if es.len() > 0 {
        assert forall|k: int| 0 <= k < es.drop_last().len() implies (#[trigger] es.drop_last()[k]).ordered by {
            assert(es.drop_last()[k] == es[k]);
        }
        lemma_insert_bibs_ordered(m, es.drop_last());
        assert(es[es.len() - 1].ordered);
    }
}

/// Parse a `.bib` file (the contents `text` of the file at `path`) and
/// record every entry in `index`, replacing the entries recorded earlier
/// from `path`.
pub fn parse_bibtex(text: &str, path: &str, index: &mut Index)
    requires
        text.spec_bytes().len() <= isize::MAX,
        old(index).wf(),
    ensures
        final(index).wf(),
        bib_map(final(index).bib) == insert_bibs(
            bibs_not_from(bib_map(old(index).bib), path@),
            bib_scan(text.spec_bytes(), path@, 0, strings_of(text.spec_bytes())),
        ),
        final(index).labels == old(index).labels,
        final(index).macros == old(index).macros,
{
    retain_bibs_not_from(&mut index.bib, path);
    let ghost base = bib_map(index.bib);
    let entries = collect_bib_entries(text, path);
    let ghost es = entries@.map_values(|e: BibEntry| bib_view(e));
    for e in it: entries.into_iter()
        invariant
            es == it.seq().map_values(|e: BibEntry| bib_view(e)),
            bib_map(index.bib) == insert_bibs(base, es.take(it.index() as int)),
            base == bibs_not_from(bib_map(old(index).bib), path@),
            index.labels == old(index).labels,
            index.macros == old(index).macros,
    {
        proof {
            assert(es.take(it.index() + 1).drop_last() =~= es.take(it.index() as int));
        }
        let k = e.key.clone();
        insert_bib(&mut index.bib, k, e);
    }
    assert(es.take(es.len() as int) =~= es);
    proof {
        let ob = bib_map(old(index).bib);
        assert forall|k: Seq<char>| #[trigger] base.dom().contains(k) implies base[k].ordered by {
            assert(ob.dom().contains(k));
        }
        lemma_bib_scan_ordered(text.spec_bytes(), path@, 0, strings_of(text.spec_bytes()));
        lemma_insert_bibs_ordered(base, es);
    }
}

proof fn lemma_bib_scan_ordered(t: Seq<u8>, path: Seq<char>, i: int, strs: Map<Seq<char>, Seq<char>>)
    ensures
        forall|k: int| 0 <= k < bib_scan(t, path, i, strs).len() ==> (#[trigger] bib_scan(t, path, i, strs)[k]).ordered,
    decreases t.len() + 1 - i,
{
    if !(i < 0 || i >= t.len()) {
        let (e, nx) = if t[i] == 37 {
            (None, eol_after(t, i + 1))
        } else if t[i] != 64 {
            (None, i + 1)
        } else {
            entry_at(t, path, i, strs)
        };
        if !(nx <= i || nx > t.len() + 1) {
            lemma_bib_scan_ordered(t, path, nx, strs);
            let rest = bib_scan(t, path, nx, strs);
            match e {
                Some(v) => {
                    assert forall|k: int| 0 <= k < (seq![v] + rest).len() implies (#[trigger] (seq![v] + rest)[k]).ordered by {
                        if k > 0 {
                            assert((seq![v] + rest)[k] == rest[k - 1]);
                        }
                    }
                },
                None => {},
            }
        }
    }
}

} // verus!
