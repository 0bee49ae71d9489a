//! Markdown hover text: citation cards, reference headers, fenced snippets.
use vstd::prelude::*;
use vstd::string::{StringSliceAdditionalSpecFns, StringExecFns};
use vstd::utf8::encode_utf8;
use crate::text::{is_white_space, trim_ws, str_trim, str_eq, str_one_of, is_one_of};
use crate::chars::{chars_of, push_char, string_of, string_of_all};
use crate::sorted_map::SortedMap;
use crate::index::{BibEntry, LabelEntry, field_values};
use crate::math::{spec_math_envs, math_envs};
use crate::dict::{DictEntry, DocKind};
use base64::Engine;

verus! {

// ── white space ────────────────────────────────────────────────────────

/// `char::is_whitespace`.
pub fn is_ws_char(c: char) -> (r: bool)
    ensures
        r == is_white_space(c),
{
    let u = c as u32;
    (9 <= u && u <= 13) || u == 32 || u == 0x85 || u == 0xA0 || u == 0x1680 || (0x2000 <= u
        && u <= 0x200A) || u == 0x2028 || u == 0x2029 || u == 0x202F || u == 0x205F || u
        == 0x3000
}

/// The words of `s` (its maximal runs of non-white-space characters),
/// joined by single spaces.
pub open spec fn squeeze(s: Seq<char>) -> Seq<char>
    decreases s.len(),
{
    if s.len() == 0 {
        Seq::empty()
    } else {
        let t = squeeze(s.drop_last());
        let c = s.last();
        if is_white_space(c) {
            t
        } else if s.len() >= 2 && is_white_space(s[s.len() - 2]) && t.len() > 0 {
            t.push(' ').push(c)
        } else {
            t.push(c)
        }
    }
}

/// Collapse white space: the words of `v`, joined by single spaces.
pub fn squeeze_chars(v: &[char]) -> (r: String)
    ensures
        r@ == squeeze(v@),
{
    let mut out = String::new();
    let mut i: usize = 0;
    assert(v@.take(0) =~= Seq::<char>::empty());
    while i < v.len()
        invariant
            i <= v@.len(),
            out@ == squeeze(v@.take(i as int)),
        decreases v@.len() - i,
    {
        let c = v[i];
        assert(v@.take(i + 1).drop_last() =~= v@.take(i as int));
        if !is_ws_char(c) {
            if i >= 1 && is_ws_char(v[i - 1]) && out.as_str().unicode_len() > 0 {
                push_char(&mut out, ' ');
            }
            push_char(&mut out, c);
        }
        i += 1;
    }
    assert(v@.take(v@.len() as int) =~= v@);
    out
}

// ── outer braces ───────────────────────────────────────────────────────

/// Scan from `i` at brace depth `depth`: true when the braces close
/// exactly at the last character (a backslash hides the next character).
pub open spec fn closes_at_end(s: Seq<char>, i: int, depth: int) -> bool
    decreases s.len() + 1 - i,
{
    if i < 0 || i >= s.len() {
        depth == 0
    } else if s[i] == '\\' {
        closes_at_end(s, i + 2, depth)
    } else if s[i] == '{' {
        closes_at_end(s, i + 1, depth + 1)
    } else if s[i] == '}' {
        if depth - 1 == 0 && i != s.len() - 1 {
            false
        } else {
            closes_at_end(s, i + 1, depth - 1)
        }
    } else {
        closes_at_end(s, i + 1, depth)
    }
}

/// `s` is one braced group `{…}` whose outer braces match each other.
pub open spec fn outer_braced(s: Seq<char>) -> bool {
    s.len() >= 2 && s[0] == '{' && s.last() == '}' && closes_at_end(s, 0, 0)
}

/// `s` without one pair of matching outer braces.
pub open spec fn strip_outer(s: Seq<char>) -> Seq<char> {
    if outer_braced(s) {
        s.subrange(1, s.len() - 1)
    } else {
        s
    }
}

fn is_outer_braced(v: &[char]) -> (r: bool)
    ensures
        r == outer_braced(v@),
{
    let n = v.len();
    if n < 2 || v[0] != '{' || v[n - 1] != '}' {
        return false;
    }
    let mut depth: usize = 0;
    let mut i: usize = 0;
    while i < n
        invariant
            n == v@.len(),
            n >= 2,
            v@[0] == '{',
            i <= n,
            depth <= i,
            i > 0 ==> depth >= 1 || i == n,
            closes_at_end(v@, i as int, depth as int) == closes_at_end(v@, 0, 0),
        decreases n - i,
    {
        let c = v[i];
        if c == '\\' {
            assert(closes_at_end(v@, i as int, depth as int) == closes_at_end(v@, i + 2, depth as int));
            i = if n - i > 2 { i + 2 } else { n };
        } else if c == '{' {
            depth += 1;
            i += 1;
        } else if c == '}' {
            if depth == 1 && i != n - 1 {
                return false;
            }
            depth -= 1;
            i += 1;
        } else {
            i += 1;
        }
    }
    depth == 0
}

/// Remove one pair of matching outer braces.
pub fn strip_outer_braces(s: &str) -> (r: String)
    ensures
        r@ == strip_outer(s@),
{
    let v = chars_of(s);
    if is_outer_braced(v.as_slice()) {
        string_of(v.as_slice(), 1, v.len() - 1)
    } else {
        s.to_owned()
    }
}

/// A field value as shown: trimmed, outer braces removed, white space
/// collapsed to single spaces.
pub open spec fn clean_value(raw: Seq<char>) -> Seq<char> {
    squeeze(strip_outer(trim_ws(raw)))
}

pub fn clean_field_value(raw: &str) -> (r: String)
    ensures
        r@ == clean_value(raw@),
{
    let stripped = strip_outer_braces(str_trim(raw));
    let v = chars_of(stripped.as_str());
    squeeze_chars(v.as_slice())
}


// ── joining lines ──────────────────────────────────────────────────────

/// `lines` joined with `sep` between consecutive lines.
pub open spec fn join(lines: Seq<Seq<char>>, sep: Seq<char>) -> Seq<char>
    decreases lines.len(),
{
    if lines.len() == 0 {
        Seq::empty()
    } else if lines.len() == 1 {
        lines[0]
    } else {
        join(lines.drop_last(), sep) + sep + lines.last()
    }
}

pub open spec fn views(v: Seq<String>) -> Seq<Seq<char>> {
    v.map_values(|s: String| s@)
}

pub fn join_strings(lines: &Vec<String>, sep: &str) -> (r: String)
    ensures
        r@ == join(views(lines@), sep@),
{
    let mut out = String::new();
    let mut k: usize = 0;
    while k < lines.len()
        invariant
            k <= lines@.len(),
            out@ == join(views(lines@.take(k as int)), sep@),
        decreases lines@.len() - k,
    {
        assert(views(lines@.take(k + 1)).drop_last() =~= views(lines@.take(k as int)));
        if k > 0 {
            out.append(sep);
        }
        out.append(lines[k].as_str());
        proof {
            if k == 0 {
                assert(views(lines@.take(1)) =~= seq![lines@[0]@]);
            }
        }
        k += 1;
    }
    assert(lines@.take(lines@.len() as int) =~= lines@);
    out
}

// ── substrings ─────────────────────────────────────────────────────────

pub open spec fn starts_with(h: Seq<char>, n: Seq<char>) -> bool {
    n.len() <= h.len() && h.subrange(0, n.len() as int) == n
}

pub open spec fn contains(h: Seq<char>, n: Seq<char>) -> bool {
    exists|j: int| 0 <= j && j + n.len() <= h.len() && #[trigger] h.subrange(j, j + n.len()) == n
}

fn match_at(h: &[char], j: usize, n: &[char]) -> (r: bool)
    requires
        j + n@.len() <= h@.len(),
    ensures
        r == (h@.subrange(j as int, j + n@.len()) == n@),
{
    let hl = h.len();
    let mut k: usize = 0;
    while k < n.len()
        invariant
            hl == h@.len(),
            j + n@.len() <= h@.len(),
            k <= n@.len(),
            forall|q: int| 0 <= q < k ==> h@[j + q] == n@[q],
        decreases n@.len() - k,
    {
        if h[j + k] != n[k] {
            assert(h@.subrange(j as int, j + n@.len())[k as int] != n@[k as int]);
            return false;
        }
        k += 1;
    }
    assert(h@.subrange(j as int, j + n@.len()) =~= n@);
    true
}

pub fn chars_start_with(h: &[char], n: &[char]) -> (r: bool)
    ensures
        r == starts_with(h@, n@),
{
    if n.len() > h.len() {
        return false;
    }
    match_at(h, 0, n)
}

pub fn chars_contain(h: &[char], n: &[char]) -> (r: bool)
    ensures
        r == contains(h@, n@),
{
    if n.len() > h.len() {
        return false;
    }
    if n.len() == 0 {
        assert(h@.subrange(0, 0int + n@.len()) =~= n@);
        return true;
    }
    let hl = h.len();
    let nl = n.len();
    let mut j: usize = 0;
    while j <= hl - nl
        invariant
            hl == h@.len(),
            nl == n@.len(),
            nl >= 1,
            n@.len() <= h@.len(),
            j <= h@.len() - n@.len() + 1,
            forall|q: int| 0 <= q < j ==> #[trigger] h@.subrange(q, q + n@.len()) != n@,
        decreases h@.len() - j + 1,
    {
        if match_at(h, j, n) {
            return true;
        }
        j += 1;
    }
    false
}

// ── citation cards ─────────────────────────────────────────────────────

/// `Some(s)` when `s` is not empty.
pub open spec fn nonempty(s: Seq<char>) -> Option<Seq<char>> {
    if s.len() > 0 {
        Some(s)
    } else {
        None
    }
}

/// A cleaned field, if present and not empty.
pub open spec fn cleaned_field(f: Map<Seq<char>, Seq<char>>, key: Seq<char>) -> Option<Seq<char>> {
    if f.contains_key(key) {
        nonempty(clean_value(f[key]))
    } else {
        None
    }
}

/// The heading line of a citation card: author, year and title as present.
pub open spec fn heading(f: Map<Seq<char>, Seq<char>>) -> Option<Seq<char>> {
    let a = cleaned_field(f, "author"@);
    let y = if f.contains_key("year"@) { nonempty(trim_ws(f["year"@])) } else { None };
    let t = cleaned_field(f, "title"@);
    match (a, y, t) {
        (Some(a), Some(y), Some(t)) => Some(a + " "@ + y + " - *"@ + t + "*"@),
        (Some(a), _, Some(t)) => Some(a + " - *"@ + t + "*"@),
        (_, Some(y), Some(t)) => Some(y + " - *"@ + t + "*"@),
        (_, _, Some(t)) => Some("*"@ + t + "*"@),
        (Some(a), _, _) => Some(a),
        (_, Some(y), _) => Some(y),
        _ => None,
    }
}

fn get_cleaned(fields: &SortedMap<String>, key: &str) -> (r: Option<String>)
    requires
        fields.wf(),
    ensures
        match r {
            Some(s) => cleaned_field(field_values(fields.as_map()), key@) == Some(s@),
            None => cleaned_field(field_values(fields.as_map()), key@) is None,
        },
{
    match fields.get(key) {
        Some(v) => {
            let c = clean_field_value(v.as_str());
            if c.as_str().unicode_len() > 0 {
                Some(c)
            } else {
                None
            }
        },
        None => None,
    }
}

/// The heading line of a citation card.
pub fn cite_heading(entry: &BibEntry) -> (r: Option<String>)
    requires
        entry.fields.wf(),
    ensures
        match r {
            Some(s) => heading(field_values(entry.fields.as_map())) == Some(s@),
            None => heading(field_values(entry.fields.as_map())) is None,
        },
{
    let a = get_cleaned(&entry.fields, "author");
    let y = match entry.fields.get("year") {
        Some(v) => {
            let t = str_trim(v.as_str());
            if t.unicode_len() > 0 {
                Some(t.to_owned())
            } else {
                None
            }
        },
        None => None,
    };
    let t = get_cleaned(&entry.fields, "title");
    match (a, y, t) {
        (Some(a), Some(y), Some(t)) => {
            let mut s = a;
            s.append(" ");
            s.append(y.as_str());
            s.append(" - *");
            s.append(t.as_str());
            s.append("*");
            Some(s)
        },
        (Some(a), None, Some(t)) => {
            let mut s = a;
            s.append(" - *");
            s.append(t.as_str());
            s.append("*");
            Some(s)
        },
        (None, Some(y), Some(t)) => {
            let mut s = y;
            s.append(" - *");
            s.append(t.as_str());
            s.append("*");
            Some(s)
        },
        (None, None, Some(t)) => {
            let mut s = String::from_str("*");
            s.append(t.as_str());
            s.append("*");
            Some(s)
        },
        (Some(a), _, None) => Some(a),
        (None, Some(y), None) => Some(y),
        (None, None, None) => None,
    }
}

/// The labelled fields of a citation card, in order: (label, field name).
pub open spec fn cite_rows() -> Seq<(&'static str, &'static str)> {
    seq![
        ("Authors", "author"), ("Editor", "editor"), ("Publisher", "publisher"),
        ("Journal", "journal"), ("Booktitle", "booktitle"), ("Volume", "volume"),
        ("Number", "number"), ("Pages", "pages"), ("Series", "series"),
        ("Edition", "edition"), ("Address", "address"), ("DOI", "doi"), ("URL", "url"),
        ("Year", "year"),
    ]
}

fn cite_row_list() -> (r: Vec<(&'static str, &'static str)>)
    ensures
        r@ == cite_rows(),
{
    vec![
        ("Authors", "author"), ("Editor", "editor"), ("Publisher", "publisher"),
        ("Journal", "journal"), ("Booktitle", "booktitle"), ("Volume", "volume"),
        ("Number", "number"), ("Pages", "pages"), ("Series", "series"),
        ("Edition", "edition"), ("Address", "address"), ("DOI", "doi"), ("URL", "url"),
        ("Year", "year"),
    ]
}

/// Rows of the card from row `k` on, added to `lines`.  The author row is
/// left out when the heading starts with the authors, the year row when the
/// heading holds the year.
pub open spec fn cite_fold(f: Map<Seq<char>, Seq<char>>, lines: Seq<Seq<char>>, k: int) -> Seq<Seq<char>>
    decreases cite_rows().len() - k,
{
    if k < 0 || k >= cite_rows().len() {
        lines
    } else {
        let label = cite_rows()[k].0@;
        let key = cite_rows()[k].1@;
        let next = match cleaned_field(f, key) {
            None => lines,
            Some(c) => if k == 13 && lines.len() > 0 && contains(lines[0], c) {
                lines
            } else if k == 0 && lines.len() > 0 && starts_with(lines[0], c) {
                lines
            } else {
                lines.push(label + ": "@ + c)
            },
        };
        cite_fold(f, next, k + 1)
    }
}

/// The markdown card for a BibTeX entry whose file is shown as `file`.
pub open spec fn cite_card(f: Map<Seq<char>, Seq<char>>, file: Seq<char>) -> Seq<char> {
    let l0 = match heading(f) {
        Some(h) => seq![h],
        None => Seq::empty(),
    };
    let l1 = cite_fold(f, l0, 0);
    let l2 = match cleaned_field(f, "abstract"@) {
        Some(a) => l1.push(Seq::empty()).push("> "@ + a),
        None => l1,
    };
    join(l2.push(Seq::empty()).push("File: "@ + short(file) + ":1"@), "\n"@)
}

/// `h` ends with `n`.
pub open spec fn ends_with(h: Seq<char>, n: Seq<char>) -> bool {
    n.len() <= h.len() && h.subrange(h.len() - n.len(), h.len() as int) == n
}

proof fn lemma_join_first(lines: Seq<Seq<char>>, sep: Seq<char>)
    requires
        lines.len() > 0,
    ensures
        starts_with(join(lines, sep), lines[0]),
    decreases lines.len(),
{
    if lines.len() > 1 {
        let d = lines.drop_last();
        lemma_join_first(d, sep);
        assert(d[0] == lines[0]);
        let j = join(d, sep);
        assert((j + sep + lines.last()).subrange(0, lines[0].len() as int) =~= j.subrange(0, lines[0].len() as int));
    } else {
        assert(lines[0].subrange(0, lines[0].len() as int) =~= lines[0]);
    }
}

proof fn lemma_cite_fold_first(f: Map<Seq<char>, Seq<char>>, lines: Seq<Seq<char>>, k: int)
    requires
        lines.len() > 0,
    ensures
        cite_fold(f, lines, k).len() > 0,
        cite_fold(f, lines, k)[0] == lines[0],
    decreases cite_rows().len() - k,
{
    if 0 <= k < cite_rows().len() {
        let label = cite_rows()[k].0@;
        let key = cite_rows()[k].1@;
        match cleaned_field(f, key) {
            None => lemma_cite_fold_first(f, lines, k + 1),
            Some(c) => {
                if k == 13 && contains(lines[0], c) {
                    lemma_cite_fold_first(f, lines, k + 1);
                } else if k == 0 && starts_with(lines[0], c) {
                    lemma_cite_fold_first(f, lines, k + 1);
                } else {
                    lemma_cite_fold_first(f, lines.push(label + ": "@ + c), k + 1);
                }
            },
        }
    }
}

/// The heading of a citation card: whenever the entry has a non-blank
/// title, the heading ends with that title in italics (`*title*`), whatever
/// author or year come before it, and so the card shows it; the heading
/// starts with the author when there is one, and otherwise with the year
/// when there is one; the card starts with the heading; and there is a
/// heading exactly when author, year or title is present.
pub proof fn law_cite_heading(f: Map<Seq<char>, Seq<char>>, file: Seq<char>)
    ensures
        ({
            let a = cleaned_field(f, "author"@);
            let y = if f.contains_key("year"@) { nonempty(trim_ws(f["year"@])) } else { None };
            let t = cleaned_field(f, "title"@);
            &&& t matches Some(tt) ==> (heading(f) matches Some(h) && ends_with(h, "*"@ + tt + "*"@)
                && contains(cite_card(f, file), "*"@ + tt + "*"@))
            &&& a matches Some(aa) ==> (heading(f) matches Some(h) && starts_with(h, aa))
            &&& (a is None && y is Some) ==> (heading(f) matches Some(h) && starts_with(h, y->0))
            &&& heading(f) matches Some(h) ==> starts_with(cite_card(f, file), h)
            &&& (heading(f) is None <==> (a is None && y is None && t is None))
        }),
{
    reveal_strlit("*");
    reveal_strlit(" - *");
    reveal_strlit(" ");
    let a = cleaned_field(f, "author"@);
    let y = if f.contains_key("year"@) { nonempty(trim_ws(f["year"@])) } else { None };
    let t = cleaned_field(f, "title"@);
    match (a, y, t) {
        (Some(aa), Some(yy), Some(tt)) => {
            let h = aa + " "@ + yy + " - *"@ + tt + "*"@;
            assert(h.subrange(h.len() - (tt.len() + 2), h.len() as int) =~= "*"@ + tt + "*"@);
            assert(h.subrange(0, aa.len() as int) =~= aa);
        },
        (Some(aa), _, Some(tt)) => {
            let h = aa + " - *"@ + tt + "*"@;
            assert(h.subrange(h.len() - (tt.len() + 2), h.len() as int) =~= "*"@ + tt + "*"@);
            assert(h.subrange(0, aa.len() as int) =~= aa);
        },
        (_, Some(yy), Some(tt)) => {
            let h = yy + " - *"@ + tt + "*"@;
            assert(h.subrange(h.len() - (tt.len() + 2), h.len() as int) =~= "*"@ + tt + "*"@);
            assert(h.subrange(0, yy.len() as int) =~= yy);
        },
        (_, _, Some(tt)) => {
            let h = "*"@ + tt + "*"@;
            assert(h.subrange(h.len() - (tt.len() + 2), h.len() as int) =~= "*"@ + tt + "*"@);
        },
        (Some(aa), _, _) => {
            assert(aa.subrange(0, aa.len() as int) =~= aa);
        },
        (_, Some(yy), _) => {
            assert(yy.subrange(0, yy.len() as int) =~= yy);
        },
        _ => {},
    }
    if let Some(h) = heading(f) {
        let l0 = seq![h];
        lemma_cite_fold_first(f, l0, 0);
        let l1 = cite_fold(f, l0, 0);
        let l2 = match cleaned_field(f, "abstract"@) {
            Some(ab) => l1.push(Seq::empty()).push("> "@ + ab),
            None => l1,
        };
        let l3 = l2.push(Seq::empty()).push("File: "@ + short(file) + ":1"@);
        assert(l3[0] == h);
        lemma_join_first(l3, "\n"@);
        if let Some(tt) = t {
            let card = cite_card(f, file);
            let n = "*"@ + tt + "*"@;
            let j = h.len() - n.len();
            assert(card.subrange(j, j + n.len()) =~= h.subrange(j, h.len() as int));
        }
    }
}

/// The markdown hover card for a BibTeX entry; `file` is the entry's file
/// as an absolute path.
pub fn format_cite_hover(entry: &BibEntry, file: &str) -> (r: String)
    requires
        entry.fields.wf(),
    ensures
        r@ == cite_card(field_values(entry.fields.as_map()), file@),
{
    let ghost f = field_values(entry.fields.as_map());
    let mut lines: Vec<String> = Vec::new();
    match cite_heading(entry) {
        Some(h) => lines.push(h),
        None => {},
    }
    let ghost l0 = views(lines@);
    assert(l0 =~= match heading(f) { Some(h) => seq![h], None => Seq::<Seq<char>>::empty() });
    let rows = cite_row_list();
    let mut k: usize = 0;
    while k < rows.len()
        invariant
            rows@ == cite_rows(),
            k <= rows@.len(),
            entry.fields.wf(),
            f == field_values(entry.fields.as_map()),
            cite_fold(f, views(lines@), k as int) == cite_fold(f, l0, 0),
        decreases rows@.len() - k,
    {
        let (label, key) = rows[k];
        let ghost before = views(lines@);
        match get_cleaned(&entry.fields, key) {
            None => {},
            Some(c) => {
                let cv = chars_of(c.as_str());
                let skip = if k == 13 && lines.len() > 0 {
                    let h = chars_of(lines[0].as_str());
                    chars_contain(h.as_slice(), cv.as_slice())
                } else if k == 0 && lines.len() > 0 {
                    let h = chars_of(lines[0].as_str());
                    chars_start_with(h.as_slice(), cv.as_slice())
                } else {
                    false
                };
                if !skip {
                    let mut line = label.to_owned();
                    line.append(": ");
                    line.append(c.as_str());
                    lines.push(line);
                    assert(views(lines@) =~= before.push(label@ + ": "@ + c@));
                }
            },
        }
        k += 1;
    }
    match get_cleaned(&entry.fields, "abstract") {
        Some(a) => {
            let ghost before = views(lines@);
            lines.push(String::new());
            let mut q = String::from_str("> ");
            q.append(a.as_str());
            lines.push(q);
            assert(views(lines@) =~= before.push(Seq::empty()).push("> "@ + a@));
        },
        None => {},
    }
    let ghost before = views(lines@);
    lines.push(String::new());
    let mut loc = String::from_str("File: ");
    let sp = short_path(file);
    loc.append(sp.as_str());
    loc.append(":1");
    lines.push(loc);
    assert(views(lines@) =~= before.push(Seq::empty()).push("File: "@ + short(file@) + ":1"@));
    join_strings(&lines, "\n")
}

// ── paths ──────────────────────────────────────────────────────────────

/// `s` with every backslash turned into a slash.
pub open spec fn slashes(s: Seq<char>) -> Seq<char> {
    s.map_values(|c: char| if c == '\\' { '/' } else { c })
}

/// The non-empty `/`-separated parts of `s`.
pub open spec fn segments(s: Seq<char>) -> Seq<Seq<char>>
    decreases s.len(),
{
    if s.len() == 0 {
        Seq::empty()
    } else {
        let t = segments(s.drop_last());
        let c = s.last();
        if c == '/' {
            t
        } else if s.len() >= 2 && s[s.len() - 2] != '/' && t.len() > 0 {
            t.update(t.len() - 1, t.last().push(c))
        } else {
            t.push(seq![c])
        }
    }
}

/// A path as shown in hovers: with slashes, and shortened to `.../` and its
/// last two parts when it has more than three.
pub open spec fn short(path: Seq<char>) -> Seq<char> {
    let n = slashes(path);
    let p = segments(n);
    if p.len() <= 3 {
        n
    } else {
        ".../"@ + p[p.len() - 2] + "/"@ + p[p.len() - 1]
    }
}

fn slashed(v: &Vec<char>) -> (n: Vec<char>)
    ensures
        n@ == slashes(v@),
{
    let mut n: Vec<char> = Vec::new();
    let mut i: usize = 0;
    while i < v.len()
        invariant
            i <= v@.len(),
            n@ == slashes(v@.take(i as int)),
        decreases v@.len() - i,
    {
        let c = v[i];
        n.push(if c == '\\' { '/' } else { c });
        assert(slashes(v@.take(i + 1)) =~= slashes(v@.take(i as int)).push(if c == '\\' { '/' } else { c }));
        i += 1;
    }
    assert(v@.take(v@.len() as int) =~= v@);
    n
}

/// A path as written in replies: every backslash turned into a slash.
pub fn forward_slashes(path: &str) -> (r: String)
    ensures
        r@ == slashes(path@),
{
    let v = chars_of(path);
    let n = slashed(&v);
    string_of_all(n.as_slice())
}

pub fn short_path(path: &str) -> (r: String)
    ensures
        r@ == short(path@),
{
    let v = chars_of(path);
    let n = slashed(&v);
    let mut ranges: Vec<(usize, usize)> = Vec::new();
    let mut j: usize = 0;
    assert(ranges_ok(n@, ranges@, 0));
    while j < n.len()
        invariant
            j <= n@.len(),
            ranges_ok(n@, ranges@, j as int),
            j >= 1 && n@[j - 1] != '/' && ranges@.len() > 0 ==> ranges@.last().1 == j,
        decreases n@.len() - j,
    {
        let c = n[j];
        if c == '/' {
            proof {
                lemma_ranges_slash(n@, ranges@, j as int);
            }
        } else if j >= 1 && n[j - 1] != '/' && ranges.len() > 0 {
            let last = ranges.len() - 1;
            let (a, _b) = ranges[last];
            proof {
                lemma_ranges_extend(n@, ranges@, j as int);
            }
            ranges.set(last, (a, j + 1));
        } else {
            proof {
                lemma_ranges_new(n@, ranges@, j as int);
            }
            ranges.push((j, j + 1));
        }
        j += 1;
    }
    assert(n@.take(n@.len() as int) =~= n@);
    let cnt = ranges.len();
    if cnt <= 3 {
        string_of_all(n.as_slice())
    } else {
        let (a1, b1) = ranges[cnt - 2];
        let (a2, b2) = ranges[cnt - 1];
        assert(ranges_at(n@, ranges@, n@.len() as int, cnt - 2));
        assert(ranges_at(n@, ranges@, n@.len() as int, cnt - 1));
        let mut out = String::from_str(".../");
        let s1 = string_of(n.as_slice(), a1, b1);
        let s2 = string_of(n.as_slice(), a2, b2);
        out.append(s1.as_str());
        out.append("/");
        out.append(s2.as_str());
        out
    }
}


/// Entry `q` of `r` is the byte range of segment `q` of `n[..j]`.
pub open spec fn ranges_at(n: Seq<char>, r: Seq<(usize, usize)>, j: int, q: int) -> bool {
    r[q].0 < r[q].1 <= j && n.subrange(r[q].0 as int, r[q].1 as int) == segments(n.take(j))[q]
}

/// `r` lists the ranges of the segments of `n[..j]`.
pub open spec fn ranges_ok(n: Seq<char>, r: Seq<(usize, usize)>, j: int) -> bool {
    &&& 0 <= j <= n.len()
    &&& r.len() == segments(n.take(j)).len()
    &&& forall|q: int| 0 <= q < r.len() ==> #[trigger] ranges_at(n, r, j, q)
}

proof fn lemma_ranges_slash(n: Seq<char>, r: Seq<(usize, usize)>, j: int)
    requires
        ranges_ok(n, r, j),
        j < n.len(),
        n[j] == '/',
    ensures
        ranges_ok(n, r, j + 1),
{
    assert(n.take(j + 1).drop_last() =~= n.take(j));
    let t = segments(n.take(j));
    assert(segments(n.take(j + 1)) == t);
    assert forall|q: int| 0 <= q < r.len() implies #[trigger] ranges_at(n, r, j + 1, q) by {
        assert(ranges_at(n, r, j, q));
    }
}

proof fn lemma_ranges_extend(n: Seq<char>, r: Seq<(usize, usize)>, j: int)
    requires
        ranges_ok(n, r, j),
        j < n.len(),
        n[j] != '/',
        j >= 1,
        n[j - 1] != '/',
        r.len() > 0,
        r.last().1 == j,
        j + 1 <= usize::MAX,
    ensures
        ranges_ok(n, r.update(r.len() - 1, (r.last().0, (j + 1) as usize)), j + 1),
{
    let c = n[j];
    assert(n.take(j + 1).drop_last() =~= n.take(j));
    assert(n.take(j + 1)[j - 1] == n[j - 1]);
    let t = segments(n.take(j));
    assert(segments(n.take(j + 1)) == t.update(t.len() - 1, t.last().push(c)));
    let last = r.len() - 1;
    let a = r.last().0;
    let r2 = r.update(last, (a, (j + 1) as usize));
    assert(ranges_at(n, r, j, last));
    assert forall|q: int| 0 <= q < r2.len() implies #[trigger] ranges_at(n, r2, j + 1, q) by {
        if q == last {
            assert(n.subrange(a as int, j + 1) =~= n.subrange(a as int, j).push(c));
        } else {
            assert(ranges_at(n, r, j, q));
        }
    }
}

proof fn lemma_ranges_new(n: Seq<char>, r: Seq<(usize, usize)>, j: int)
    requires
        ranges_ok(n, r, j),
        j < n.len(),
        j + 1 <= usize::MAX,
        n[j] != '/',
        !(j >= 1 && n[j - 1] != '/' && r.len() > 0),
    ensures
        ranges_ok(n, r.push((j as usize, (j + 1) as usize)), j + 1),
{
    let c = n[j];
    assert(n.take(j + 1).drop_last() =~= n.take(j));
    if j >= 1 {
        assert(n.take(j + 1)[j - 1] == n[j - 1]);
    }
    let t = segments(n.take(j));
    assert(segments(n.take(j + 1)) == t.push(seq![c]));
    let r2 = r.push((j as usize, (j + 1) as usize));
    assert forall|q: int| 0 <= q < r2.len() implies #[trigger] ranges_at(n, r2, j + 1, q) by {
        if q == r.len() {
            assert(n.subrange(j, j + 1) =~= seq![c]);
        } else {
            assert(ranges_at(n, r, j, q));
        }
    }
}


// ── fenced snippets ────────────────────────────────────────────────────

/// Length of the run of backticks ending just before `i`.
pub open spec fn tick_run(s: Seq<char>, i: int) -> nat
    decreases i,
{
    if i <= 0 || i > s.len() || s[i - 1] != '`' {
        0
    } else {
        tick_run(s, i - 1) + 1
    }
}

/// The longest run of backticks in `s[..i]`.
pub open spec fn longest_ticks(s: Seq<char>, i: int) -> nat
    decreases i,
{
    if i <= 0 {
        0
    } else {
        let a = longest_ticks(s, i - 1);
        let b = tick_run(s, i);
        if a >= b {
            a
        } else {
            b
        }
    }
}

/// A code fence longer than any backtick run in `s` (at least three).
pub open spec fn fence(s: Seq<char>) -> Seq<char> {
    let n = longest_ticks(s, s.len() as int) + 1;
    Seq::new(if n >= 3 { n } else { 3 }, |k: int| '`')
}

pub fn fence_for(snippet: &str) -> (r: String)
    ensures
        r@ == fence(snippet@),
{
    let v = chars_of(snippet);
    let mut longest: usize = 0;
    let mut run: usize = 0;
    let mut i: usize = 0;
    while i < v.len()
        invariant
            i <= v@.len(),
            run == tick_run(v@, i as int),
            longest == longest_ticks(v@, i as int),
            run <= i,
            longest <= i,
        decreases v@.len() - i,
    {
        if v[i] == '`' {
            run += 1;
            if run > longest {
                longest = run;
            }
        } else {
            run = 0;
        }
        i += 1;
    }
    let l1: u128 = longest as u128 + 1;
    let n: u128 = if l1 >= 3 { l1 } else { 3 };
    let mut out = String::new();
    let mut k: u128 = 0;
    while k < n
        invariant
            k <= n,
            out@ == Seq::new(k as nat, |q: int| '`'),
        decreases n - k,
    {
        push_char(&mut out, '`');
        k += 1;
        assert(out@ =~= Seq::new(k as nat, |q: int| '`'));
    }
    out
}

proof fn lemma_longest_ticks(s: Seq<char>, n: int, i: int)
    requires
        0 <= i <= n,
    ensures
        tick_run(s, i) <= longest_ticks(s, n),
    decreases n,
{
    if i < n {
        lemma_longest_ticks(s, n - 1, i);
    }
}

/// The fence around a snippet is made of backticks, at least three of
/// them, and is longer than every run of backticks in the snippet, so no
/// run inside can close it.
pub proof fn law_fence_outruns_ticks(s: Seq<char>)
    ensures
        fence(s).len() >= 3,
        forall|k: int| 0 <= k < fence(s).len() ==> fence(s)[k] == '`',
        forall|i: int| 0 <= i <= s.len() ==> #[trigger] tick_run(s, i) < fence(s).len(),
{
    assert forall|i: int| 0 <= i <= s.len() implies #[trigger] tick_run(s, i) < fence(s).len() by {
        lemma_longest_ticks(s, s.len() as int, i);
    }
}

/// `s` in a fenced code block.
pub open spec fn fenced(s: Seq<char>) -> Seq<char> {
    fence(s) + "\n"@ + s + "\n"@ + fence(s)
}

pub fn fenced_block(snippet: &str) -> (r: String)
    ensures
        r@ == fenced(snippet@),
{
    let f = fence_for(snippet);
    let mut out = f.clone();
    out.append("\n");
    out.append(snippet);
    out.append("\n");
    out.append(f.as_str());
    out
}

// ── reference headers ──────────────────────────────────────────────────

/// Math environments as display-math wrappers: `equation` bodies are shown
/// as they are, `gather` bodies in `gathered`, the others in `aligned`.
pub open spec fn wrapped_math(env: Seq<char>, body: Seq<char>) -> Seq<char> {
    if env == "equation"@ || env == "equation*"@ {
        body
    } else if env == "gather"@ || env == "gather*"@ {
        "\\begin{gathered}\n"@ + body + "\n\\end{gathered}"@
    } else {
        "\\begin{aligned}\n"@ + body + "\n\\end{aligned}"@
    }
}

pub fn wrap_ref_math(env: &str, body: &str) -> (r: String)
    ensures
        r@ == wrapped_math(env@, body@),
{
    if str_eq(env, "equation") || str_eq(env, "equation*") {
        body.to_owned()
    } else if str_eq(env, "gather") || str_eq(env, "gather*") {
        let mut out = String::from_str("\\begin{gathered}\n");
        out.append(body);
        out.append("\n\\end{gathered}");
        out
    } else {
        let mut out = String::from_str("\\begin{aligned}\n");
        out.append(body);
        out.append("\n\\end{aligned}");
        out
    }
}

/// What `char::to_uppercase` yields for `c`.
pub uninterp spec fn char_upper(c: char) -> Seq<char>;

/// `char::to_uppercase`, collected into a string: the Unicode upper-case
/// mapping of `c`; an ASCII lower-case letter maps to its capital.
#[verifier::external_body]
fn upper_char(c: char) -> (r: String)
    ensures
        r@ == char_upper(c),
        'a' <= c <= 'z' ==> r@ == seq![((c as u32) - 32) as char],
{
    c.to_uppercase().collect()
}

/// `s` without one trailing `*`, with its first character upper-cased.
pub open spec fn title(s: Seq<char>) -> Seq<char> {
    let base = if s.len() > 0 && s.last() == '*' { s.drop_last() } else { s };
    if base.len() == 0 {
        Seq::empty()
    } else {
        char_upper(base[0]) + base.drop_first()
    }
}

pub fn title_case(s: &str) -> (r: String)
    ensures
        r@ == title(s@),
{
    let v = chars_of(s);
    let end = if v.len() > 0 && v[v.len() - 1] == '*' { v.len() - 1 } else { v.len() };
    let ghost base = if s@.len() > 0 && s@.last() == '*' { s@.drop_last() } else { s@ };
    assert(v@.subrange(0, end as int) =~= base);
    if end == 0 {
        return String::new();
    }
    let mut out = upper_char(v[0]);
    let rest = string_of(v.as_slice(), 1, end);
    out.append(rest.as_str());
    assert(v@.subrange(1, end as int) =~= base.drop_first());
    out
}

/// Whether `env` names a math environment.
pub open spec fn is_math_env(env: Seq<char>) -> bool {
    is_one_of(encode_utf8(env), spec_math_envs())
}

/// The first line of a reference hover.
pub open spec fn ref_heading(key: Seq<char>, env: Seq<char>, caption: Seq<char>) -> Seq<char> {
    if env == "section"@ {
        "Section: "@ + (if caption.len() == 0 { key } else { caption })
    } else if is_math_env(env) {
        title(env)
    } else if env.len() > 0 {
        if caption.len() == 0 {
            title(env)
        } else {
            title(env) + ": "@ + caption
        }
    } else {
        key
    }
}

pub fn ref_header(entry: &LabelEntry) -> (r: String)
    ensures
        r@ == ref_heading(entry.key@, entry.env@, entry.caption@),
{
    let env = entry.env.as_str();
    let caption = entry.caption.as_str();
    if str_eq(env, "section") {
        let mut out = String::from_str("Section: ");
        if caption.unicode_len() == 0 {
            out.append(entry.key.as_str());
        } else {
            out.append(caption);
        }
        out
    } else if str_one_of(env, math_envs().as_slice()) {
        title_case(env)
    } else if env.unicode_len() > 0 {
        let t = title_case(env);
        if caption.unicode_len() == 0 {
            t
        } else {
            let mut out = t;
            out.append(": ");
            out.append(caption);
            out
        }
    } else {
        entry.key.clone()
    }
}

// ── numbers ────────────────────────────────────────────────────────────

/// The decimal digits of `n`.
pub open spec fn decimal(n: nat) -> Seq<char>
    decreases n,
{
    if n < 10 {
        seq![(48 + n) as char]
    } else {
        decimal(n / 10).push((48 + n % 10) as char)
    }
}

pub fn decimal_string(n: u64) -> (r: String)
    ensures
        r@ == decimal(n as nat),
    decreases n,
{
    if n < 10 {
        let mut out = String::new();
        push_char(&mut out, (48 + n as u8) as char);
        out
    } else {
        let mut out = decimal_string(n / 10);
        push_char(&mut out, (48 + (n % 10) as u8) as char);
        out
    }
}

// ── formulas ───────────────────────────────────────────────────────────

/// The standard base64 alphabet: `A`–`Z`, `a`–`z`, `0`–`9`, `+`, `/`.
pub open spec fn b64_digit(v: u8) -> char {
    if v < 26 {
        (65 + v) as char
    } else if v < 52 {
        (97 + v - 26) as char
    } else if v < 62 {
        (48 + v - 52) as char
    } else if v == 62 {
        '+'
    } else {
        '/'
    }
}

/// Standard base64 of `b`: each 3 bytes become 4 digits of 6 bits each; a
/// last group of 1 or 2 bytes is padded with `=`.
pub open spec fn base64_of(b: Seq<u8>) -> Seq<char>
    decreases b.len(),
{
    if b.len() == 0 {
        Seq::empty()
    } else if b.len() == 1 {
        seq![b64_digit(b[0] >> 2), b64_digit((b[0] & 3) << 4), '=', '=']
    } else if b.len() == 2 {
        seq![b64_digit(b[0] >> 2), b64_digit(((b[0] & 3) << 4) | (b[1] >> 4)), b64_digit((b[1] & 15) << 2), '=']
    } else {
        seq![
            b64_digit(b[0] >> 2),
            b64_digit(((b[0] & 3) << 4) | (b[1] >> 4)),
            b64_digit(((b[1] & 15) << 2) | (b[2] >> 6)),
            b64_digit(b[2] & 63),
        ] + base64_of(b.skip(3))
    }
}

/// `base64::engine::general_purpose::STANDARD.encode`: standard base64
/// with padding.
#[verifier::external_body]
fn encode_base64(b: &[u8]) -> (r: String)
    ensures
        r@ == base64_of(b@),
{
    base64::engine::general_purpose::STANDARD.encode(b)
}

/// Markdown for a rendered formula: the SVG as a base64 data image.
pub open spec fn formula_md(svg: Seq<char>) -> Seq<char> {
    "![formula](data:image/svg+xml;base64,"@ + base64_of(encode_utf8(svg)) + ")"@
}

pub fn formula_markdown(svg: &str) -> (r: String)
    ensures
        r@ == formula_md(svg@),
{
    let data = encode_base64(svg.as_bytes());
    let mut out = String::from_str("![formula](data:image/svg+xml;base64,");
    out.append(data.as_str());
    out.append(")");
    out
}

/// A LaTeX source block, shown when a formula could not be rendered.
pub open spec fn latex_md(source: Seq<char>) -> Seq<char> {
    "```latex\n"@ + source + "\n```"@
}

pub fn latex_block(source: &str) -> (r: String)
    ensures
        r@ == latex_md(source@),
{
    let mut out = String::from_str("```latex\n");
    out.append(source);
    out.append("\n```");
    out
}

// ── whole hovers ───────────────────────────────────────────────────────

/// The text of a formula hover: the rendered SVG as an image, or, when
/// rendering failed, the expanded source in a `latex` code block.
pub open spec fn math_hover_md(rendered: Option<Seq<char>>, expanded: Seq<char>) -> Seq<char> {
    match rendered {
        Some(svg) => formula_md(svg),
        None => latex_md(expanded),
    }
}

pub fn math_hover_value(rendered: Option<&str>, expanded: &str) -> (r: String)
    ensures
        r@ == math_hover_md(match rendered { Some(s) => Some(s@), None => None }, expanded@),
{
    match rendered {
        Some(svg) => formula_markdown(svg),
        None => latex_block(expanded),
    }
}

/// Where a label is: its file (shortened) and 1-based line.
pub open spec fn ref_location(file: Seq<char>, line: int) -> Seq<char> {
    short(file) + ":"@ + decimal((line + 1) as nat)
}

/// The hover for a label whose file is shown as `file`: heading, body and
/// location.  The body is the rendered formula when the label is in a math
/// environment and `rendered` holds its SVG, else the fenced snippet.
pub open spec fn ref_card(key: Seq<char>, env: Seq<char>, caption: Seq<char>, snippet: Seq<char>, line: int, file: Seq<char>, rendered: Option<Seq<char>>) -> Seq<char> {
    let body = match rendered {
        Some(svg) => if is_math_env(env) { formula_md(svg) } else { fenced(snippet) },
        None => fenced(snippet),
    };
    ref_heading(key, env, caption) + "\n\n"@ + body + "\n\n"@ + ref_location(file, line)
}

/// Whether a reference hover shows a rendered formula (the label is in a
/// math environment).
pub fn ref_wants_render(entry: &LabelEntry) -> (r: bool)
    ensures
        r == is_math_env(entry.env@),
{
    str_one_of(entry.env.as_str(), math_envs().as_slice())
}

/// The source to render for a label in a math environment.
pub fn ref_math_source(entry: &LabelEntry) -> (r: String)
    ensures
        r@ == wrapped_math(entry.env@, entry.snippet@),
{
    wrap_ref_math(entry.env.as_str(), entry.snippet.as_str())
}

pub fn format_ref_hover(entry: &LabelEntry, file: &str, rendered: Option<&str>) -> (r: String)
    ensures
        r@ == ref_card(entry.key@, entry.env@, entry.caption@, entry.snippet@, entry.line as int, file@,
            match rendered { Some(s) => Some(s@), None => None }),
{
    let header = ref_header(entry);
    let body = match rendered {
        Some(svg) => if ref_wants_render(entry) {
            formula_markdown(svg)
        } else {
            fenced_block(entry.snippet.as_str())
        },
        None => fenced_block(entry.snippet.as_str()),
    };
    let mut out = header;
    out.append("\n\n");
    out.append(body.as_str());
    out.append("\n\n");
    let sp = short_path(file);
    out.append(sp.as_str());
    out.append(":");
    let ln = decimal_string(entry.line as u64 + 1);
    out.append(ln.as_str());
    out
}

/// The hover for a dictionary entry.
pub open spec fn doc_card(e: DictEntry) -> Seq<char> {
    "**"@ + e.title@ + "** ("@ + (match e.kind { DocKind::Package => "package"@, DocKind::Command => "command"@ })
        + ")\n\n"@ + (match e.docs { Some(d) => d@, None => e.short@ })
}

pub fn format_doc_hover(e: &DictEntry) -> (r: String)
    ensures
        r@ == doc_card(*e),
{
    let mut out = String::from_str("**");
    out.append(e.title.as_str());
    out.append("** (");
    match e.kind {
        DocKind::Package => out.append("package"),
        DocKind::Command => out.append("command"),
    }
    out.append(")\n\n");
    match &e.docs {
        Some(d) => out.append(d.as_str()),
        None => out.append(e.short.as_str()),
    }
    out
}

/// The hover shown for a citation key that is not indexed.
pub fn citation_not_found() -> (r: String)
    ensures
        r@ == "_(citation not found)_"@,
{
    String::from_str("_(citation not found)_")
}

} // verus!
