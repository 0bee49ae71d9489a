//! Post-processing of rendered SVG and the cache of rendered formulas.
use vstd::prelude::*;
use vstd::string::{StringSliceAdditionalSpecFns, StringExecFns};
use crate::chars::{chars_of, string_of, string_of_all};
use crate::text::{str_eq, has_at, starts_with_word, is_ascii_ws, byte_is_ascii_ws, is_alnum, byte_is_alnum};
use crate::expand::{find_chars, lemma_find_chars};

verus! {

/// Colour given to rendered formulas.
#[derive(Clone, Copy, Debug, PartialEq, Eq, Structural)]
pub enum ColorMode {
    Auto,
    Black,
    White,
}

pub open spec fn color_name(c: ColorMode) -> Seq<char> {
    match c {
        ColorMode::Auto => "currentColor"@,
        ColorMode::Black => "black"@,
        ColorMode::White => "white"@,
    }
}

// ── colour ─────────────────────────────────────────────────────────────

/// `svg` with ` color="…"` added at the end of its first `<svg …>` tag (when
/// there is one with a closing `>`).
pub open spec fn colored(svg: Seq<char>, color: ColorMode) -> Seq<char> {
    match find_chars(svg, 0, "<svg"@) {
        None => svg,
        Some(p) => match find_chars(svg, p, seq!['>']) {
            None => svg,
            Some(q) => svg.subrange(0, q) + " color=\""@ + color_name(color) + "\""@ + svg.subrange(q, svg.len() as int),
        },
    }
}

fn find_in(s: &Vec<char>, from: usize, pat: &str) -> (r: Option<usize>)
    ensures
        match r {
            Some(p) => find_chars(s@, from as int, pat@) == Some(p as int) && p + pat@.len() <= s@.len(),
            None => find_chars(s@, from as int, pat@) is None,
        },
{
    let pv = chars_of(pat);
    proof {
        lemma_find_chars(s@, from as int, pat@);
    }
    crate::expand::find_chars_from(s, from, &pv)
}

/// Give the first `<svg …>` tag a `color` attribute.
pub fn inject_svg_color(svg: String, color: ColorMode) -> (r: String)
    ensures
        r@ == colored(svg@, color),
{
    let v = chars_of(svg.as_str());
    let p = match find_in(&v, 0, "<svg") {
        Some(p) => p,
        None => return svg,
    };
    let mut gt: Vec<char> = Vec::new();
    gt.push('>');
    assert(gt@ =~= seq!['>']);
    proof {
        lemma_find_chars(v@, p as int, gt@);
    }
    let q = match crate::expand::find_chars_from(&v, p, &gt) {
        Some(q) => q,
        None => return svg,
    };
    let name = match color {
        ColorMode::Auto => "currentColor",
        ColorMode::Black => "black",
        ColorMode::White => "white",
    };
    let mut out = string_of(v.as_slice(), 0, q);
    out.append(" color=\"");
    out.append(name);
    out.append("\"");
    let rest = string_of(v.as_slice(), q, v.len());
    out.append(rest.as_str());
    out
}

// ── `data-latex` attributes ────────────────────────────────────────────

/// `u8::is_ascii_whitespace`, on characters.
pub open spec fn is_ascii_ws_char(c: char) -> bool {
    c == ' ' || c == '\t' || c == '\n' || c == '\x0C' || c == '\r'
}

/// A character allowed in an attribute name: a letter, a digit, `-`, `_` or `:`.
pub open spec fn is_attr_name_char(c: char) -> bool {
    ('a' <= c && c <= 'z') || ('A' <= c && c <= 'Z') || ('0' <= c && c <= '9') || c == '-' || c == '_' || c == ':'
}

pub open spec fn attr_name_end(s: Seq<char>, i: int) -> int
    decreases s.len() - i,
{
    if 0 <= i < s.len() && is_attr_name_char(s[i]) {
        attr_name_end(s, i + 1)
    } else {
        i
    }
}

pub open spec fn ws_end(s: Seq<char>, i: int) -> int
    decreases s.len() - i,
{
    if 0 <= i < s.len() && is_ascii_ws_char(s[i]) {
        ws_end(s, i + 1)
    } else {
        i
    }
}

proof fn lemma_attr_name_end(s: Seq<char>, i: int)
    ensures
        i <= attr_name_end(s, i),
        i <= s.len() ==> attr_name_end(s, i) <= s.len(),
    decreases s.len() - i,
{
    if 0 <= i < s.len() && is_attr_name_char(s[i]) {
        lemma_attr_name_end(s, i + 1);
    }
}

proof fn lemma_ws_end(s: Seq<char>, i: int)
    ensures
        i <= ws_end(s, i),
        i <= s.len() ==> ws_end(s, i) <= s.len(),
    decreases s.len() - i,
{
    if 0 <= i < s.len() && is_ascii_ws_char(s[i]) {
        lemma_ws_end(s, i + 1);
    }
}

/// At `i`, white space then a `data-latex…="…"` attribute: the index just
/// past its closing quote.
pub open spec fn latex_attr_end(s: Seq<char>, i: int) -> Option<int> {
    if !(0 <= i < s.len() && is_ascii_ws_char(s[i]) && i + 11 <= s.len() && s.subrange(i + 1, i + 11) == " data-latex"@.drop_first()) {
        None
    } else {
        let j2 = ws_end(s, attr_name_end(s, i + 11));
        if !(0 <= j2 < s.len() && s[j2] == '=') {
            None
        } else {
            let j3 = ws_end(s, j2 + 1);
            if !(0 <= j3 < s.len() && (s[j3] == '"' || s[j3] == '\'')) {
                None
            } else {
                match find_chars(s, j3 + 1, seq![s[j3]]) {
                    Some(q) => Some(q + 1),
                    None => None,
                }
            }
        }
    }
}

/// `s` from `i` on with the `data-latex` attributes removed; text from `last`
/// to `i` is kept.
pub open spec fn strip_from(s: Seq<char>, i: int, last: int) -> Seq<char>
    decreases s.len() - i,
{
    if i < 0 || i >= s.len() {
        if 0 <= last <= s.len() { s.subrange(last, s.len() as int) } else { Seq::empty() }
    } else {
        match latex_attr_end(s, i) {
            Some(e) => if e <= i || e > s.len() || last > i || last < 0 {
                Seq::empty()
            } else {
                s.subrange(last, i) + strip_from(s, e, e)
            },
            None => strip_from(s, i + 1, last),
        }
    }
}

fn is_ascii_ws_c(c: char) -> (r: bool)
    ensures
        r == is_ascii_ws_char(c),
{
    c == ' ' || c == '\t' || c == '\n' || c == '\x0C' || c == '\r'
}

fn is_attr_char(c: char) -> (r: bool)
    ensures
        r == is_attr_name_char(c),
{
    ('a' <= c && c <= 'z') || ('A' <= c && c <= 'Z') || ('0' <= c && c <= '9') || c == '-' || c == '_' || c == ':'
}

fn latex_attr_end_at(s: &Vec<char>, i: usize, word: &Vec<char>) -> (r: Option<usize>)
    requires
        i < s@.len(),
        word@ == " data-latex"@.drop_first(),
        word@.len() == 10,
    ensures
        match r {
            Some(e) => latex_attr_end(s@, i as int) == Some(e as int) && i < e <= s@.len(),
            None => latex_attr_end(s@, i as int) is None,
        },
{
    let n = s.len();
    if !(is_ascii_ws_c(s[i]) && n - i >= 11) {
        return None;
    }
    if !crate::expand::chars_match_at(s, i + 1, word) {
        return None;
    }
    let mut j = i + 11;
    proof {
        lemma_attr_name_end(s@, j as int);
    }
    while j < n && is_attr_char(s[j])
        invariant
            n == s@.len(),
            i + 11 <= j <= n,
            attr_name_end(s@, j as int) == attr_name_end(s@, i + 11),
        decreases n - j,
    {
        j += 1;
    }
    let j1 = j;
    proof {
        lemma_ws_end(s@, j1 as int);
    }
    while j < n && is_ascii_ws_c(s[j])
        invariant
            n == s@.len(),
            j1 <= j <= n,
            ws_end(s@, j as int) == ws_end(s@, j1 as int),
        decreases n - j,
    {
        j += 1;
    }
    if !(j < n && s[j] == '=') {
        return None;
    }
    let j2 = j;
    j = j + 1;
    proof {
        lemma_ws_end(s@, j2 + 1);
    }
    while j < n && is_ascii_ws_c(s[j])
        invariant
            n == s@.len(),
            j2 + 1 <= j <= n,
            ws_end(s@, j as int) == ws_end(s@, j2 + 1),
        decreases n - j,
    {
        j += 1;
    }
    if !(j < n && (s[j] == '"' || s[j] == '\'')) {
        return None;
    }
    let mut qv: Vec<char> = Vec::new();
    qv.push(s[j]);
    assert(qv@ =~= seq![s@[j as int]]);
    proof {
        lemma_find_chars(s@, j + 1, qv@);
    }
    match crate::expand::find_chars_from(s, j + 1, &qv) {
        Some(q) => Some(q + 1),
        None => None,
    }
}

/// Remove `data-latex…` attributes (which hold raw TeX, `<` included).
pub fn strip_data_latex_attrs(svg: &str) -> (r: String)
    ensures
        r@ == strip_from(svg@, 0, 0),
{
    let v = chars_of(svg);
    let word = chars_of("data-latex");
    proof {
        reveal_strlit("data-latex");
        reveal_strlit(" data-latex");
    }
    assert(word@ =~= " data-latex"@.drop_first());
    let n = v.len();
    let mut out = String::new();
    let mut i: usize = 0;
    let mut last: usize = 0;
    let ghost whole = strip_from(v@, 0, 0);
    while i < n
        invariant
            n == v@.len(),
            word@ == " data-latex"@.drop_first(),
            word@.len() == 10,
            last <= i <= n,
            whole == strip_from(v@, 0, 0),
            whole == out@ + strip_from(v@, i as int, last as int),
        decreases n - i,
    {
        match latex_attr_end_at(&v, i, &word) {
            Some(e) => {
                let piece = string_of(v.as_slice(), last, i);
                out.append(piece.as_str());
                assert(whole =~= out@ + strip_from(v@, e as int, e as int));
                i = e;
                last = e;
            },
            None => {
                i += 1;
            },
        }
    }
    let piece = string_of(v.as_slice(), last, n);
    out.append(piece.as_str());
    assert(whole =~= out@);
    out
}

/// SVG made safe to show in the editor's hover: `data-latex` attributes removed.
pub fn sanitize_svg_for_zed(svg: String) -> (r: String)
    ensures
        r@ == strip_from(svg@, 0, 0),
{
    strip_data_latex_attrs(svg.as_str())
}

// ── `ex` sizes ─────────────────────────────────────────────────────────

/// At `at` (after white space or `<`, or at the start), `width=` or
/// `height=`: the length of the name.
pub open spec fn ex_attr_name(t: Seq<u8>, at: int) -> Option<int> {
    if at > 0 && at <= t.len() && !is_ascii_ws(t[at - 1]) && t[at - 1] != 60 {
        None
    } else if has_at(t, at, "width".spec_bytes()) && 0 <= at + 5 < t.len() && t[at + 5] == 61 {
        Some(5)
    } else if has_at(t, at, "height".spec_bytes()) && 0 <= at + 6 < t.len() && t[at + 6] == 61 {
        Some(6)
    } else {
        None
    }
}

pub fn ex_dimension_attr_name_len(bytes: &[u8], at: usize) -> (r: Option<usize>)
    requires
        at <= bytes@.len(),
    ensures
        match r {
            Some(n) => ex_attr_name(bytes@, at as int) == Some(n as int),
            None => ex_attr_name(bytes@, at as int) is None,
        },
{
    if at > 0 && !byte_is_ascii_ws(bytes[at - 1]) && bytes[at - 1] != 60 {
        return None;
    }
    proof {
        reveal_strlit("width");
        reveal_strlit("height");
    }
    let n = bytes.len();
    let w = "width".as_bytes();
    if starts_with_word(bytes, at, w) && n - at > 5 && bytes[at + 5] == 61 {
        return Some(5);
    }
    let h = "height".as_bytes();
    if starts_with_word(bytes, at, h) && n - at > 6 && bytes[at + 6] == 61 {
        return Some(6);
    }
    None
}

/// Bytes `[a, b)` spell a decimal number that `f64` parsing accepts: digits
/// with at most one `.`, at least one digit.
pub open spec fn decimal_number(t: Seq<u8>, a: int, b: int) -> bool {
    &&& a < b
    &&& forall|k: int| a <= k < b ==> (48 <= #[trigger] t[k] <= 57 || t[k] == 46)
    &&& exists|k: int| a <= k < b && 48 <= #[trigger] t[k] <= 57
    &&& forall|k1: int, k2: int| a <= k1 < k2 < b && #[trigger] t[k1] == 46 ==> #[trigger] t[k2] != 46
}

/// At `i`, a `width` or `height` attribute whose quoted value is a number
/// followed by `ex`: the value's range (quotes excluded).
pub open spec fn ex_value_at(t: Seq<u8>, i: int) -> Option<(int, int)> {
    match ex_attr_name(t, i) {
        None => None,
        Some(nl) => {
            let qa = i + nl + 1;
            if !(0 <= qa < t.len() && (t[qa] == 34 || t[qa] == 39)) {
                None
            } else {
                let vs = qa + 1;
                let ve = crate::math::first_byte_from(t, vs, t[qa]);
                if ve >= t.len() || ve < vs + 2 || t[ve - 2] != 101 || t[ve - 1] != 120 || !decimal_number(t, vs, ve - 2) {
                    None
                } else {
                    Some((vs, ve))
                }
            }
        }
    }
}

/// The value ranges of the `ex` sizes rewritten when scanning from `i`.
pub open spec fn ex_values_from(t: Seq<u8>, i: int) -> Seq<(int, int)>
    decreases t.len() - i,
{
    if i < 0 || i >= t.len() {
        Seq::empty()
    } else {
        match ex_value_at(t, i) {
            Some((vs, ve)) => if ve <= i {
                Seq::empty()
            } else {
                seq![(vs, ve)] + ex_values_from(t, ve)
            },
            None => ex_values_from(t, i + 1),
        }
    }
}

fn is_decimal_number(t: &[u8], a: usize, b: usize) -> (r: bool)
    requires
        a <= b <= t@.len(),
    ensures
        r == decimal_number(t@, a as int, b as int),
{
    if a >= b {
        return false;
    }
    let mut dots: usize = 0;
    let mut digits: bool = false;
    let mut k = a;
    let ghost mut dot_at: int = -1;
    while k < b
        invariant
            a <= k <= b <= t@.len(),
            forall|q: int| a <= q < k ==> (48 <= #[trigger] t@[q] <= 57 || t@[q] == 46),
            digits <==> exists|q: int| a <= q < k && 48 <= #[trigger] t@[q] <= 57,
            dots <= 1,
            dots == 0 ==> forall|q: int| a <= q < k ==> #[trigger] t@[q] != 46,
            dots == 1 ==> a <= dot_at < k && t@[dot_at] == 46 && forall|q: int| a <= q < k && q != dot_at ==> #[trigger] t@[q] != 46,
        decreases b - k,
    {
        let c = t[k];
        if 48 <= c && c <= 57 {
            digits = true;
        } else if c == 46 {
            if dots == 1 {
                assert(t@[dot_at] == 46 && t@[k as int] == 46);
                assert(!(forall|k1: int, k2: int| a <= k1 < k2 < b && #[trigger] t@[k1] == 46 ==> #[trigger] t@[k2] != 46));
                return false;
            }
            dots = 1;
            proof {
                dot_at = k as int;
            }
        } else {
            return false;
        }
        k += 1;
    }
    digits
}

/// The value ranges of the `width`/`height` attributes in `ex` units, in
/// the order a rewrite replaces them.
pub fn ex_dimension_values(svg: &str) -> (r: Vec<(usize, usize)>)
    ensures
        r@.map_values(|p: (usize, usize)| (p.0 as int, p.1 as int)) == ex_values_from(svg.spec_bytes(), 0),
{
    let t = svg.as_bytes();
    let n = t.len();
    let mut out: Vec<(usize, usize)> = Vec::new();
    let mut i: usize = 0;
    let ghost whole = ex_values_from(t@, 0);
    while i < n
        invariant
            n == t@.len(),
            i <= n,
            whole == ex_values_from(t@, 0),
            whole == out@.map_values(|p: (usize, usize)| (p.0 as int, p.1 as int)) + ex_values_from(t@, i as int),
        decreases n - i,
    {
        let ghost o = out@;
        let found = match ex_dimension_attr_name_len(t, i) {
            None => None,
            Some(nl) => {
                if nl + 1 < n - i && (t[i + nl + 1] == 34 || t[i + nl + 1] == 39) {
                    let qa = i + nl + 1;
                    let vs = qa + 1;
                    let ve = crate::math::find_byte(t, vs, t[qa]);
                    if ve >= n || ve - vs < 2 || t[ve - 2] != 101 || t[ve - 1] != 120 || !is_decimal_number(t, vs, ve - 2) {
                        None
                    } else {
                        Some((vs, ve))
                    }
                } else {
                    None
                }
            },
        };
        match found {
            Some((vs, ve)) => {
                out.push((vs, ve));
                assert(out@.map_values(|p: (usize, usize)| (p.0 as int, p.1 as int)) =~= o.map_values(|p: (usize, usize)| (p.0 as int, p.1 as int)).push((vs as int, ve as int)));
                i = ve;
            },
            None => {
                i += 1;
            },
        }
    }
    assert(whole =~= out@.map_values(|p: (usize, usize)| (p.0 as int, p.1 as int)));
    out
}

// ── render requests and results ───────────────────────────────────────

/// The TeX handed to the renderer: display formulas are set in display
/// style.
pub open spec fn render_input(source: Seq<char>, display: bool) -> Seq<char> {
    if display {
        "\\displaystyle "@ + source
    } else {
        source
    }
}

pub fn render_source(source: &str, display: bool) -> (r: String)
    ensures
        r@ == render_input(source@, display),
{
    if display {
        let mut out = String::from_str("\\displaystyle ");
        out.append(source);
        out
    } else {
        source.to_owned()
    }
}

/// Whether rendered SVG reports a TeX error: MathJax marks an error node,
/// or draws error text in red.
pub open spec fn reports_error(svg: Seq<char>) -> bool {
    crate::hover::contains(svg, "data-mjx-error"@) || crate::hover::contains(svg, "mtext\" fill=\"red\""@)
}

pub fn is_render_error(svg: &str) -> (r: bool)
    ensures
        r == reports_error(svg@),
{
    let v = chars_of(svg);
    let a = chars_of("data-mjx-error");
    let b = chars_of("mtext\" fill=\"red\"");
    crate::hover::chars_contain(v.as_slice(), a.as_slice()) || crate::hover::chars_contain(v.as_slice(), b.as_slice())
}

// ── the render cache ───────────────────────────────────────────────────

/// What a rendered SVG depends on.
#[derive(Clone, Debug)]
pub struct RenderKey {
    pub source: String,
    pub display: bool,
    /// The scale in thousandths.
    pub scale_scale_milli: u64,
    pub color: ColorMode,
}

pub struct KeyView {
    pub source: Seq<char>,
    pub display: bool,
    pub scale: u64,
    pub color: ColorMode,
}

pub open spec fn key_view(k: RenderKey) -> KeyView {
    KeyView { source: k.source@, display: k.display, scale: k.scale_scale_milli, color: k.color }
}

fn same_key(a: &RenderKey, b: &RenderKey) -> (r: bool)
    ensures
        r == (key_view(*a) == key_view(*b)),
{
    str_eq(a.source.as_str(), b.source.as_str()) && a.display == b.display && a.scale_scale_milli
        == b.scale_scale_milli && a.color == b.color
}

/// A bounded cache of rendered SVG: the least recently used entry is
/// dropped first.
pub struct RenderCache {
    entries: Vec<(RenderKey, String)>,
    capacity: usize,
}

/// The SVG cached for key `k` among the entries `it`, if any.
pub open spec fn cached(it: Seq<(KeyView, Seq<char>)>, k: KeyView) -> Option<Seq<char>> {
    if exists|p: int| 0 <= p < it.len() && it[p].0 == k {
        Some(it[choose|p: int| 0 <= p < it.len() && it[p].0 == k].1)
    } else {
        None
    }
}

/// No key occurs twice among the entries `it`.
pub open spec fn keys_unique(it: Seq<(KeyView, Seq<char>)>) -> bool {
    forall|i: int, j: int| 0 <= i < j < it.len() ==> #[trigger] it[i].0 != #[trigger] it[j].0
}

/// `after` is the entries `before` (of a cache of capacity `cap`) once
/// `svg` is cached for `k`: the entry of an equal key gets the new SVG in
/// place; otherwise the entry is added as the most recently used, the least
/// recently used one dropped first when the cache is full.
pub open spec fn put_spec(before: Seq<(KeyView, Seq<char>)>, cap: nat, after: Seq<(KeyView, Seq<char>)>, k: KeyView, svg: Seq<char>) -> bool {
    (exists|p: int| 0 <= p < before.len() && before[p].0 == k && after == before.update(p, (k, svg)))
    || ((forall|i: int| 0 <= i < before.len() ==> before[i].0 != k)
        && after == (if before.len() >= cap { before.drop_first() } else { before }).push((k, svg)))
}

proof fn lemma_cached_at(it: Seq<(KeyView, Seq<char>)>, k: KeyView, p: int)
    requires
        keys_unique(it),
        0 <= p < it.len(),
        it[p].0 == k,
    ensures
        cached(it, k) == Some(it[p].1),
{
    let q = choose|q: int| 0 <= q < it.len() && it[q].0 == k;
    if q != p {
        if q < p {
            assert(it[q].0 != it[p].0);
        } else {
            assert(it[p].0 != it[q].0);
        }
    }
}

/// A read after a write gives the write: once `svg` is cached for `k`,
/// the cache holds `svg` for `k` (and `RenderCache::get` returns it).
pub proof fn law_cache_read_after_write(before: Seq<(KeyView, Seq<char>)>, cap: nat, after: Seq<(KeyView, Seq<char>)>, k: KeyView, svg: Seq<char>)
    requires
        keys_unique(after),
        put_spec(before, cap, after, k, svg),
    ensures
        cached(after, k) == Some(svg),
{
    if exists|p: int| 0 <= p < before.len() && before[p].0 == k && after == before.update(p, (k, svg)) {
        let p = choose|p: int| 0 <= p < before.len() && before[p].0 == k && after == before.update(p, (k, svg));
        lemma_cached_at(after, k, p);
    } else {
        lemma_cached_at(after, k, after.len() - 1);
    }
}

impl RenderCache {
    /// The entries, least recently used first.
    pub closed spec fn items(&self) -> Seq<(KeyView, Seq<char>)> {
        self.entries@.map_values(|e: (RenderKey, String)| (key_view(e.0), e.1@))
    }

    pub closed spec fn cap(&self) -> nat {
        self.capacity as nat
    }

    /// No key twice, and no more entries than the capacity.
    pub open spec fn wf(&self) -> bool {
        &&& self.items().len() <= self.cap()
        &&& keys_unique(self.items())
    }

    pub fn new(capacity: usize) -> (r: Self)
        ensures
            r.wf(),
            r.items() == Seq::<(KeyView, Seq<char>)>::empty(),
            r.cap() == capacity,
    {
        let r = RenderCache { entries: Vec::new(), capacity };
        assert(r.items() =~= Seq::<(KeyView, Seq<char>)>::empty());
        r
    }

    fn position(&self, key: &RenderKey) -> (r: Option<usize>)
        ensures
            match r {
                Some(p) => p < self.items().len() && self.items()[p as int].0 == key_view(*key),
                None => forall|i: int| 0 <= i < self.items().len() ==> self.items()[i].0 != key_view(*key),
            },
    {
        let mut i: usize = 0;
        while i < self.entries.len()
            invariant
                i <= self.entries@.len(),
                self.items().len() == self.entries@.len(),
                forall|q: int| 0 <= q < i ==> self.items()[q].0 != key_view(*key),
            decreases self.entries@.len() - i,
        {
            assert(self.items()[i as int].0 == key_view(self.entries@[i as int].0));
            if same_key(&self.entries[i].0, key) {
                return Some(i);
            }
            i += 1;
        }
        None
    }

    /// The SVG cached for `key`, which becomes the most recently used.
    pub fn get(&mut self, key: &RenderKey) -> (r: Option<String>)
        requires
            old(self).wf(),
        ensures
            final(self).wf(),
            final(self).cap() == old(self).cap(),
            match r {
                Some(svg) => exists|p: int| 0 <= p < old(self).items().len() && old(self).items()[p].0 == key_view(*key)
                    && old(self).items()[p].1 == svg@
                    && final(self).items() == old(self).items().remove(p).push(old(self).items()[p]),
                None => (forall|i: int| 0 <= i < old(self).items().len() ==> old(self).items()[i].0 != key_view(*key))
                    && final(self).items() == old(self).items(),
            },
            match r {
                Some(svg) => cached(old(self).items(), key_view(*key)) == Some(svg@),
                None => cached(old(self).items(), key_view(*key)) is None,
            },
    {
        match self.position(key) {
            Some(pos) => {
                let ghost it = self.items();
                let e = self.entries.remove(pos);
                let svg = e.1.clone();
                self.entries.push(e);
                proof {
                    assert(self.items() =~= it.remove(pos as int).push(it[pos as int]));
                    let ni = self.items();
                    assert forall|i: int, j: int| 0 <= i < j < ni.len() implies #[trigger] ni[i].0 != #[trigger] ni[j].0 by {
                        let oi = if i < pos { i } else if i < ni.len() - 1 { i + 1 } else { pos as int };
                        let oj = if j < pos { j } else if j < ni.len() - 1 { j + 1 } else { pos as int };
                        assert(ni[i] == it[oi]);
                        assert(ni[j] == it[oj]);
                        if oi < oj {
                            assert(it[oi].0 != it[oj].0);
                        } else {
                            assert(it[oj].0 != it[oi].0);
                        }
                    }
                }
                proof {
                    assert(it[pos as int].0 == key_view(*key));
                    lemma_cached_at(it, key_view(*key), pos as int);
                }
                Some(svg)
            },
            None => None,
        }
    }

    /// Cache `svg` for `key`: replaces the entry of an equal key, else adds
    /// a most recently used entry, dropping the least recently used one when
    /// full.
    pub fn put(&mut self, key: RenderKey, svg: String)
        requires
            old(self).wf(),
            old(self).cap() > 0,
        ensures
            final(self).wf(),
            final(self).cap() == old(self).cap(),
            put_spec(old(self).items(), old(self).cap(), final(self).items(), key_view(key), svg@),
    {
        let ghost it = self.items();
        match self.position(&key) {
            Some(pos) => {
                self.entries.set(pos, (key, svg));
                proof {
                    let ni = self.items();
                    assert(ni =~= it.update(pos as int, (key_view(key), svg@)));
                    assert forall|i: int, j: int| 0 <= i < j < ni.len() implies #[trigger] ni[i].0 != #[trigger] ni[j].0 by {
                        assert(it[i].0 != it[j].0);
                    }
                }
            },
            None => {
                if self.entries.len() >= self.capacity {
                    self.entries.remove(0);
                }
                let ghost mid = self.items();
                self.entries.push((key, svg));
                proof {
                    let base = if it.len() >= self.capacity { it.drop_first() } else { it };
                    assert(mid =~= base);
                    let ni = self.items();
                    assert(ni =~= base.push((key_view(key), svg@)));
                    assert forall|i: int, j: int| 0 <= i < j < ni.len() implies #[trigger] ni[i].0 != #[trigger] ni[j].0 by {
                        let oi = if it.len() >= self.capacity { i + 1 } else { i };
                        if j == ni.len() - 1 {
                            assert(ni[i] == it[oi]);
                        } else {
                            let oj = if it.len() >= self.capacity { j + 1 } else { j };
                            assert(ni[i] == it[oi]);
                            assert(ni[j] == it[oj]);
                        }
                    }
                }
            },
        }
    }
}

} // verus!
