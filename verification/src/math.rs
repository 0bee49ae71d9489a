//! Math-region scanner.
//!
//! Finds inline (`$…$`, `\(…\)`) and display (`$$…$$`, `\[…\]`, `equation`,
//! `align`, `gather`, `multline` and their starred forms) math regions,
//! skipping comments and verbatim environments.
use vstd::prelude::*;
use vstd::utf8::*;
use vstd::string::StringSliceAdditionalSpecFns;
use crate::text::{
    has_at, starts_with_word, skip_blanks, skip_blanks_at, eol_after, skip_to_eol, escaped,
    is_escaped, is_one_of, one_of, skip_escape, decoded, decode_string, lemma_eol_after_bounds,
};

verus! {

pub open spec fn spec_math_envs() -> Seq<&'static str> {
    seq!["equation", "equation*", "align", "align*", "gather", "gather*", "multline", "multline*"]
}

/// Environments whose interior is display math.
pub fn math_envs() -> (r: Vec<&'static str>)
    ensures
        r@ == spec_math_envs(),
{
    vec!["equation", "equation*", "align", "align*", "gather", "gather*", "multline", "multline*"]
}

pub open spec fn spec_verbatim_envs() -> Seq<&'static str> {
    seq!["verbatim", "lstlisting", "minted"]
}

/// Environments whose interior is never scanned.
pub fn verbatim_envs() -> (r: Vec<&'static str>)
    ensures
        r@ == spec_verbatim_envs(),
{
    vec!["verbatim", "lstlisting", "minted"]
}

// ── small searches ─────────────────────────────────────────────────────

/// First index `>= i` holding byte `b`, or the text length.
pub open spec fn first_byte_from(t: Seq<u8>, i: int, b: u8) -> int
    decreases t.len() - i,
{
    if i < 0 {
        first_byte_from(t, 0, b)
    } else if i >= t.len() {
        t.len() as int
    } else if t[i] == b {
        i
    } else {
        first_byte_from(t, i + 1, b)
    }
}

pub proof fn lemma_first_byte_from(t: Seq<u8>, i: int, b: u8)
    requires
        0 <= i,
    ensures
        i <= t.len() ==> i <= first_byte_from(t, i, b),
        first_byte_from(t, i, b) <= t.len(),
        first_byte_from(t, i, b) < t.len() ==> t[first_byte_from(t, i, b)] == b,
    decreases t.len() - i,
{
    if i < t.len() && t[i] != b {
        lemma_first_byte_from(t, i + 1, b);
    }
}

pub fn find_byte(t: &[u8], from: usize, b: u8) -> (r: usize)
    ensures
        r == first_byte_from(t@, from as int, b),
        from <= t@.len() ==> from <= r,
        r <= t@.len(),
{
    proof {
        lemma_first_byte_from(t@, from as int, b);
    }
    let mut i = from;
    while i < t.len() && t[i] != b
        invariant
            from <= i,
            first_byte_from(t@, i as int, b) == first_byte_from(t@, from as int, b),
        decreases t@.len() - i,
    {
        i += 1;
    }
    if i < t.len() {
        i
    } else {
        t.len()
    }
}

/// First index `>= i` where `needle` occurs.
pub open spec fn find_sub(t: Seq<u8>, i: int, needle: Seq<u8>) -> Option<int>
    decreases t.len() - i,
{
    if needle.len() == 0 || i < 0 || i + needle.len() > t.len() {
        None
    } else if t.subrange(i, i + needle.len()) == needle {
        Some(i)
    } else {
        find_sub(t, i + 1, needle)
    }
}

pub proof fn lemma_find_sub(t: Seq<u8>, i: int, needle: Seq<u8>)
    ensures
        find_sub(t, i, needle) matches Some(p) ==> i <= p && p + needle.len() <= t.len()
            && needle.len() > 0,
    decreases t.len() - i,
{
    if !(needle.len() == 0 || i < 0 || i + needle.len() > t.len()) {
        if t.subrange(i, i + needle.len()) != needle {
            lemma_find_sub(t, i + 1, needle);
        }
    }
}

pub fn find_subslice(text: &[u8], from: usize, needle: &[u8]) -> (r: Option<usize>)
    ensures
        r matches Some(p) ==> find_sub(text@, from as int, needle@) == Some(p as int),
        r is None ==> find_sub(text@, from as int, needle@) is None,
{
    proof {
        lemma_find_sub(text@, from as int, needle@);
    }
    if needle.len() == 0 {
        return None;
    }
    let mut i = from;
    while i <= text.len() && needle.len() <= text.len() - i
        invariant
            from <= i,
            needle@.len() > 0,
            find_sub(text@, i as int, needle@) == find_sub(text@, from as int, needle@),
        decreases text@.len() - i,
    {
        if starts_with_word(text, i, needle) {
            return Some(i);
        }
        i += 1;
    }
    None
}

/// The closing `$` (or `$$`) of a dollar region, scanning from `i`:
/// backslashes hide the next byte and `%` comments run to end of line.
pub open spec fn dollar_closer(t: Seq<u8>, i: int, want_double: bool) -> Option<int>
    decreases t.len() - i,
{
    if i < 0 || i >= t.len() {
        None
    } else if t[i] == 92 {
        dollar_closer(t, skip_escape(t, i), want_double)
    } else if t[i] == 37 {
        proof {
            lemma_eol_after_bounds(t, i);
        }
        dollar_closer(t, eol_after(t, i), want_double)
    } else if t[i] == 36 && (want_double == (i + 1 < t.len() && t[i + 1] == 36)) {
        Some(i)
    } else {
        dollar_closer(t, i + 1, want_double)
    }
}

pub proof fn lemma_dollar_closer(t: Seq<u8>, i: int, want_double: bool)
    ensures
        dollar_closer(t, i, want_double) matches Some(p) ==> i <= p < t.len() && t[p] == 36
            && (want_double ==> p + 1 < t.len()),
    decreases t.len() - i,
{
    if 0 <= i < t.len() {
        if t[i] == 92 {
            lemma_dollar_closer(t, skip_escape(t, i), want_double);
        } else if t[i] == 37 {
            lemma_eol_after_bounds(t, i);
            assert(eol_after(t, i) == eol_after(t, i + 1));
            lemma_eol_after_bounds(t, i + 1);
            lemma_dollar_closer(t, eol_after(t, i), want_double);
        } else if !(t[i] == 36 && (want_double == (i + 1 < t.len() && t[i + 1] == 36))) {
            lemma_dollar_closer(t, i + 1, want_double);
        }
    }
}

fn find_dollar_closer(text: &[u8], from: usize, want_double: bool) -> (r: Option<usize>)
    ensures
        r matches Some(p) ==> dollar_closer(text@, from as int, want_double) == Some(p as int),
        r is None ==> dollar_closer(text@, from as int, want_double) is None,
{
    let mut i = from;
    while i < text.len()
        invariant
            from <= i,
            dollar_closer(text@, i as int, want_double) == dollar_closer(
                text@,
                from as int,
                want_double,
            ),
        decreases text@.len() - i,
    {
        let b = text[i];
        if b == 92 {
            i = if text.len() - i > 2 { i + 2 } else { text.len() };
            continue;
        }
        if b == 37 {
            proof {
                lemma_eol_after_bounds(text@, i as int);
            }
            i = skip_to_eol(text, i);
            continue;
        }
        if b == 36 {
            let is_double = i + 1 < text.len() && text[i + 1] == 36;
            if want_double == is_double {
                return Some(i);
            }
        }
        i += 1;
    }
    None
}

// ── environment tags ───────────────────────────────────────────────────

/// `\begin{NAME}` / `\end{NAME}` (per `word`) at `at`, blanks allowed before
/// the brace: `(name_start, name_end, tag_end)` where `tag_end` is just past
/// the closing brace; the name must be valid UTF-8.
pub open spec fn env_tag(t: Seq<u8>, at: int, word: Seq<u8>) -> Option<(int, int, int)> {
    if !has_at(t, at, word) {
        None
    } else {
        let j = skip_blanks(t, at + word.len());
        if !(0 <= j < t.len() && t[j] == 123) {
            None
        } else {
            let c = first_byte_from(t, j + 1, 125);
            if c >= t.len() || !valid_utf8(t.subrange(j + 1, c)) {
                None
            } else {
                Some((j + 1, c, c + 1))
            }
        }
    }
}

pub proof fn lemma_skip_blanks(t: Seq<u8>, i: int)
    ensures
        i <= skip_blanks(t, i),
        0 <= i <= t.len() ==> skip_blanks(t, i) <= t.len(),
    decreases t.len() - i,
{
    if 0 <= i < t.len() && crate::text::is_blank(t[i]) {
        lemma_skip_blanks(t, i + 1);
    }
}

pub proof fn lemma_env_tag(t: Seq<u8>, at: int, word: Seq<u8>)
    ensures
        env_tag(t, at, word) matches Some((s, e, end)) ==> 0 <= at && at + word.len() < s <= e
            && e < t.len() && end == e + 1 && t[e] == 125,
{
    if has_at(t, at, word) {
        lemma_skip_blanks(t, at + word.len());
        let j = skip_blanks(t, at + word.len());
        if 0 <= j < t.len() && t[j] == 123 {
            lemma_first_byte_from(t, j + 1, 125);
        }
    }
}

pub open spec fn begin_word() -> Seq<u8> {
    "\\begin".spec_bytes()
}

pub open spec fn end_word() -> Seq<u8> {
    "\\end".spec_bytes()
}

/// Read `\begin{NAME}` (when `begin`) or `\end{NAME}` at `at`.
pub fn read_env_tag(text: &[u8], at: usize, begin: bool) -> (r: Option<(usize, usize, usize)>)
    ensures
        r matches Some((s, e, end)) ==> env_tag(text@, at as int, if begin { begin_word() } else { end_word() }) == Some((s as int, e as int, end as int)),
        r is None ==> env_tag(text@, at as int, if begin { begin_word() } else { end_word() }) is None,
{
    let n = text.len();
    let want = if begin { "\\begin".as_bytes() } else { "\\end".as_bytes() };
    if !starts_with_word(text, at, want) {
        return None;
    }
    assert(at + want@.len() <= text@.len());
    let j = skip_blanks_at(text, at + want.len());
    if !(j < text.len() && text[j] == 123) {
        return None;
    }
    let c = find_byte(text, j + 1, 125);
    if c >= text.len() {
        return None;
    }
    match crate::text::utf8_str(&text[j + 1..c]) {
        Some(_) => Some((j + 1, c, c + 1)),
        None => None,
    }
}

// ── the scanner ────────────────────────────────────────────────────────

/// One math region: `open..end` is the whole region including delimiters,
/// `body_start..body_end` its body.
#[derive(Clone, Copy, Debug)]
pub struct MathSpan {
    pub open: usize,
    pub end: usize,
    pub body_start: usize,
    pub body_end: usize,
    pub display: bool,
}

/// `\end{NAME}` for the name bytes `name`.
pub open spec fn close_tag(name: Seq<u8>) -> Seq<u8> {
    "\\end{".spec_bytes() + name + "}".spec_bytes()
}

pub open spec fn dollar_span(t: Seq<u8>, i: int) -> MathSpan {
    let is_double = i + 1 < t.len() && t[i + 1] == 36;
    let w: int = if is_double { 2 } else { 1 };
    let close = dollar_closer(t, i + w, is_double);
    MathSpan {
        open: i as usize,
        end: (match close { Some(p) => p + w, None => t.len() as int }) as usize,
        body_start: (i + w) as usize,
        body_end: (match close { Some(p) => p, None => t.len() as int }) as usize,
        display: is_double,
    }
}

pub open spec fn paren_span(t: Seq<u8>, i: int) -> MathSpan {
    let display = t[i + 1] == 91;
    let delim = if display { "\\]".spec_bytes() } else { "\\)".spec_bytes() };
    let close = find_sub(t, i + 2, delim);
    MathSpan {
        open: i as usize,
        end: (match close { Some(p) => p + delim.len(), None => t.len() as int }) as usize,
        body_start: (i + 2) as usize,
        body_end: (match close { Some(p) => p, None => t.len() as int }) as usize,
        display,
    }
}

pub open spec fn env_span(t: Seq<u8>, i: int, s: int, e: int, tag_end: int) -> MathSpan {
    let ct = close_tag(t.subrange(s, e));
    let close = find_sub(t, tag_end, ct);
    MathSpan {
        open: i as usize,
        end: (match close { Some(p) => p + ct.len(), None => t.len() as int }) as usize,
        body_start: tag_end as usize,
        body_end: (match close { Some(p) => p, None => t.len() as int }) as usize,
        display: true,
    }
}

/// At `i`, a `\begin{NAME}` of a math or verbatim environment.
pub open spec fn env_at(t: Seq<u8>, i: int) -> Option<(int, int, int)> {
    if t[i] == 92 && has_at(t, i, begin_word()) && !escaped(t, i) {
        match env_tag(t, i, begin_word()) {
            Some((s, e, te)) => if is_one_of(t.subrange(s, e), spec_verbatim_envs())
                || is_one_of(t.subrange(s, e), spec_math_envs()) {
                Some((s, e, te))
            } else {
                None
            },
            None => None,
        }
    } else {
        None
    }
}

/// The math regions found by scanning from `i` to the end of the text.
pub open spec fn math_scan(t: Seq<u8>, i: int) -> Seq<MathSpan>
    decreases t.len() - i,
{
    if i < 0 || i >= t.len() {
        seq![]
    } else if t[i] == 37 && !escaped(t, i) {
        proof {
            lemma_eol_after_bounds(t, i + 1);
        }
        math_scan(t, eol_after(t, i + 1))
    } else if env_at(t, i) is Some {
        let (s, e, te) = env_at(t, i)->0;
        let sp = env_span(t, i, s, e, te);
        if sp.end <= i || sp.end > t.len() {
            seq![]
        } else if is_one_of(t.subrange(s, e), spec_verbatim_envs()) {
            math_scan(t, sp.end as int)
        } else {
            seq![sp] + math_scan(t, sp.end as int)
        }
    } else if t[i] == 36 && !escaped(t, i) {
        let sp = dollar_span(t, i);
        if sp.end <= i || sp.end > t.len() {
            seq![]
        } else {
            seq![sp] + math_scan(t, sp.end as int)
        }
    } else if t[i] == 92 && !escaped(t, i) && i + 1 < t.len() && (t[i + 1] == 40 || t[i + 1]
        == 91) {
        let sp = paren_span(t, i);
        if sp.end <= i || sp.end > t.len() {
            seq![]
        } else {
            seq![sp] + math_scan(t, sp.end as int)
        }
    } else {
        math_scan(t, i + 1)
    }
}

fn append_bytes(v: &mut Vec<u8>, s: &[u8])
    ensures
        final(v)@ == old(v)@ + s@,
{
    let mut k: usize = 0;
    while k < s.len()
        invariant
            k <= s@.len(),
            v@ == old(v)@ + s@.take(k as int),
        decreases s@.len() - k,
    {
        v.push(s[k]);
        k += 1;
        assert(s@.take(k as int) =~= s@.take((k - 1) as int).push(s@[k - 1]));
    }
    assert(s@.take(s@.len() as int) =~= s@);
}

/// The bytes of `\end{NAME}`.
pub fn make_close_tag(name: &[u8]) -> (r: Vec<u8>)
    ensures
        r@ == close_tag(name@),
{
    let mut v: Vec<u8> = Vec::new();
    append_bytes(&mut v, "\\end{".as_bytes());
    append_bytes(&mut v, name);
    append_bytes(&mut v, "}".as_bytes());
    assert(v@ =~= close_tag(name@));
    v
}

proof fn lemma_dollar_span(t: Seq<u8>, i: int)
    requires
        t.len() <= usize::MAX,
        0 <= i < t.len(),
    ensures
        ({
            let sp = dollar_span(t, i);
            &&& i < sp.end <= t.len()
            &&& sp.open == i
            &&& i < sp.body_start <= sp.body_end <= sp.end
        }),
{
    let is_double = i + 1 < t.len() && t[i + 1] == 36;
    let w: int = if is_double { 2 } else { 1 };
    lemma_dollar_closer(t, i + w, is_double);
}

proof fn lemma_paren_span(t: Seq<u8>, i: int)
    requires
        t.len() <= usize::MAX,
        0 <= i,
        i + 1 < t.len(),
    ensures
        ({
            let sp = paren_span(t, i);
            &&& i < sp.end <= t.len()
            &&& sp.open == i
            &&& i < sp.body_start <= sp.body_end <= sp.end
        }),
{
    let display = t[i + 1] == 91;
    let delim = if display { "\\]".spec_bytes() } else { "\\)".spec_bytes() };
    lemma_find_sub(t, i + 2, delim);
}

proof fn lemma_env_span(t: Seq<u8>, i: int, s: int, e: int, te: int)
    requires
        t.len() <= usize::MAX,
        0 <= i < s <= e < te <= t.len(),
    ensures
        ({
            let sp = env_span(t, i, s, e, te);
            &&& i < sp.end <= t.len()
            &&& sp.open == i
            &&& i < sp.body_start <= sp.body_end <= sp.end
        }),
{
    let ct = close_tag(t.subrange(s, e));
    lemma_find_sub(t, te, ct);
}

/// One step of the scan at `i`: the region found there (if any) and where
/// the scan resumes.
fn scan_step(text: &[u8], i: usize, maths: &[&str], verbs: &[&str]) -> (r: (Option<MathSpan>, usize))
    requires
        i < text@.len(),
        maths@ == spec_math_envs(),
        verbs@ == spec_verbatim_envs(),
    ensures
        i < r.1 <= text@.len(),
        math_scan(text@, i as int) == (match r.0 {
            Some(sp) => seq![sp],
            None => Seq::<MathSpan>::empty(),
        }) + math_scan(text@, r.1 as int),
{
    let ghost t = text@;
    let b = text[i];
    if b == 37 && !is_escaped(text, i) {
        proof {
            lemma_eol_after_bounds(t, i + 1);
        }
        let next = skip_to_eol(text, i + 1);
        assert(math_scan(t, i as int) =~= Seq::<MathSpan>::empty() + math_scan(t, next as int));
        return (None, next);
    }
    if b == 92 && starts_with_word(text, i, "\\begin".as_bytes()) && !is_escaped(text, i) {
        if let Some((s, e, tag_end)) = read_env_tag(text, i, true) {
            proof {
                lemma_env_tag(t, i as int, begin_word());
            }
            let name = &text[s..e];
            let is_verb = one_of(name, verbs);
            let is_math = one_of(name, maths);
            if is_verb || is_math {
                let ct = make_close_tag(name);
                let close = find_subslice(text, tag_end, ct.as_slice());
                proof {
                    lemma_env_span(t, i as int, s as int, e as int, tag_end as int);
                    lemma_find_sub(t, tag_end as int, ct@);
                }
                let body_end = match close {
                    Some(p) => p,
                    None => text.len(),
                };
                let end = match close {
                    Some(p) => p + ct.len(),
                    None => text.len(),
                };
                if is_verb {
                    assert(math_scan(t, i as int) =~= Seq::<MathSpan>::empty() + math_scan(t, end as int));
                    return (None, end);
                }
                let sp = MathSpan { open: i, end, body_start: tag_end, body_end, display: true };
                return (Some(sp), end);
            }
        }
    }
    if b == 36 && !is_escaped(text, i) {
        let is_double = i + 1 < text.len() && text[i + 1] == 36;
        let w: usize = if is_double { 2 } else { 1 };
        proof {
            lemma_dollar_span(t, i as int);
            lemma_dollar_closer(t, i + w, is_double);
        }
        let close = find_dollar_closer(text, i + w, is_double);
        let body_end = match close {
            Some(p) => p,
            None => text.len(),
        };
        let end = match close {
            Some(p) => p + w,
            None => text.len(),
        };
        let sp = MathSpan { open: i, end, body_start: i + w, body_end, display: is_double };
        return (Some(sp), end);
    }
    if b == 92 && !is_escaped(text, i) && i + 1 < text.len() && (text[i + 1] == 40 || text[i + 1]
        == 91) {
        let display = text[i + 1] == 91;
        let delim = if display { "\\]".as_bytes() } else { "\\)".as_bytes() };
        proof {
            lemma_paren_span(t, i as int);
            lemma_find_sub(t, i + 2, delim@);
        }
        let close = find_subslice(text, i + 2, delim);
        let body_end = match close {
            Some(p) => p,
            None => text.len(),
        };
        let end = match close {
            Some(p) => p + delim.len(),
            None => text.len(),
        };
        let sp = MathSpan { open: i, end, body_start: i + 2, body_end, display };
        return (Some(sp), end);
    }
    assert(math_scan(t, i as int) =~= Seq::<MathSpan>::empty() + math_scan(t, i + 1));
    (None, i + 1)
}

/// All math regions of `text`, in order.
pub fn tokenize_math(text: &[u8]) -> (r: Vec<MathSpan>)
    ensures
        r@ == math_scan(text@, 0),
{
    let mut spans: Vec<MathSpan> = Vec::new();
    let mut i: usize = 0;
    let maths = math_envs();
    let verbs = verbatim_envs();
    while i < text.len()
        invariant
            maths@ == spec_math_envs(),
            verbs@ == spec_verbatim_envs(),
            i <= text@.len(),
            spans@ + math_scan(text@, i as int) == math_scan(text@, 0),
        decreases text@.len() - i,
    {
        let (found, next) = scan_step(text, i, maths.as_slice(), verbs.as_slice());
        match found {
            Some(sp) => {
                let ghost before = spans@;
                spans.push(sp);
                assert(spans@ + math_scan(text@, next as int) =~= before + (seq![sp] + math_scan(text@, next as int)));
            },
            None => {
                assert(spans@ + math_scan(text@, next as int) =~= spans@ + (Seq::<MathSpan>::empty() + math_scan(text@, next as int)));
            },
        }
        i = next;
    }
    assert(spans@ + math_scan(text@, i as int) =~= spans@);
    spans
}

/// The first region of `spans` that contains `off` (`open <= off < end`).
pub open spec fn first_containing(spans: Seq<MathSpan>, off: int) -> Option<MathSpan>
    decreases spans.len(),
{
    if spans.len() == 0 {
        None
    } else if spans[0].open <= off < spans[0].end {
        Some(spans[0])
    } else {
        first_containing(spans.drop_first(), off)
    }
}

/// The math region containing `offset` (clamped to the text), if any.
pub open spec fn spec_math_span_at(t: Seq<u8>, offset: int) -> Option<MathSpan> {
    first_containing(math_scan(t, 0), if offset < t.len() { offset } else { t.len() as int })
}

/// The math region of `text` that contains byte `offset`.
pub fn math_span_at(text: &[u8], offset: usize) -> (r: Option<MathSpan>)
    ensures
        r == spec_math_span_at(text@, offset as int),
{
    let off = if offset < text.len() { offset } else { text.len() };
    let spans = tokenize_math(text);
    let mut k: usize = 0;
    assert(spans@.skip(0) =~= spans@);
    while k < spans.len()
        invariant
            k <= spans@.len(),
            spans@ == math_scan(text@, 0),
            first_containing(spans@.skip(k as int), off as int) == spec_math_span_at(
                text@,
                offset as int,
            ),
        decreases spans@.len() - k,
    {
        assert(spans@.skip(k as int).drop_first() =~= spans@.skip(k + 1));
        if off >= spans[k].open && off < spans[k].end {
            return Some(spans[k]);
        }
        k += 1;
    }
    None
}


// ── region bodies ──────────────────────────────────────────────────────

/// A region's body lies in the text and is cut at ASCII bytes.
pub open spec fn span_cuts(t: Seq<u8>, sp: MathSpan) -> bool {
    &&& sp.body_start <= sp.body_end <= t.len()
    &&& crate::text::ascii_cut(t, sp.body_start as int)
    &&& crate::text::ascii_cut(t, sp.body_end as int)
}

proof fn lemma_find_sub_match(t: Seq<u8>, i: int, needle: Seq<u8>)
    ensures
        find_sub(t, i, needle) matches Some(p) ==> i <= p && p + needle.len() <= t.len()
            && needle.len() > 0 && t[p] == needle[0],
    decreases t.len() - i,
{
    if !(needle.len() == 0 || i < 0 || i + needle.len() > t.len()) {
        if t.subrange(i, i + needle.len()) != needle {
            lemma_find_sub_match(t, i + 1, needle);
        } else {
            assert(t.subrange(i, i + needle.len())[0] == t[i]);
        }
    }
}

proof fn lemma_delims_start_with_backslash(name: Seq<u8>)
    ensures
        "\\]".spec_bytes().len() == 2 && "\\]".spec_bytes()[0] == 92,
        "\\)".spec_bytes().len() == 2 && "\\)".spec_bytes()[0] == 92,
        close_tag(name).len() > 0 && close_tag(name)[0] == 92,
{
    reveal_strlit("\\]");
    reveal_strlit("\\)");
    reveal_strlit("\\end{");
    is_ascii_chars_encode_utf8("\\]"@);
    is_ascii_chars_encode_utf8("\\)"@);
    is_ascii_chars_encode_utf8("\\end{"@);
    assert(("\\end{".spec_bytes() + name + "}".spec_bytes())[0] == "\\end{".spec_bytes()[0]);
}

/// Every region of the scan from `i` has its body cut at ASCII bytes.
pub proof fn lemma_math_scan_cuts(t: Seq<u8>, i: int)
    requires
        t.len() <= usize::MAX,
    ensures
        forall|k: int| 0 <= k < math_scan(t, i).len() ==> span_cuts(t, #[trigger] math_scan(t, i)[k]),
    decreases t.len() - i,
{
    if !(i < 0 || i >= t.len()) {
        if t[i] == 37 && !escaped(t, i) {
            lemma_eol_after_bounds(t, i + 1);
            lemma_math_scan_cuts(t, eol_after(t, i + 1));
            assert(math_scan(t, i) == math_scan(t, eol_after(t, i + 1)));
        } else if env_at(t, i) is Some {
            let (s, e, te) = env_at(t, i)->0;
            lemma_env_tag(t, i, begin_word());
            let sp = env_span(t, i, s, e, te);
            if !(sp.end <= i || sp.end > t.len()) {
                lemma_math_scan_cuts(t, sp.end as int);
                if is_one_of(t.subrange(s, e), spec_verbatim_envs()) {
                    assert(math_scan(t, i) == math_scan(t, sp.end as int));
                } else {
                    let ct = close_tag(t.subrange(s, e));
                    lemma_find_sub_match(t, te, ct);
                    lemma_delims_start_with_backslash(t.subrange(s, e));
                    assert(span_cuts(t, sp));
                    lemma_cons_cuts(t, sp, math_scan(t, sp.end as int));
                }
            }
        } else if t[i] == 36 && !escaped(t, i) {
            let sp = dollar_span(t, i);
            let is_double = i + 1 < t.len() && t[i + 1] == 36;
            let w: int = if is_double { 2 } else { 1 };
            lemma_dollar_closer(t, i + w, is_double);
            if !(sp.end <= i || sp.end > t.len()) {
                lemma_math_scan_cuts(t, sp.end as int);
                assert(span_cuts(t, sp));
                lemma_cons_cuts(t, sp, math_scan(t, sp.end as int));
            }
        } else if t[i] == 92 && !escaped(t, i) && i + 1 < t.len() && (t[i + 1] == 40 || t[i + 1] == 91) {
            let sp = paren_span(t, i);
            let display = t[i + 1] == 91;
            let delim = if display { "\\]".spec_bytes() } else { "\\)".spec_bytes() };
            lemma_find_sub_match(t, i + 2, delim);
            lemma_delims_start_with_backslash(Seq::empty());
            if !(sp.end <= i || sp.end > t.len()) {
                lemma_math_scan_cuts(t, sp.end as int);
                assert(span_cuts(t, sp));
                lemma_cons_cuts(t, sp, math_scan(t, sp.end as int));
            }
        } else {
            lemma_math_scan_cuts(t, i + 1);
            assert(math_scan(t, i) == math_scan(t, i + 1));
        }
    }
}

/// Each region has its delimiters around its body, all within `[lo, hi]`.
pub open spec fn span_in(sp: MathSpan, lo: int, hi: int) -> bool {
    lo <= sp.open < sp.body_start <= sp.body_end <= sp.end <= hi
}

/// The regions are in document order and do not overlap.
pub open spec fn spans_ordered(spans: Seq<MathSpan>) -> bool {
    forall|k: int| 0 <= k < spans.len() - 1 ==> (#[trigger] spans[k]).end <= spans[k + 1].open
}

proof fn lemma_cons_ordered(sp: MathSpan, rest: Seq<MathSpan>, lo: int, hi: int)
    requires
        span_in(sp, lo, hi),
        forall|k: int| 0 <= k < rest.len() ==> span_in(#[trigger] rest[k], sp.end as int, hi),
        spans_ordered(rest),
    ensures
        forall|k: int| 0 <= k < (seq![sp] + rest).len() ==> span_in(#[trigger] (seq![sp] + rest)[k], lo, hi),
        spans_ordered(seq![sp] + rest),
{
    let all = seq![sp] + rest;
    assert forall|k: int| 0 <= k < all.len() implies span_in(#[trigger] all[k], lo, hi) by {
        if k > 0 {
            assert(all[k] == rest[k - 1]);
        }
    }
    assert forall|k: int| 0 <= k < all.len() - 1 implies (#[trigger] all[k]).end <= all[k + 1].open by {
        assert(all[k + 1] == rest[k]);
        if k > 0 {
            assert(all[k] == rest[k - 1]);
        }
    }
}

/// The regions of a text lie within it, each with its opening delimiter,
/// body and closing delimiter in that order, and follow each other in
/// document order without overlapping.
pub proof fn law_math_spans_ordered(t: Seq<u8>, i: int)
    requires
        t.len() <= usize::MAX,
        0 <= i,
    ensures
        forall|k: int| 0 <= k < math_scan(t, i).len() ==> span_in(#[trigger] math_scan(t, i)[k], i, t.len() as int),
        spans_ordered(math_scan(t, i)),
    decreases t.len() - i,
{
    lemma_math_scan_cuts(t, i);
    if !(i < 0 || i >= t.len()) {
        if t[i] == 37 && !escaped(t, i) {
            lemma_eol_after_bounds(t, i + 1);
            law_math_spans_ordered(t, eol_after(t, i + 1));
            assert(math_scan(t, i) == math_scan(t, eol_after(t, i + 1)));
        } else if env_at(t, i) is Some {
            let (s, e, te) = env_at(t, i)->0;
            lemma_env_tag(t, i, begin_word());
            let sp = env_span(t, i, s, e, te);
            if !(sp.end <= i || sp.end > t.len()) {
                law_math_spans_ordered(t, sp.end as int);
                if is_one_of(t.subrange(s, e), spec_verbatim_envs()) {
                    assert(math_scan(t, i) == math_scan(t, sp.end as int));
                } else {
                    let ct = close_tag(t.subrange(s, e));
                    lemma_find_sub_match(t, te, ct);
                    assert(math_scan(t, i) == seq![sp] + math_scan(t, sp.end as int));
                    assert(span_cuts(t, math_scan(t, i)[0]));
                    lemma_cons_ordered(sp, math_scan(t, sp.end as int), i, t.len() as int);
                }
            }
        } else if t[i] == 36 && !escaped(t, i) {
            let sp = dollar_span(t, i);
            let is_double = i + 1 < t.len() && t[i + 1] == 36;
            let w: int = if is_double { 2 } else { 1 };
            lemma_dollar_closer(t, i + w, is_double);
            if !(sp.end <= i || sp.end > t.len()) {
                law_math_spans_ordered(t, sp.end as int);
                assert(math_scan(t, i) == seq![sp] + math_scan(t, sp.end as int));
                assert(span_cuts(t, math_scan(t, i)[0]));
                lemma_cons_ordered(sp, math_scan(t, sp.end as int), i, t.len() as int);
            }
        } else if t[i] == 92 && !escaped(t, i) && i + 1 < t.len() && (t[i + 1] == 40 || t[i + 1] == 91) {
            let sp = paren_span(t, i);
            let display = t[i + 1] == 91;
            let delim = if display { "\\]".spec_bytes() } else { "\\)".spec_bytes() };
            lemma_find_sub_match(t, i + 2, delim);
            if !(sp.end <= i || sp.end > t.len()) {
                law_math_spans_ordered(t, sp.end as int);
                assert(math_scan(t, i) == seq![sp] + math_scan(t, sp.end as int));
                assert(span_cuts(t, math_scan(t, i)[0]));
                lemma_cons_ordered(sp, math_scan(t, sp.end as int), i, t.len() as int);
            }
        } else {
            law_math_spans_ordered(t, i + 1);
            assert(math_scan(t, i) == math_scan(t, i + 1));
        }
    }
}

proof fn lemma_cons_cuts(t: Seq<u8>, sp: MathSpan, rest: Seq<MathSpan>)
    requires
        span_cuts(t, sp),
        forall|k: int| 0 <= k < rest.len() ==> span_cuts(t, #[trigger] rest[k]),
    ensures
        forall|k: int| 0 <= k < (seq![sp] + rest).len() ==> span_cuts(t, #[trigger] (seq![sp] + rest)[k]),
{
    assert forall|k: int| 0 <= k < (seq![sp] + rest).len() implies span_cuts(t, #[trigger] (seq![sp] + rest)[k]) by {
        if k > 0 {
            assert((seq![sp] + rest)[k] == rest[k - 1]);
        }
    }
}


proof fn lemma_first_containing(spans: Seq<MathSpan>, off: int)
    ensures
        match first_containing(spans, off) {
            Some(sp) => sp.open <= off < sp.end && (exists|k: int| 0 <= k < spans.len() && spans[k] == sp
                && forall|q: int| 0 <= q < k ==> !(#[trigger] spans[q].open <= off < spans[q].end)),
            None => forall|k: int| 0 <= k < spans.len() ==> !(#[trigger] spans[k].open <= off < spans[k].end),
        },
    decreases spans.len(),
{
    if spans.len() > 0 && !(spans[0].open <= off < spans[0].end) {
        let rest = spans.drop_first();
        lemma_first_containing(rest, off);
        match first_containing(rest, off) {
            Some(sp) => {
                let k = choose|k: int| 0 <= k < rest.len() && rest[k] == sp
                    && forall|q: int| 0 <= q < k ==> !(#[trigger] rest[q].open <= off < rest[q].end);
                assert(spans[k + 1] == sp);
                assert forall|q: int| 0 <= q < k + 1 implies !(#[trigger] spans[q].open <= off < spans[q].end) by {
                    if q > 0 {
                        assert(spans[q] == rest[q - 1]);
                    }
                }
            },
            None => {
                assert forall|k: int| 0 <= k < spans.len() implies !(#[trigger] spans[k].open <= off < spans[k].end) by {
                    if k > 0 {
                        assert(spans[k] == rest[k - 1]);
                    }
                }
            },
        }
    } else if spans.len() > 0 {
        assert(spans[0] == spans[0]);
    }
}

/// The math region a hover uses is the first region of the text, in
/// document order, that contains the hovered byte (clamped to the text);
/// there is none exactly when no region contains it.
pub proof fn law_math_region_contains(t: Seq<u8>, offset: int)
    ensures
        ({
            let off = if offset < t.len() { offset } else { t.len() as int };
            let spans = math_scan(t, 0);
            match spec_math_span_at(t, offset) {
                Some(sp) => sp.open <= off < sp.end && (exists|k: int| 0 <= k < spans.len() && spans[k] == sp
                    && forall|q: int| 0 <= q < k ==> !(#[trigger] spans[q].open <= off < spans[q].end)),
                None => forall|k: int| 0 <= k < spans.len() ==> !(#[trigger] spans[k].open <= off < spans[k].end),
            }
        }),
{
    lemma_first_containing(math_scan(t, 0), if offset < t.len() { offset } else { t.len() as int });
}

/// A math region: its span (delimiters included), its body text, and
/// whether it is display math.
pub struct MathRegion {
    pub start: usize,
    pub end: usize,
    pub source: String,
    pub display: bool,
}

/// The math region containing byte `offset` of `text`, unless its body is
/// longer than `max_len` bytes.
pub fn find_math_region(text: &str, offset: usize, max_len: usize) -> (r: Option<MathRegion>)
    ensures
        match spec_math_span_at(text.spec_bytes(), offset as int) {
            None => r is None,
            Some(sp) => if sp.body_end - sp.body_start > max_len {
                r is None
            } else {
                r matches Some(m) && m.start == sp.open && m.end == sp.end && m.display == sp.display
                    && m.source@ == decode_utf8(text.spec_bytes().subrange(sp.body_start as int, sp.body_end as int))
            },
        },
{
    let bytes = text.as_bytes();
    let n = bytes.len();
    match math_span_at(bytes, offset) {
        None => None,
        Some(sp) => {
            proof {
                lemma_math_scan_cuts(bytes@, 0);
                lemma_first_containing(math_scan(bytes@, 0), if offset < bytes@.len() { offset as int } else { bytes@.len() as int });
                let k = choose|k: int| 0 <= k < math_scan(bytes@, 0).len() && math_scan(bytes@, 0)[k] == sp;
                assert(span_cuts(bytes@, math_scan(bytes@, 0)[k]));
                encode_utf8_valid_utf8(text@);
                crate::text::lemma_ascii_cut_valid(bytes@, sp.body_start as int, sp.body_end as int);
            }
            if sp.body_end - sp.body_start > max_len {
                return None;
            }
            match crate::text::utf8_str(&bytes[sp.body_start..sp.body_end]) {
                Some(src) => Some(MathRegion { start: sp.open, end: sp.end, source: src.to_owned(), display: sp.display }),
                None => None,
            }
        },
    }
}

} // verus!
