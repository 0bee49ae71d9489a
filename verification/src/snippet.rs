//! Source snippets shown for `\ref` targets: the body of the labelled
//! environment, the section line, or the lines around a free-standing
//! label, limited to 12 lines and 4 KiB.
use vstd::prelude::*;
use vstd::utf8::valid_utf8;
use vstd::string::StringSliceAdditionalSpecFns;
use crate::text::{
    eol_after, skip_to_eol, lemma_eol_after_bounds, is_ascii_ws, byte_is_ascii_ws, has_at,
    starts_with_word, escaped, is_escaped, utf8_str,
};

verus! {

/// Line limit of a snippet body.
pub const SNIPPET_MAX_LINES: usize = 12;

/// Byte limit of a snippet body.
pub const SNIPPET_MAX_BYTES: usize = 4096;

/// The marker appended when a snippet was cut short.
pub open spec fn marker() -> Seq<u8> {
    "% (truncated)".spec_bytes()
}

/// `b` when it is valid UTF-8, else nothing (`from_utf8(b).unwrap_or("")`).
pub open spec fn valid_or_empty(b: Seq<u8>) -> Seq<u8> {
    if valid_utf8(b) {
        b
    } else {
        Seq::empty()
    }
}

pub fn keep_if_valid(b: &[u8]) -> (r: Vec<u8>)
    ensures
        r@ == valid_or_empty(b@),
{
    if utf8_str(b).is_some() {
        vstd::slice::slice_to_vec(b)
    } else {
        Vec::new()
    }
}

// ── lines ──────────────────────────────────────────────────────────────

/// Number of line feeds in `s`.
pub open spec fn newlines(s: Seq<u8>) -> nat
    decreases s.len(),
{
    if s.len() == 0 {
        0
    } else {
        newlines(s.drop_last()) + if s.last() == 10 { 1nat } else { 0nat }
    }
}

proof fn lemma_newlines_bound(s: Seq<u8>)
    ensures
        newlines(s) <= s.len(),
    decreases s.len(),
{
    if s.len() > 0 {
        lemma_newlines_bound(s.drop_last());
    }
}

/// Bytes without a line feed between `i` and `j` add no line.
pub proof fn lemma_newlines_flat(t: Seq<u8>, i: int, j: int)
    requires
        0 <= i <= j <= t.len(),
        forall|k: int| i <= k < j ==> t[k] != 10,
    ensures
        newlines(t.take(j)) == newlines(t.take(i)),
    decreases j - i,
{
    if j > i {
        assert(t.take(j).drop_last() =~= t.take(j - 1));
        assert(t.take(j).last() == t[j - 1]);
        lemma_newlines_flat(t, i, j - 1);
    }
}

/// A prefix has no more line feeds than the whole.
proof fn lemma_newlines_prefix(t: Seq<u8>, k: int)
    requires
        0 <= k <= t.len(),
    ensures
        newlines(t.take(k)) <= newlines(t),
    decreases t.len() - k,
{
    if k < t.len() {
        assert(t.take(k + 1).drop_last() =~= t.take(k));
        lemma_newlines_prefix(t, k + 1);
    } else {
        assert(t.take(k) =~= t);
    }
}

/// Whether `text` has at most `u32::MAX` line feeds, so that every line
/// number in it fits in 32 bits.
pub fn lines_fit(text: &[u8]) -> (r: bool)
    ensures
        r == (newlines(text@) <= u32::MAX),
{
    let mut count: usize = 0;
    let mut k: usize = 0;
    while k < text.len()
        invariant
            k <= text@.len(),
            count == newlines(text@.take(k as int)),
            count <= k,
        decreases text@.len() - k,
    {
        proof {
            assert(text@.take(k + 1).drop_last() =~= text@.take(k as int));
        }
        if text[k] == 10 {
            count += 1;
        }
        k += 1;
    }
    assert(text@.take(k as int) =~= text@);
    count <= 4294967295
}

/// 0-based line of byte `offset` (clamped to the text): the number of line
/// feeds before it.
pub fn offset_to_line(text: &[u8], offset: usize) -> (r: u32)
    requires
        newlines(text@) <= u32::MAX,
    ensures
        r == newlines(text@.take(if offset < text@.len() { offset as int } else { text@.len() as int })),
{
    let n = if offset < text.len() { offset } else { text.len() };
    let mut line: u32 = 0;
    let mut k: usize = 0;
    while k < n
        invariant
            n <= text@.len(),
            newlines(text@) <= u32::MAX,
            k <= n,
            line == newlines(text@.take(k as int)),
        decreases n - k,
    {
        proof {
            assert(text@.take(k + 1).drop_last() =~= text@.take(k as int));
            lemma_newlines_prefix(text@, k + 1);
        }
        if text[k] == 10 {
            line += 1;
        }
        k += 1;
    }
    line
}

/// Start of the line containing `i`: just past the preceding line feed, or 0.
pub open spec fn line_start_from(t: Seq<u8>, i: int) -> int
    decreases i,
{
    if i <= 0 || i > t.len() {
        if i <= 0 {
            0
        } else {
            line_start_from(t, t.len() as int)
        }
    } else if t[i - 1] == 10 {
        i
    } else {
        line_start_from(t, i - 1)
    }
}

pub proof fn lemma_line_start(t: Seq<u8>, i: int)
    requires
        0 <= i <= t.len(),
    ensures
        0 <= line_start_from(t, i) <= i,
        line_start_from(t, i) > 0 ==> t[line_start_from(t, i) - 1] == 10,
    decreases i,
{
    if i > 0 && t[i - 1] != 10 {
        lemma_line_start(t, i - 1);
    }
}

/// Start of the line holding byte `offset` (clamped to the text).
pub open spec fn line_start_at(t: Seq<u8>, offset: int) -> int {
    line_start_from(t, if offset < t.len() { offset } else { t.len() as int })
}

pub fn line_start(text: &[u8], offset: usize) -> (r: usize)
    ensures
        r == line_start_at(text@, offset as int),
        r <= text@.len(),
        r <= offset,
        r > 0 ==> text@[r - 1] == 10,
{
    let n = if offset < text.len() { offset } else { text.len() };
    proof {
        lemma_line_start(text@, n as int);
    }
    let mut i = n;
    while i > 0 && text[i - 1] != 10
        invariant
            i <= n <= text@.len(),
            line_start_from(text@, i as int) == line_start_from(text@, n as int),
        decreases i,
    {
        i -= 1;
    }
    i
}

/// Index just past the end of the line holding byte `offset`.
pub open spec fn line_end_at(t: Seq<u8>, offset: int) -> int {
    eol_after(t, if offset < t.len() { offset } else { t.len() as int })
}

pub fn line_end(text: &[u8], offset: usize) -> (r: usize)
    ensures
        r == line_end_at(text@, offset as int),
        r <= text@.len(),
        (if offset < text@.len() { offset as int } else { text@.len() as int }) <= r,
{
    let n = if offset < text.len() { offset } else { text.len() };
    skip_to_eol(text, n)
}

/// `s` without its trailing line feeds (`trim_end_matches('\n')`).
pub open spec fn strip_trailing_newlines(s: Seq<u8>) -> Seq<u8>
    decreases s.len(),
{
    if s.len() > 0 && s.last() == 10 {
        strip_trailing_newlines(s.drop_last())
    } else {
        s
    }
}

proof fn lemma_strip_trailing_newlines(s: Seq<u8>)
    ensures
        strip_trailing_newlines(s) == s.take(strip_trailing_newlines(s).len() as int),
        strip_trailing_newlines(s).len() <= s.len(),
    decreases s.len(),
{
    if s.len() > 0 && s.last() == 10 {
        lemma_strip_trailing_newlines(s.drop_last());
        assert(s.drop_last().take(strip_trailing_newlines(s).len() as int) =~= s.take(
            strip_trailing_newlines(s).len() as int,
        ));
    } else {
        assert(s.take(s.len() as int) =~= s);
    }
}

pub fn strip_newlines_end(s: &[u8]) -> (r: usize)
    ensures
        r == strip_trailing_newlines(s@).len(),
        s@.take(r as int) == strip_trailing_newlines(s@),
        r <= s@.len(),
{
    proof {
        lemma_strip_trailing_newlines(s@);
    }
    let mut e = s.len();
    assert(s@.take(e as int) =~= s@);
    while e > 0 && s[e - 1] == 10
        invariant
            e <= s@.len(),
            strip_trailing_newlines(s@.take(e as int)) == strip_trailing_newlines(s@),
        decreases e,
    {
        assert(s@.take(e as int).drop_last() =~= s@.take(e - 1));
        e -= 1;
    }
    assert(s@.take(e as int) =~= s@.take(e as int));
    e
}

// ── blank-line trimming ────────────────────────────────────────────────

/// `s[a..b]` holds a byte that is not ASCII white space.
pub open spec fn has_content(s: Seq<u8>, a: int, b: int) -> bool {
    exists|k: int| a <= k < b && !is_ascii_ws(#[trigger] s[k])
}

fn any_content(s: &[u8], a: usize, b: usize) -> (r: bool)
    requires
        a <= b <= s@.len(),
    ensures
        r == has_content(s@, a as int, b as int),
{
    let mut k = a;
    while k < b
        invariant
            a <= k <= b <= s@.len(),
            forall|j: int| a <= j < k ==> is_ascii_ws(#[trigger] s@[j]),
        decreases b - k,
    {
        if !byte_is_ascii_ws(s[k]) {
            return true;
        }
        k += 1;
    }
    false
}

/// Start of the first line (from `start`) that has content, or the length.
pub open spec fn first_content_line(s: Seq<u8>, start: int) -> int
    decreases s.len() - start,
{
    if start < 0 || start >= s.len() {
        s.len() as int
    } else {
        let le = crate::math::first_byte_from(s, start, 10);
        if has_content(s, start, le) {
            start
        } else if le < s.len() {
            proof {
                crate::math::lemma_first_byte_from(s, start, 10);
            }
            first_content_line(s, le + 1)
        } else {
            s.len() as int
        }
    }
}

/// Walking back from `end` over whole lines: the end of the last line (at or
/// after `start`) that has content.
pub open spec fn last_content_end(s: Seq<u8>, start: int, end: int) -> int
    decreases end,
{
    if end <= start || end <= 0 || end > s.len() {
        end
    } else {
        let ls = line_start_from(s, end);
        if has_content(s, ls, end) {
            end
        } else if ls == 0 {
            0
        } else {
            proof {
                lemma_line_start(s, end);
            }
            last_content_end(s, start, ls - 1)
        }
    }
}

/// `s` without its leading and trailing blank lines.
pub open spec fn trim_blank_lines_of(s: Seq<u8>) -> Seq<u8> {
    let a = first_content_line(s, 0);
    let b = last_content_end(s, a, s.len() as int);
    if b < a {
        Seq::empty()
    } else {
        valid_or_empty(s.subrange(a, b))
    }
}

proof fn lemma_first_content_line(s: Seq<u8>, start: int)
    requires
        0 <= start,
    ensures
        start <= s.len() ==> start <= first_content_line(s, start),
        first_content_line(s, start) <= s.len(),
        first_content_line(s, start) < s.len() ==> has_content(s, first_content_line(s, start), crate::math::first_byte_from(s, first_content_line(s, start), 10)),
    decreases s.len() - start,
{
    if start < s.len() {
        let le = crate::math::first_byte_from(s, start, 10);
        crate::math::lemma_first_byte_from(s, start, 10);
        if !has_content(s, start, le) && le < s.len() {
            lemma_first_content_line(s, le + 1);
        }
    }
}

/// Trim leading and trailing blank (empty or white-space-only) lines.
pub fn trim_blank_lines(s: &[u8]) -> (r: Vec<u8>)
    ensures
        r@ == trim_blank_lines_of(s@),
{
    let n = s.len();
    let mut start: usize = 0;
    while start < n
        invariant
            n == s@.len(),
            start <= n,
            first_content_line(s@, start as int) == first_content_line(s@, 0),
        ensures
            start as int == first_content_line(s@, 0),
        decreases n - start,
    {
        let le = crate::math::find_byte(s, start, 10);
        if any_content(s, start, le) {
            break;
        }
        start = if le < n { le + 1 } else { n };
    }
    let mut end = n;
    while end > start
        invariant
            n == s@.len(),
            start <= n,
            end <= n,
            start as int == first_content_line(s@, 0),
            last_content_end(s@, start as int, end as int) == last_content_end(s@, start as int, n as int),
            end < start ==> last_content_end(s@, start as int, end as int) == end,
        ensures
            end as int == last_content_end(s@, start as int, n as int),
        decreases end,
    {
        let ls = line_start(s, end);
        if any_content(s, ls, end) {
            break;
        }
        if ls == 0 {
            end = 0;
            break;
        }
        end = ls - 1;
    }
    if end < start {
        return Vec::new();
    }
    keep_if_valid(&s[start..end])
}


// ── truncation ─────────────────────────────────────────────────────────

/// Number of lines of `b` as counted for the limit: one per line feed, plus
/// one for a last line without a line feed (an empty body counts as one).
pub open spec fn line_count(b: Seq<u8>) -> nat {
    newlines(b) + if b.len() > 0 && b.last() == 10 { 0nat } else { 1nat }
}

/// Length of the prefix of `b` made of the whole lines (from `p`, having
/// kept `count` already) that fit within the line and byte limits.
pub open spec fn kept_len(b: Seq<u8>, p: int, count: nat) -> int
    decreases b.len() - p,
{
    if p < 0 || p >= b.len() {
        p
    } else {
        let q = eol_after(b, p);
        if count + 1 > SNIPPET_MAX_LINES || q > SNIPPET_MAX_BYTES || q <= p || q > b.len() {
            p
        } else {
            kept_len(b, q, count + 1)
        }
    }
}

proof fn lemma_kept_len(b: Seq<u8>, p: int, count: nat)
    requires
        0 <= p <= b.len(),
    ensures
        p <= kept_len(b, p, count) <= b.len(),
    decreases b.len() - p,
{
    if p < b.len() {
        let q = eol_after(b, p);
        lemma_eol_after_bounds(b, p);
        if !(count + 1 > SNIPPET_MAX_LINES || q > SNIPPET_MAX_BYTES || q <= p || q > b.len()) {
            lemma_kept_len(b, q, count + 1);
        }
    }
}

/// The snippet limits: a body within 12 lines and 4 KiB is kept whole;
/// otherwise its leading whole lines that fit are kept, a line feed is
/// added if needed, and the truncation marker is appended.
pub open spec fn truncated(b: Seq<u8>) -> Seq<u8> {
    if line_count(b) <= SNIPPET_MAX_LINES && b.len() <= SNIPPET_MAX_BYTES {
        b
    } else {
        let k = kept_len(b, 0, 0);
        let kept = b.take(k);
        (if k > 0 && b[k - 1] != 10 {
            kept.push(10)
        } else {
            kept
        }) + marker()
    }
}

proof fn lemma_eol_newlines(b: Seq<u8>, p: int)
    requires
        0 <= p < b.len(),
    ensures
        newlines(b.take(eol_after(b, p))) <= newlines(b.take(p)) + 1,
    decreases b.len() - p,
{
    assert(b.take(p + 1).drop_last() =~= b.take(p));
    assert(b.take(p + 1).last() == b[p]);
    assert(newlines(b.take(p + 1)) == newlines(b.take(p)) + if b[p] == 10 { 1nat } else { 0nat });
    if b[p] == 10 {
        assert(eol_after(b, p) == p + 1);
    } else if p + 1 < b.len() {
        assert(eol_after(b, p) == eol_after(b, p + 1));
        lemma_eol_newlines(b, p + 1);
    } else {
        assert(eol_after(b, p + 1) == b.len());
        assert(eol_after(b, p) == p + 1);
    }
}

proof fn lemma_kept_limits(b: Seq<u8>, p: int, count: nat)
    requires
        0 <= p <= b.len(),
        p <= SNIPPET_MAX_BYTES,
        count <= SNIPPET_MAX_LINES,
        newlines(b.take(p)) <= count,
    ensures
        kept_len(b, p, count) <= SNIPPET_MAX_BYTES,
        newlines(b.take(kept_len(b, p, count))) <= SNIPPET_MAX_LINES,
    decreases b.len() - p,
{
    if p < b.len() {
        let q = eol_after(b, p);
        lemma_eol_after_bounds(b, p);
        if !(count + 1 > SNIPPET_MAX_LINES || q > SNIPPET_MAX_BYTES || q <= p || q > b.len()) {
            lemma_eol_newlines(b, p);
            lemma_kept_limits(b, q, count + 1);
        }
    }
}

/// The snippet limits: a body within 12 lines and 4 KiB is shown whole;
/// any other is cut to a prefix of whole lines within both limits, and
/// the truncation marker closes it on a line of its own.
pub proof fn law_snippet_limits(b: Seq<u8>)
    ensures
        line_count(b) <= SNIPPET_MAX_LINES && b.len() <= SNIPPET_MAX_BYTES ==> truncated(b) == b,
        !(line_count(b) <= SNIPPET_MAX_LINES && b.len() <= SNIPPET_MAX_BYTES) ==> ({
            let k = kept_len(b, 0, 0);
            &&& k <= b.len()
            &&& k <= SNIPPET_MAX_BYTES
            &&& newlines(b.take(k)) <= SNIPPET_MAX_LINES
            &&& truncated(b) == (if k > 0 && b[k - 1] != 10 { b.take(k).push(10) } else { b.take(k) }) + marker()
        }),
{
    lemma_kept_len(b, 0, 0);
    assert(b.take(0) =~= Seq::<u8>::empty());
    lemma_kept_limits(b, 0, 0);
}

fn count_newlines(b: &[u8]) -> (r: usize)
    ensures
        r == newlines(b@),
{
    let mut c: usize = 0;
    let mut k: usize = 0;
    while k < b.len()
        invariant
            k <= b@.len(),
            c == newlines(b@.take(k as int)),
            c <= k,
        decreases b@.len() - k,
    {
        assert(b@.take(k + 1).drop_last() =~= b@.take(k as int));
        if b[k] == 10 {
            c += 1;
        }
        k += 1;
    }
    assert(b@.take(k as int) =~= b@);
    c
}

/// Apply the line / byte limits to a snippet body.
pub fn truncate_snippet(body: &[u8]) -> (r: Vec<u8>)
    ensures
        r@ == truncated(body@),
{
    let nl = count_newlines(body);
    let ends_nl = body.len() > 0 && body[body.len() - 1] == 10;
    proof {
        if body@.len() > 0 {
            lemma_newlines_bound(body@.drop_last());
        }
    }
    let total_lines: usize = if ends_nl { nl } else { nl + 1 };
    if total_lines <= SNIPPET_MAX_LINES && body.len() <= SNIPPET_MAX_BYTES {
        return vstd::slice::slice_to_vec(body);
    }
    let mut count: usize = 0;
    let mut p: usize = 0;
    proof {
        lemma_kept_len(body@, 0, 0);
    }
    while p < body.len()
        invariant
            p <= body@.len(),
            count <= SNIPPET_MAX_LINES,
            kept_len(body@, p as int, count as nat) == kept_len(body@, 0, 0),
        ensures
            p as int == kept_len(body@, 0, 0),
        decreases body@.len() - p,
    {
        proof {
            lemma_eol_after_bounds(body@, p as int);
        }
        let q = skip_to_eol(body, p);
        if count + 1 > SNIPPET_MAX_LINES || q > SNIPPET_MAX_BYTES {
            break;
        }
        p = q;
        count += 1;
    }
    let mut kept: Vec<u8> = vstd::slice::slice_to_vec(&body[0..p]);
    if p > 0 && body[p - 1] != 10 {
        kept.push(10);
    }
    let m = "% (truncated)".as_bytes();
    let mut k: usize = 0;
    let ghost base = kept@;
    while k < m.len()
        invariant
            k <= m@.len(),
            kept@ == base + m@.take(k as int),
        decreases m@.len() - k,
    {
        kept.push(m[k]);
        k += 1;
        assert(m@.take(k as int) =~= m@.take((k - 1) as int).push(m@[k - 1]));
    }
    assert(m@.take(m@.len() as int) =~= m@);
    assert(body@.subrange(0, p as int) =~= body@.take(p as int));
    kept
}

// ── snippet kinds ──────────────────────────────────────────────────────

/// The single line holding `label_at`, its trailing line feeds replaced by
/// one, followed by the truncation marker.
pub open spec fn label_line_fallback(t: Seq<u8>, label_at: int) -> Seq<u8> {
    let ls = line_start_at(t, label_at);
    let le = line_end_at(t, label_at);
    strip_trailing_newlines(valid_or_empty(t.subrange(ls, le))).push(10) + marker()
}

/// Snippet for a label inside an environment whose body spans `body`.
pub open spec fn env_body_snippet(t: Seq<u8>, label_at: int, body: Option<(int, int)>) -> Seq<u8> {
    match body {
        None => label_line_fallback(t, label_at),
        Some((bs, be)) => if be <= bs {
            label_line_fallback(t, label_at)
        } else {
            let bs2 = if bs < t.len() { bs } else { t.len() as int };
            let be2 = if be < t.len() { be } else { t.len() as int };
            truncated(trim_blank_lines_of(valid_or_empty(t.subrange(bs2, be2))))
        },
    }
}

fn label_line_with_marker(text: &[u8], label_at: usize) -> (r: Vec<u8>)
    ensures
        r@ == label_line_fallback(text@, label_at as int),
{
    let ls = line_start(text, label_at);
    let le = line_end(text, label_at);
    let line = keep_if_valid(&text[ls..le]);
    let e = strip_newlines_end(line.as_slice());
    let mut out: Vec<u8> = vstd::slice::slice_to_vec(&line.as_slice()[0..e]);
    out.push(10);
    let m = "% (truncated)".as_bytes();
    let mut k: usize = 0;
    let ghost base = out@;
    while k < m.len()
        invariant
            k <= m@.len(),
            out@ == base + m@.take(k as int),
        decreases m@.len() - k,
    {
        out.push(m[k]);
        k += 1;
        assert(m@.take(k as int) =~= m@.take((k - 1) as int).push(m@[k - 1]));
    }
    assert(m@.take(m@.len() as int) =~= m@);
    assert(line@.subrange(0, e as int) =~= line@.take(e as int));
    out
}

/// Snippet for a label inside a math or theorem environment whose body is
/// `body` (start, end), falling back to the label's own line.
pub fn snippet_for_env_body(text: &[u8], label_at: usize, body: Option<(usize, usize)>) -> (r: Vec<u8>)
    ensures
        r@ == env_body_snippet(text@, label_at as int, match body {
            Some((a, b)) => Some((a as int, b as int)),
            None => None,
        }),
{
    let (bs, be) = match body {
        Some(p) => p,
        None => return label_line_with_marker(text, label_at),
    };
    if be <= bs {
        return label_line_with_marker(text, label_at);
    }
    let bs2 = if bs < text.len() { bs } else { text.len() };
    let be2 = if be < text.len() { be } else { text.len() };
    let raw = keep_if_valid(&text[bs2..be2]);
    let trimmed = trim_blank_lines(raw.as_slice());
    truncate_snippet(trimmed.as_slice())
}

/// Snippet for `\section{…}\label{…}`: the line holding the section command.
pub open spec fn section_snippet(t: Seq<u8>, section_at: int) -> Seq<u8> {
    let ls = line_start_at(t, section_at);
    let le = line_end_at(t, section_at);
    truncated(strip_trailing_newlines(valid_or_empty(t.subrange(ls, le))))
}

pub fn snippet_for_section(text: &[u8], section_at: usize) -> (r: Vec<u8>)
    ensures
        r@ == section_snippet(text@, section_at as int),
{
    let ls = line_start(text, section_at);
    let le = line_end(text, section_at);
    let line = keep_if_valid(&text[ls..le]);
    let e = strip_newlines_end(line.as_slice());
    assert(line@.subrange(0, e as int) =~= line@.take(e as int));
    truncate_snippet(&line.as_slice()[0..e])
}

/// Snippet for a label outside any tracked environment: its line and the
/// line before it (at most two lines).
pub open spec fn free_snippet(t: Seq<u8>, label_at: int) -> Seq<u8> {
    let ls = line_start_at(t, label_at);
    let prev_ls = if ls > 0 { line_start_at(t, ls - 1) } else { ls };
    let le = line_end_at(t, label_at);
    truncated(strip_trailing_newlines(valid_or_empty(t.subrange(prev_ls, le))))
}

pub fn snippet_for_free_floating(text: &[u8], label_at: usize) -> (r: Vec<u8>)
    ensures
        r@ == free_snippet(text@, label_at as int),
{
    let ls = line_start(text, label_at);
    let prev_ls = if ls > 0 { line_start(text, ls - 1) } else { ls };
    let le = line_end(text, label_at);
    let line = keep_if_valid(&text[prev_ls..le]);
    let e = strip_newlines_end(line.as_slice());
    assert(line@.subrange(0, e as int) =~= line@.take(e as int));
    truncate_snippet(&line.as_slice()[0..e])
}

// ── end of a math environment ──────────────────────────────────────────

/// The first unescaped occurrence of `needle` at or after `i`, skipping
/// `%` comments.
pub open spec fn unescaped_find(t: Seq<u8>, needle: Seq<u8>, i: int) -> Option<int>
    decreases t.len() - i,
{
    if i < 0 || i >= t.len() || i + needle.len() > t.len() {
        None
    } else if has_at(t, i, needle) && !escaped(t, i) {
        Some(i)
    } else if t[i] == 37 && !escaped(t, i) {
        proof {
            lemma_eol_after_bounds(t, i + 1);
        }
        unescaped_find(t, needle, eol_after(t, i + 1))
    } else {
        unescaped_find(t, needle, i + 1)
    }
}

/// Offset of the `\end{NAME}` that closes a math environment named by the
/// bytes `name`, searching from `search_from`.
pub fn find_math_end(text: &[u8], name: &[u8], search_from: usize) -> (r: Option<usize>)
    ensures
        r matches Some(p) ==> unescaped_find(text@, crate::math::close_tag(name@), search_from as int) == Some(p as int),
        r is None ==> unescaped_find(text@, crate::math::close_tag(name@), search_from as int) is None,
{
    let needle = crate::math::make_close_tag(name);
    let n = needle.len();
    let mut i = search_from;
    while i < text.len() && n <= text.len() - i
        invariant
            n == needle@.len(),
            needle@ == crate::math::close_tag(name@),
            search_from <= i,
            unescaped_find(text@, needle@, i as int) == unescaped_find(text@, needle@, search_from as int),
        decreases text@.len() - i,
    {
        if starts_with_word(text, i, needle.as_slice()) && !is_escaped(text, i) {
            return Some(i);
        }
        if text[i] == 37 && !is_escaped(text, i) {
            proof {
                lemma_eol_after_bounds(text@, i + 1);
            }
            i = skip_to_eol(text, i + 1);
            continue;
        }
        i += 1;
    }
    None
}

} // verus!
