//! Label extraction and `\ref`-style key detection.
use vstd::prelude::*;
use vstd::string::StringSliceAdditionalSpecFns;
use vstd::utf8::{valid_utf8, decode_utf8, encode_utf8, decode_utf8_encode_utf8, encode_utf8_decode_utf8, is_ascii_chars_encode_utf8};
use crate::text::{read_braced, bytes_eq, decode_trimmed, one_of, is_one_of, braced, decoded_trimmed, has_at, starts_with_word, escaped, is_escaped, skip_blanks, skip_blanks_at, eol_after, skip_to_eol, lemma_eol_after_bounds, is_alpha, byte_is_alpha, is_ascii_ws, byte_is_ascii_ws, string_from_utf8, utf8_str, str_trim, trim_ws, lemma_braced_bounds, is_blank, lemma_trim_ws_idempotent};
use crate::math::{env_tag, read_env_tag, begin_word, end_word, lemma_env_tag, spec_math_envs, math_envs, close_tag, first_byte_from, find_byte, lemma_first_byte_from, lemma_skip_blanks};
use crate::snippet::{valid_or_empty, keep_if_valid, newlines, offset_to_line, unescaped_find, find_math_end, env_body_snippet, snippet_for_env_body, free_snippet, snippet_for_free_floating, section_snippet, snippet_for_section, line_start_at, lemma_newlines_flat};
use crate::index::{Index, LabelEntry, LabelView, label_view, label_map, insert_label, retain_labels_not_from, labels_not_from, LabelsView};
use crate::cursor::{spec_braced_command_at, key_range_is, enclosing_open, command_before, lemma_enclosing_open_bounds};

verus! {

pub open spec fn spec_ref_commands() -> Seq<&'static str> {
    seq!["ref", "eqref", "cref", "Cref", "autoref", "nameref", "pageref"]
}

/// The `\<ref-kind>{key}` commands routed to reference hovers.
pub fn ref_commands() -> (r: Vec<&'static str>)
    ensures
        r@ == spec_ref_commands(),
{
    vec!["ref", "eqref", "cref", "Cref", "autoref", "nameref", "pageref"]
}


fn match_key_after_command(bytes: &[u8], brace_open: usize) -> (r: Option<(String, [usize; 2])>)
    requires
        brace_open < bytes@.len(),
    ensures
        key_range_is(r, match command_before(bytes@, brace_open as int) {
            None => None,
            Some((s, e)) => if !crate::text::is_one_of(bytes@.subrange(s, e), spec_ref_commands()) {
                None
            } else {
                match crate::text::braced(bytes@, brace_open as int) {
                    None => None,
                    Some((a, b, _end)) => match crate::text::decoded_trimmed(bytes@.subrange(a, b)) {
                        None => None,
                        Some(k) => Some((k, a, b)),
                    },
                }
            },
        }),
{
    let end = crate::text::back_blanks(bytes, brace_open);
    let start = crate::text::back_alpha(bytes, end);
    if start == 0 || bytes[start - 1] != 92 {
        return None;
    }
    let cmds = ref_commands();
    if !one_of(&bytes[start..end], cmds.as_slice()) {
        return None;
    }
    let (kstart, kend, _e) = match read_braced(bytes, brace_open) {
        Some(t) => t,
        None => return None,
    };
    match decode_trimmed(&bytes[kstart..kend]) {
        Some(key) => Some((key, [kstart, kend])),
        None => None,
    }
}

/// Detect whether `offset` is inside the argument of a `\ref{…}`-style
/// command; returns the key and the byte range of the argument.
pub fn detect_ref_at(text: &str, offset: usize) -> (r: Option<(String, [usize; 2])>)
    ensures
        key_range_is(r, spec_braced_command_at(text.spec_bytes(), offset as int, spec_ref_commands())),
{
    let bytes = text.as_bytes();
    let off = if offset < bytes.len() { offset } else { bytes.len() };
    let mut depth: usize = 0;
    let mut i = off;
    while i > 0
        invariant
            i <= off <= bytes@.len(),
            bytes@ == text.spec_bytes(),
            off == crate::cursor::clamp(offset as int, bytes@.len() as int),
            depth <= off - i,
            enclosing_open(bytes@, i as int, depth as nat) == enclosing_open(bytes@, off as int, 0),
        decreases i,
    {
        let b = bytes[i - 1];
        if b == 125 {
            depth += 1;
        } else if b == 123 {
            if depth == 0 {
                return match_key_after_command(bytes, i - 1);
            }
            depth -= 1;
        } else if b == 92 && depth == 0 {
            return None;
        }
        i -= 1;
    }
    None
}


pub open spec fn spec_theorem_envs() -> Seq<&'static str> {
    seq![
        "theorem", "theorem*", "lemma", "lemma*", "proposition", "proposition*", "corollary",
        "corollary*", "definition", "definition*", "remark", "remark*", "example", "example*",
        "claim", "claim*", "conjecture", "conjecture*",
    ]
}

/// Theorem-like environments: not math, but their labels are recorded.
pub fn theorem_envs() -> (r: Vec<&'static str>)
    ensures
        r@ == spec_theorem_envs(),
{
    vec![
        "theorem", "theorem*", "lemma", "lemma*", "proposition", "proposition*", "corollary",
        "corollary*", "definition", "definition*", "remark", "remark*", "example", "example*",
        "claim", "claim*", "conjecture", "conjecture*",
    ]
}

pub open spec fn spec_section_cmds() -> Seq<&'static str> {
    seq![
        "section", "section*", "subsection", "subsection*", "subsubsection", "subsubsection*",
        "paragraph", "chapter", "chapter*",
    ]
}

/// Sectioning commands: a `\label` right after the argument is a section label.
pub fn section_cmds() -> (r: Vec<&'static str>)
    ensures
        r@ == spec_section_cmds(),
{
    vec![
        "section", "section*", "subsection", "subsection*", "subsubsection", "subsubsection*",
        "paragraph", "chapter", "chapter*",
    ]
}

// ── label views ────────────────────────────────────────────────────────

/// The text a snippet's bytes spell (empty if they are not UTF-8).
pub open spec fn snippet_text(b: Seq<u8>) -> Seq<char> {
    if valid_utf8(b) {
        decode_utf8(b)
    } else {
        Seq::empty()
    }
}

fn snippet_string(b: Vec<u8>) -> (r: String)
    ensures
        r@ == snippet_text(b@),
{
    match string_from_utf8(b) {
        Some(s) => s,
        None => String::new(),
    }
}

// ── the environment stack ──────────────────────────────────────────────

/// An open environment whose labels are recorded, math or theorem-like,
/// with the start of its body.
pub enum EnvFrame {
    Math { name: Vec<u8>, body_start: usize },
    Theorem { name: Vec<u8>, body_start: usize },
}

/// A frame as mathematical values.
pub struct FrameView {
    pub is_math: bool,
    pub name: Seq<u8>,
    pub body_start: int,
}

pub open spec fn frame_view(f: EnvFrame) -> FrameView {
    match f {
        EnvFrame::Math { name, body_start } => FrameView {
            is_math: true,
            name: name@,
            body_start: body_start as int,
        },
        EnvFrame::Theorem { name, body_start } => FrameView {
            is_math: false,
            name: name@,
            body_start: body_start as int,
        },
    }
}

pub open spec fn frames_view(s: Seq<EnvFrame>) -> Seq<FrameView> {
    s.map_values(|f: EnvFrame| frame_view(f))
}

impl EnvFrame {
    fn name(&self) -> (r: &[u8])
        ensures
            r@ == frame_view(*self).name,
    {
        match self {
            EnvFrame::Math { name, .. } => name.as_slice(),
            EnvFrame::Theorem { name, .. } => name.as_slice(),
        }
    }

    fn is_math(&self) -> (r: bool)
        ensures
            r == frame_view(*self).is_math,
    {
        match self {
            EnvFrame::Math { .. } => true,
            EnvFrame::Theorem { .. } => false,
        }
    }
}

/// Every frame's name is UTF-8 and its body starts at or before `i`.
pub open spec fn frames_ok(st: Seq<FrameView>, i: int) -> bool {
    forall|k: int| 0 <= k < st.len() ==> valid_utf8(#[trigger] st[k].name) && 0 <= st[k].body_start <= i
}

/// The name of the innermost environment, or `document`.
pub open spec fn env_label(st: Seq<FrameView>) -> Seq<char> {
    if st.len() == 0 {
        "document"@
    } else {
        decode_utf8(st.last().name)
    }
}

fn current_env_label(stack: &Vec<EnvFrame>) -> (r: String)
    requires
        forall|k: int| 0 <= k < stack@.len() ==> valid_utf8(#[trigger] frames_view(stack@)[k].name),
    ensures
        r@ == env_label(frames_view(stack@)),
{
    if stack.len() == 0 {
        return "document".to_owned();
    }
    let top = &stack[stack.len() - 1];
    let name = top.name();
    assert(frames_view(stack@)[stack@.len() - 1] == frame_view(*top));
    match utf8_str(name) {
        Some(n) => n.to_owned(),
        None => String::new(),
    }
}

/// The innermost open math environment whose body starts at or before `at`.
pub open spec fn math_frame(st: Seq<FrameView>, at: int) -> Option<FrameView>
    decreases st.len(),
{
    if st.len() == 0 {
        None
    } else if st.last().is_math && at >= st.last().body_start {
        Some(st.last())
    } else {
        math_frame(st.drop_last(), at)
    }
}

/// The body of the innermost open math environment around `at`: from just
/// past its `\begin{…}` to its `\end{…}` (the end of the text when the
/// environment is not closed).
pub open spec fn math_range(t: Seq<u8>, st: Seq<FrameView>, at: int) -> Option<(int, int)> {
    match math_frame(st, at) {
        None => None,
        Some(f) => Some((f.body_start, match unescaped_find(t, close_tag(f.name), f.body_start) {
            Some(p) => p,
            None => t.len() as int,
        })),
    }
}

fn current_math_range(stack: &Vec<EnvFrame>, text: &[u8], label_at: usize) -> (r: Option<[usize; 2]>)
    ensures
        match r {
            Some(x) => math_range(text@, frames_view(stack@), label_at as int) == Some((x[0] as int, x[1] as int)),
            None => math_range(text@, frames_view(stack@), label_at as int) is None,
        },
{
    let mut k = stack.len();
    assert(frames_view(stack@).take(k as int) =~= frames_view(stack@));
    while k > 0
        invariant
            k <= stack@.len(),
            math_frame(frames_view(stack@).take(k as int), label_at as int) == math_frame(frames_view(stack@), label_at as int),
        decreases k,
    {
        let f = &stack[k - 1];
        proof {
            assert(frames_view(stack@).take(k as int).last() == frame_view(*f));
            assert(frames_view(stack@).take(k as int).drop_last() =~= frames_view(stack@).take(k - 1));
        }
        match f {
            EnvFrame::Math { body_start, name, .. } => {
                if label_at >= *body_start {
                    let end = match find_math_end(text, name.as_slice(), *body_start) {
                        Some(p) => p,
                        None => text.len(),
                    };
                    return Some([*body_start, end]);
                }
            },
            EnvFrame::Theorem { .. } => {},
        }
        k -= 1;
    }
    None
}


// ── captions ───────────────────────────────────────────────────────────

/// At most the first `n` characters of `s`.
pub open spec fn take_chars(s: Seq<char>, n: int) -> Seq<char> {
    if s.len() <= n {
        s
    } else {
        s.take(n)
    }
}

/// The first line of `s` (from `p`, lines split at line feeds) that is not
/// blank once trimmed, trimmed and cut to 120 characters; empty if none.
pub open spec fn first_line_caption(s: Seq<u8>, p: int) -> Seq<char>
    decreases s.len() - p,
{
    if p < 0 || p > s.len() {
        Seq::empty()
    } else {
        let q = first_byte_from(s, p, 10);
        let found = match decoded_trimmed(s.subrange(p, q)) {
            Some(tr) => tr.len() > 0,
            None => false,
        };
        if found {
            take_chars(decoded_trimmed(s.subrange(p, q))->0, 120)
        } else if q < s.len() {
            proof {
                lemma_first_byte_from(s, p, 10);
            }
            first_line_caption(s, q + 1)
        } else {
            Seq::empty()
        }
    }
}

/// Caption of a label in a theorem-like environment: the first non-blank
/// line of the body before the label.
pub open spec fn caption_spec(env: Seq<char>, st: Seq<FrameView>, t: Seq<u8>, at: int) -> Seq<char> {
    if is_one_of(encode_utf8(env), spec_theorem_envs()) && st.len() > 0 && !st.last().is_math {
        let se = if at < t.len() { at } else { t.len() as int };
        first_line_caption(valid_or_empty(t.subrange(st.last().body_start, se)), 0)
    } else {
        Seq::empty()
    }
}

fn first_line_caption_of(s: &[u8]) -> (r: String)
    ensures
        r@ == first_line_caption(s@, 0),
{
    let n = s.len();
    let mut p: usize = 0;
    while p <= n
        invariant
            n == s@.len(),
            first_line_caption(s@, p as int) == first_line_caption(s@, 0),
        decreases n + 1 - p,
    {
        proof {
            lemma_first_byte_from(s@, p as int, 10);
        }
        let q = find_byte(s, p, 10);
        match utf8_str(&s[p..q]) {
            Some(line) => {
                let tr = str_trim(line);
                if !tr.is_empty() {
                    let len = tr.unicode_len();
                    let cut = if len < 120 { len } else { 120 };
                    let c = tr.substring_char(0, cut);
                    assert(c@ =~= take_chars(tr@, 120));
                    return c.to_owned();
                }
            },
            None => {},
        }
        if q < n {
            p = q + 1;
        } else {
            return String::new();
        }
    }
    String::new()
}

fn best_caption_for_env(env: &str, stack: &Vec<EnvFrame>, bytes: &[u8], label_at: usize) -> (r: String)
    requires
        frames_ok(frames_view(stack@), label_at as int),
        label_at <= bytes@.len(),
    ensures
        r@ == caption_spec(env@, frames_view(stack@), bytes@, label_at as int),
{
    let th = theorem_envs();
    if one_of(env.as_bytes(), th.as_slice()) && stack.len() > 0 {
        let top = &stack[stack.len() - 1];
        assert(frames_view(stack@).last() == frame_view(*top));
        assert(valid_utf8(frames_view(stack@)[stack@.len() - 1].name));
        if let EnvFrame::Theorem { body_start, .. } = top {
            let slice_end = if label_at < bytes.len() { label_at } else { bytes.len() };
            if *body_start <= slice_end {
                let body = keep_if_valid(&bytes[*body_start..slice_end]);
                return first_line_caption_of(body.as_slice());
            }
        }
    }
    String::new()
}

// ── snippets ───────────────────────────────────────────────────────────

/// The snippet bytes for a label at `label_at` given the open environments.
pub open spec fn snippet_spec(st: Seq<FrameView>, t: Seq<u8>, label_at: int) -> Seq<u8> {
    if st.len() == 0 {
        free_snippet(t, label_at)
    } else if st.last().is_math {
        let bs = st.last().body_start;
        let re = match unescaped_find(t, close_tag(st.last().name), bs) {
            Some(p) => p,
            None => 0,
        };
        env_body_snippet(t, label_at, if re > bs { Some((bs, re)) } else { None })
    } else {
        env_body_snippet(t, label_at, Some((st.last().body_start, label_at)))
    }
}

fn compute_snippet_for_label(stack: &Vec<EnvFrame>, text: &[u8], label_at: usize) -> (r: Vec<u8>)
    requires
    ensures
        r@ == snippet_spec(frames_view(stack@), text@, label_at as int),
{
    if stack.len() == 0 {
        return snippet_for_free_floating(text, label_at);
    }
    let frame = &stack[stack.len() - 1];
    assert(frames_view(stack@).last() == frame_view(*frame));
    match frame {
        EnvFrame::Math { body_start, name } => {
            let resolved_end = match find_math_end(text, name.as_slice(), *body_start) {
                Some(p) => p,
                None => 0,
            };
            let body = if resolved_end > *body_start {
                Some((*body_start, resolved_end))
            } else {
                None
            };
            snippet_for_env_body(text, label_at, body)
        },
        EnvFrame::Theorem { body_start, .. } => {
            snippet_for_env_body(text, label_at, Some((*body_start, label_at)))
        },
    }
}

// ── one scan step ──────────────────────────────────────────────────────

pub open spec fn label_word() -> Seq<u8> {
    "\\label".spec_bytes()
}

/// `t[k]` starts an identifier (a letter or `@`).
pub open spec fn ident_at(t: Seq<u8>, k: int) -> bool {
    0 <= k < t.len() && (is_alpha(t[k]) || t[k] == 64)
}

pub fn ident_byte_at(t: &[u8], k: usize) -> (r: bool)
    ensures
        r == ident_at(t@, k as int),
{
    k < t.len() && (byte_is_alpha(t[k]) || t[k] == 64)
}

/// The non-empty trimmed key of the braced group at `at`, and the index
/// just past it.
pub open spec fn label_key(t: Seq<u8>, at: int) -> Option<(Seq<char>, int)> {
    match braced(t, at) {
        None => None,
        Some((a, b, e)) => match decoded_trimmed(t.subrange(a, b)) {
            None => None,
            Some(k) => if k.len() == 0 {
                None
            } else {
                Some((k, e))
            },
        },
    }
}

fn read_label_key(text: &[u8], at: usize) -> (r: Option<(String, usize)>)
    ensures
        match r {
            Some((k, e)) => label_key(text@, at as int) == Some((k@, e as int)) && e <= text@.len(),
            None => label_key(text@, at as int) is None,
        },
{
    let (a, b, end) = match read_braced(text, at) {
        Some(t) => t,
        None => return None,
    };
    match decode_trimmed(&text[a..b]) {
        Some(key) => if key.as_str().is_empty() {
            None
        } else {
            Some((key, end))
        },
        None => None,
    }
}

/// At `i`, the `\begin{NAME}` of a math or theorem-like environment: the
/// frame it opens and where scanning resumes.
pub open spec fn try_begin(t: Seq<u8>, i: int) -> Option<(FrameView, int)> {
    if !(t[i] == 92 && has_at(t, i, begin_word()) && !escaped(t, i)) {
        None
    } else {
        match env_tag(t, i, begin_word()) {
            None => None,
            Some((s, e, te)) => if is_one_of(t.subrange(s, e), spec_math_envs()) {
                Some((FrameView { is_math: true, name: t.subrange(s, e), body_start: te }, te))
            } else if is_one_of(t.subrange(s, e), spec_theorem_envs()) {
                Some((FrameView { is_math: false, name: t.subrange(s, e), body_start: te }, te))
            } else {
                None
            },
        }
    }
}

/// At `i`, an `\end{NAME}`: the name and where scanning resumes.
pub open spec fn try_end(t: Seq<u8>, i: int) -> Option<(Seq<u8>, int)> {
    if !(t[i] == 92 && has_at(t, i, end_word()) && !escaped(t, i)) {
        None
    } else {
        match env_tag(t, i, end_word()) {
            None => None,
            Some((s, e, te)) => Some((t.subrange(s, e), i + end_word().len() + 1 + (e - s) + 1)),
        }
    }
}

/// Index of the innermost frame named `name`.
pub open spec fn last_named(st: Seq<FrameView>, name: Seq<u8>) -> Option<int>
    decreases st.len(),
{
    if st.len() == 0 {
        None
    } else if st.last().name == name {
        Some(st.len() - 1)
    } else {
        last_named(st.drop_last(), name)
    }
}

/// The stack with its innermost frame named `name` removed.
pub open spec fn pop_named(st: Seq<FrameView>, name: Seq<u8>) -> Seq<FrameView> {
    match last_named(st, name) {
        Some(p) => st.remove(p),
        None => st,
    }
}

/// At `i`, a `\label{KEY}`: the key, the position of its brace, and where
/// scanning resumes.
pub open spec fn label_site(t: Seq<u8>, i: int) -> Option<(Seq<char>, int, int)> {
    if !(t[i] == 92 && has_at(t, i, label_word()) && !escaped(t, i) && !ident_at(t, i + label_word().len())) {
        None
    } else {
        let probe = skip_blanks(t, i + label_word().len());
        if !(0 <= probe < t.len() && t[probe] == 123) {
            None
        } else {
            match label_key(t, probe) {
                None => None,
                Some((k, e)) => Some((k, probe, e)),
            }
        }
    }
}

/// The entry recorded for a `\label` at `i` whose brace is at `probe`.
pub open spec fn label_entry_spec(t: Seq<u8>, path: Seq<char>, i: int, probe: int, key: Seq<char>, st: Seq<FrameView>) -> LabelView {
    LabelView {
        key,
        file: path,
        offset: i,
        line: newlines(t.take(if probe < t.len() { probe } else { t.len() as int })) as int,
        env: env_label(st),
        math: math_range(t, st, probe),
        caption: caption_spec(env_label(st), st, t, probe),
        snippet: snippet_text(snippet_spec(st, t, i)),
    }
}

/// The first sectioning command (from list index `k`) spelled at `i` and not
/// followed by an identifier byte: the length of `\` plus its name.
pub open spec fn section_match(t: Seq<u8>, i: int, k: int) -> Option<int>
    decreases spec_section_cmds().len() - k,
{
    if k < 0 || k >= spec_section_cmds().len() {
        None
    } else {
        let w = seq![92u8] + spec_section_cmds()[k].spec_bytes();
        if has_at(t, i, w) && !ident_at(t, i + w.len()) {
            Some(w.len() as int)
        } else {
            section_match(t, i, k + 1)
        }
    }
}

/// Index just past the ASCII white space starting at `i`.
pub open spec fn skip_ascii_ws(t: Seq<u8>, i: int) -> int
    decreases t.len() - i,
{
    if 0 <= i < t.len() && is_ascii_ws(t[i]) {
        skip_ascii_ws(t, i + 1)
    } else {
        i
    }
}

/// At `i`, `\section{TITLE}` (or another sectioning command) directly
/// followed, after white space, by `\label{KEY}`: the entry and where
/// scanning resumes.
pub open spec fn try_section(t: Seq<u8>, path: Seq<char>, i: int) -> Option<(LabelView, int)> {
    if !(t[i] == 92 && !escaped(t, i)) {
        None
    } else {
        match section_match(t, i, 0) {
            None => None,
            Some(wl) => {
                let probe = skip_blanks(t, i + wl);
                match braced(t, probe) {
                    None => None,
                    Some((ts, te, _e)) => {
                        let p2 = skip_ascii_ws(t, te + 1);
                        if !has_at(t, p2, label_word()) {
                            None
                        } else {
                            let p3 = skip_blanks(t, p2 + label_word().len());
                            if !(0 <= p3 < t.len() && t[p3] == 123) {
                                None
                            } else {
                                match label_key(t, p3) {
                                    None => None,
                                    Some((key, label_end)) => Some((
                                        LabelView {
                                            key,
                                            file: path,
                                            offset: p2,
                                            line: newlines(t.take(if p2 < t.len() { p2 } else { t.len() as int })) as int,
                                            env: "section"@,
                                            math: None,
                                            caption: match decoded_trimmed(t.subrange(ts, te)) {
                                                Some(c) => c,
                                                None => Seq::empty(),
                                            },
                                            snippet: snippet_text(section_snippet(t, i)),
                                        },
                                        label_end,
                                    )),
                                }
                            }
                        }
                    },
                }
            },
        }
    }
}

/// One step of the label scan at `i` with open environments `st`: the entry
/// recorded (if any), where scanning resumes, and the new stack.
pub open spec fn label_step(t: Seq<u8>, path: Seq<char>, i: int, st: Seq<FrameView>) -> (Option<LabelView>, int, Seq<FrameView>) {
    if t[i] == 37 && !escaped(t, i) {
        (None, eol_after(t, i + 1), st)
    } else if try_begin(t, i) is Some {
        let (f, nx) = try_begin(t, i)->0;
        (None, nx, st.push(f))
    } else if try_end(t, i) is Some {
        let (name, nx) = try_end(t, i)->0;
        (None, nx, pop_named(st, name))
    } else if label_site(t, i) is Some {
        let (key, probe, end) = label_site(t, i)->0;
        (Some(label_entry_spec(t, path, i, probe, key, st)), end, st)
    } else if try_section(t, path, i) is Some {
        let (e, nx) = try_section(t, path, i)->0;
        (Some(e), nx, st)
    } else {
        (None, i + 1, st)
    }
}

/// The entries recorded by scanning from `i` with open environments `st`,
/// in order.
pub open spec fn label_scan(t: Seq<u8>, path: Seq<char>, i: int, st: Seq<FrameView>) -> Seq<LabelView>
    decreases t.len() - i,
{
    if i < 0 || i >= t.len() {
        Seq::empty()
    } else {
        let (e, nx, st2) = label_step(t, path, i, st);
        if nx <= i || nx > t.len() {
            Seq::empty()
        } else {
            let rest = label_scan(t, path, nx, st2);
            match e {
                Some(v) => seq![v] + rest,
                None => rest,
            }
        }
    }
}


/// What every recorded label satisfies: a non-empty trimmed key, the
/// scanned file, an offset where `\label` is spelled, and as its line the
/// number of line breaks before that offset.
pub open spec fn label_entry_ok(t: Seq<u8>, path: Seq<char>, e: LabelView) -> bool {
    &&& e.key.len() > 0
    &&& trim_ws(e.key) == e.key
    &&& e.file == path
    &&& has_at(t, e.offset, label_word())
    &&& e.line == newlines(t.take(e.offset))
}

proof fn lemma_label_word_bytes()
    ensures
        label_word().len() == 6,
        forall|k: int| 0 <= k < 6 ==> label_word()[k] != 10,
{
    reveal_strlit("\\label");
    is_ascii_chars_encode_utf8("\\label"@);
}

proof fn lemma_skip_blanks_blank(t: Seq<u8>, i: int)
    requires
        0 <= i,
    ensures
        forall|k: int| i <= k < skip_blanks(t, i) ==> is_blank(#[trigger] t[k]),
    decreases t.len() - i,
{
    if 0 <= i < t.len() && is_blank(t[i]) {
        lemma_skip_blanks_blank(t, i + 1);
    }
}

/// A key read by `label_key` is non-empty and trimmed.
proof fn lemma_label_key_trimmed(t: Seq<u8>, at: int)
    ensures
        label_key(t, at) matches Some((k, _e)) ==> k.len() > 0 && trim_ws(k) == k,
{
    if let Some((a, b, _e)) = braced(t, at) {
        lemma_trim_ws_idempotent(decode_utf8(t.subrange(a, b)));
    }
}

/// The entry one scan step records is well formed.
proof fn lemma_label_step_ok(t: Seq<u8>, path: Seq<char>, i: int, st: Seq<FrameView>)
    requires
        0 <= i < t.len(),
    ensures
        label_step(t, path, i, st).0 matches Some(v) ==> label_entry_ok(t, path, v),
{
    lemma_label_word_bytes();
    if !(t[i] == 37 && !escaped(t, i)) && try_begin(t, i) is None && try_end(t, i) is None {
        if label_site(t, i) is Some {
            let (key, probe, _end) = label_site(t, i)->0;
            lemma_label_key_trimmed(t, probe);
            lemma_skip_blanks_blank(t, i + 6);
            lemma_skip_blanks(t, i + 6);
            assert forall|k: int| i <= k < probe implies t[k] != 10 by {
                if k < i + 6 {
                    assert(t.subrange(i, i + 6)[k - i] == t[k]);
                } else {
                    assert(is_blank(t[k]));
                }
            }
            lemma_newlines_flat(t, i, probe);
        } else if try_section(t, path, i) is Some {
            let wl = section_match(t, i, 0)->0;
            let probe = skip_blanks(t, i + wl);
            let (_ts, te, _e) = braced(t, probe)->0;
            let p2 = skip_ascii_ws(t, te + 1);
            let p3 = skip_blanks(t, p2 + label_word().len());
            lemma_label_key_trimmed(t, p3);
        }
    }
}

/// Every label a scan from `i` records is well formed.
pub proof fn lemma_label_scan_ok(t: Seq<u8>, path: Seq<char>, i: int, st: Seq<FrameView>)
    ensures
        forall|j: int| 0 <= j < label_scan(t, path, i, st).len() ==> label_entry_ok(t, path, #[trigger] label_scan(t, path, i, st)[j]),
    decreases t.len() - i,
{
    if !(i < 0 || i >= t.len()) {
        let (e, nx, st2) = label_step(t, path, i, st);
        if !(nx <= i || nx > t.len()) {
            lemma_label_step_ok(t, path, i, st);
            lemma_label_scan_ok(t, path, nx, st2);
            let rest = label_scan(t, path, nx, st2);
            if let Some(v) = e {
                assert forall|j: int| 0 <= j < label_scan(t, path, i, st).len() implies label_entry_ok(t, path, #[trigger] label_scan(t, path, i, st)[j]) by {
                    if j > 0 {
                        assert(label_scan(t, path, i, st)[j] == rest[j - 1]);
                    }
                }
            }
        }
    }
}

// ── executable steps ───────────────────────────────────────────────────

fn begin_frame(text: &[u8], i: usize, maths: &[&str], ths: &[&str]) -> (r: Option<(EnvFrame, usize)>)
    requires
        i < text@.len(),
        maths@ == spec_math_envs(),
        ths@ == spec_theorem_envs(),
    ensures
        match r {
            Some((f, nx)) => try_begin(text@, i as int) == Some((frame_view(f), nx as int)) && valid_utf8(frame_view(f).name) && i < nx <= text@.len(),
            None => try_begin(text@, i as int) is None,
        },
{
    if !(text[i] == 92 && starts_with_word(text, i, "\\begin".as_bytes()) && !is_escaped(text, i)) {
        return None;
    }
    let (s, e, te) = match read_env_tag(text, i, true) {
        Some(t) => t,
        None => return None,
    };
    proof {
        lemma_env_tag(text@, i as int, begin_word());
    }
    let name = &text[s..e];
    if one_of(name, maths) {
        Some((EnvFrame::Math { name: vstd::slice::slice_to_vec(name), body_start: te }, te))
    } else if one_of(name, ths) {
        Some((EnvFrame::Theorem { name: vstd::slice::slice_to_vec(name), body_start: te }, te))
    } else {
        None
    }
}

fn end_tag(text: &[u8], i: usize) -> (r: Option<(usize, usize, usize)>)
    requires
        i < text@.len(),
    ensures
        match r {
            Some((s, e, nx)) => try_end(text@, i as int) == Some((text@.subrange(s as int, e as int), nx as int)) && s <= e <= text@.len() && i < nx <= text@.len(),
            None => try_end(text@, i as int) is None,
        },
{
    if !(text[i] == 92 && starts_with_word(text, i, "\\end".as_bytes()) && !is_escaped(text, i)) {
        return None;
    }
    let (s, e, _te) = match read_env_tag(text, i, false) {
        Some(t) => t,
        None => return None,
    };
    proof {
        lemma_env_tag(text@, i as int, end_word());
    }
    let w = "\\end".as_bytes().len();
    Some((s, e, i + w + 1 + (e - s) + 1))
}

/// Remove the innermost frame named `name`, if any.
fn pop_named_frame(stack: &mut Vec<EnvFrame>, name: &[u8])
    ensures
        frames_view(final(stack)@) == pop_named(frames_view(old(stack)@), name@),
{
    let ghost st = frames_view(stack@);
    let mut k = stack.len();
    assert(st.take(k as int) =~= st);
    while k > 0
        invariant
            k <= stack@.len(),
            st == frames_view(stack@),
            st == frames_view(old(stack)@),
            last_named(st.take(k as int), name@) == last_named(st, name@),
        decreases k,
    {
        assert(st.take(k as int).last() == frame_view(stack@[k - 1]));
        assert(st.take(k as int).drop_last() =~= st.take(k - 1));
        if bytes_eq(stack[k - 1].name(), name) {
            assert(st.take(k as int).last().name == name@);
            assert(last_named(st.take(k as int), name@) == Some((k - 1) as int));
            stack.remove(k - 1);
            assert(frames_view(stack@) =~= st.remove(k - 1));
            assert(pop_named(st, name@) == st.remove(k - 1));
            return;
        }
        k -= 1;
    }
}

/// The label site at `i`: key, brace position, and resume position.
fn read_label_site(text: &[u8], i: usize) -> (r: Option<(String, usize, usize)>)
    requires
        i < text@.len(),
    ensures
        match r {
            Some((k, p, e)) => label_site(text@, i as int) == Some((k@, p as int, e as int)) && i < p < e <= text@.len(),
            None => label_site(text@, i as int) is None,
        },
{
    let w = "\\label".as_bytes();
    if !(text[i] == 92 && starts_with_word(text, i, w) && !is_escaped(text, i)) {
        return None;
    }
    assert(i + w@.len() <= text@.len());
    if ident_byte_at(text, i + w.len()) {
        return None;
    }
    let probe = skip_blanks_at(text, i + w.len());
    proof {
        lemma_skip_blanks(text@, i + w@.len());
    }
    if !(probe < text.len() && text[probe] == 123) {
        return None;
    }
    proof {
        lemma_braced_bounds(text@, probe as int);
    }
    match read_label_key(text, probe) {
        Some((key, end)) => {
            assert(i < probe) by {
                if probe == i {
                    assert(text@[i as int] == 92);
                }
            }
            Some((key, probe, end))
        },
        None => None,
    }
}

fn build_label_entry(text: &[u8], path: &str, i: usize, probe: usize, key: String, stack: &Vec<EnvFrame>) -> (r: LabelEntry)
    requires
        i < probe < text@.len(),
        newlines(text@) <= u32::MAX,
        frames_ok(frames_view(stack@), i as int),
    ensures
        label_view(r) == label_entry_spec(text@, path@, i as int, probe as int, key@, frames_view(stack@)),
{
    let line = offset_to_line(text, probe);
    let env = current_env_label(stack);
    let math = current_math_range(stack, text, probe);
    let caption = best_caption_for_env(env.as_str(), stack, text, probe);
    let snippet = snippet_string(compute_snippet_for_label(stack, text, i));
    LabelEntry { key, file: path.to_owned(), offset: i, line, env, math, caption, snippet }
}

/// The length of `\` plus the first sectioning command spelled at `i`.
fn match_section_cmd(text: &[u8], i: usize, cmds: &[&str]) -> (r: Option<usize>)
    requires
        cmds@ == spec_section_cmds(),
    ensures
        match r {
            Some(wl) => section_match(text@, i as int, 0) == Some(wl as int) && i + wl <= text@.len(),
            None => section_match(text@, i as int, 0) is None,
        },
{
    let n = text.len();
    let mut k: usize = 0;
    while k < cmds.len()
        invariant
            n == text@.len(),
            cmds@ == spec_section_cmds(),
            k <= cmds@.len(),
            section_match(text@, i as int, k as int) == section_match(text@, i as int, 0),
        decreases cmds@.len() - k,
    {
        let mut w: Vec<u8> = Vec::new();
        w.push(92);
        let cb = cmds[k].as_bytes();
        let mut j: usize = 0;
        while j < cb.len()
            invariant
                j <= cb@.len(),
                w@ == seq![92u8] + cb@.take(j as int),
            decreases cb@.len() - j,
        {
            w.push(cb[j]);
            j += 1;
            assert(cb@.take(j as int) =~= cb@.take((j - 1) as int).push(cb@[j - 1]));
        }
        assert(cb@.take(cb@.len() as int) =~= cb@);
        let ws = w.as_slice();
        if starts_with_word(text, i, ws) {
            assert(i + ws@.len() <= text@.len());
            if !ident_byte_at(text, i + ws.len()) {
                return Some(ws.len());
            }
        }
        k += 1;
    }
    None
}

fn skip_ascii_ws_at(t: &[u8], at: usize) -> (r: usize)
    requires
        at <= t@.len(),
    ensures
        r == skip_ascii_ws(t@, at as int),
        at <= r <= t@.len(),
{
    let mut i = at;
    while i < t.len() && byte_is_ascii_ws(t[i])
        invariant
            at <= i <= t@.len(),
            skip_ascii_ws(t@, i as int) == skip_ascii_ws(t@, at as int),
        decreases t@.len() - i,
    {
        i += 1;
    }
    i
}

fn section_label(text: &[u8], path: &str, i: usize, cmds: &[&str]) -> (r: Option<(LabelEntry, usize)>)
    requires
        i < text@.len(),
        newlines(text@) <= u32::MAX,
        cmds@ == spec_section_cmds(),
    ensures
        match r {
            Some((e, nx)) => try_section(text@, path@, i as int) == Some((label_view(e), nx as int)) && i < nx <= text@.len(),
            None => try_section(text@, path@, i as int) is None,
        },
{
    if !(text[i] == 92 && !is_escaped(text, i)) {
        return None;
    }
    let wl = match match_section_cmd(text, i, cmds) {
        Some(w) => w,
        None => return None,
    };
    let probe = skip_blanks_at(text, i + wl);
    let (title_start, title_end, _e) = match read_braced(text, probe) {
        Some(t) => t,
        None => return None,
    };
    proof {
        lemma_braced_bounds(text@, probe as int);
    }
    let p2 = skip_ascii_ws_at(text, title_end + 1);
    let lw = "\\label".as_bytes();
    if !starts_with_word(text, p2, lw) {
        return None;
    }
    assert(p2 + lw@.len() <= text@.len());
    let p3 = skip_blanks_at(text, p2 + lw.len());
    if !(p3 < text.len() && text[p3] == 123) {
        return None;
    }
    proof {
        lemma_braced_bounds(text@, p3 as int);
    }
    let (key, label_end) = match read_label_key(text, p3) {
        Some(t) => t,
        None => return None,
    };
    let line = offset_to_line(text, p2);
    let caption = match decode_trimmed(&text[title_start..title_end]) {
        Some(c) => c,
        None => String::new(),
    };
    let snippet = snippet_string(snippet_for_section(text, i));
    let entry = LabelEntry {
        key,
        file: path.to_owned(),
        offset: p2,
        line,
        env: "section".to_owned(),
        math: None,
        caption,
        snippet,
    };
    assert(i < label_end) by {
        assert(p3 > i);
    }
    Some((entry, label_end))
}


/// One executed scan step; see [`label_step`].
fn scan_step(
    text: &[u8],
    path: &str,
    i: usize,
    stack: &mut Vec<EnvFrame>,
    maths: &[&str],
    ths: &[&str],
    cmds: &[&str],
) -> (r: (Option<LabelEntry>, usize))
    requires
        i < text@.len(),
        newlines(text@) <= u32::MAX,
        maths@ == spec_math_envs(),
        ths@ == spec_theorem_envs(),
        cmds@ == spec_section_cmds(),
        frames_ok(frames_view(old(stack)@), i as int),
    ensures
        ({
            let (e, nx, st2) = label_step(text@, path@, i as int, frames_view(old(stack)@));
            &&& r.1 == nx
            &&& i < r.1 <= text@.len()
            &&& frames_view(final(stack)@) == st2
            &&& frames_ok(st2, nx)
            &&& match r.0 {
                Some(v) => e == Some(label_view(v)),
                None => e is None,
            }
        }),
{
    let ghost st = frames_view(stack@);
    if text[i] == 37 && !is_escaped(text, i) {
        let nx = skip_to_eol(text, i + 1);
        proof {
            lemma_frames_ok_mono(st, i as int, nx as int);
        }
        return (None, nx);
    }
    match begin_frame(text, i, maths, ths) {
        Some((f, nx)) => {
            stack.push(f);
            assert(frames_view(stack@) =~= st.push(frame_view(f)));
            proof {
                lemma_frames_ok_mono(st, i as int, nx as int);
                assert forall|k: int| 0 <= k < st.push(frame_view(f)).len() implies valid_utf8(#[trigger] st.push(frame_view(f))[k].name)
                    && 0 <= st.push(frame_view(f))[k].body_start <= nx by {
                    if k < st.len() {
                        assert(st.push(frame_view(f))[k] == st[k]);
                        assert(valid_utf8(st[k].name));
                    }
                }
            }
            return (None, nx);
        },
        None => {},
    }
    match end_tag(text, i) {
        Some((s, e, nx)) => {
            pop_named_frame(stack, &text[s..e]);
            proof {
                let p = last_named(st, text@.subrange(s as int, e as int));
                if p is Some {
                    lemma_last_named_bounds(st, text@.subrange(s as int, e as int));
                    assert forall|k: int| 0 <= k < st.remove(p->0).len() implies valid_utf8(#[trigger] st.remove(p->0)[k].name)
                        && 0 <= st.remove(p->0)[k].body_start <= nx by {
                        let j = if k < p->0 { k } else { k + 1 };
                        assert(st.remove(p->0)[k] == st[j]);
                        assert(valid_utf8(st[j].name));
                    }
                }
            }
            return (None, nx);
        },
        None => {},
    }
    match read_label_site(text, i) {
        Some((key, probe, end)) => {
            let entry = build_label_entry(text, path, i, probe, key, stack);
            proof {
                lemma_frames_ok_mono(st, i as int, end as int);
            }
            return (Some(entry), end);
        },
        None => {},
    }
    match section_label(text, path, i, cmds) {
        Some((e, nx)) => {
            proof {
                lemma_frames_ok_mono(st, i as int, nx as int);
            }
            return (Some(e), nx);
        },
        None => {},
    }
    proof {
        lemma_frames_ok_mono(st, i as int, i + 1);
    }
    (None, i + 1)
}

proof fn lemma_frames_ok_mono(st: Seq<FrameView>, i: int, j: int)
    requires
        frames_ok(st, i),
        i <= j,
    ensures
        frames_ok(st, j),
{
    assert forall|k: int| 0 <= k < st.len() implies valid_utf8(#[trigger] st[k].name) && 0 <= st[k].body_start <= j by {
        assert(valid_utf8(st[k].name));
        assert(0 <= st[k].body_start <= i);
    }
    assert(frames_ok(st, j));
}

proof fn lemma_last_named_bounds(st: Seq<FrameView>, name: Seq<u8>)
    ensures
        match last_named(st, name) {
            Some(p) => 0 <= p < st.len(),
            None => true,
        },
    decreases st.len(),
{
    if st.len() > 0 && st.last().name != name {
        lemma_last_named_bounds(st.drop_last(), name);
    }
}

proof fn lemma_last_named_spec(st: Seq<FrameView>, name: Seq<u8>)
    ensures
        match last_named(st, name) {
            Some(p) => 0 <= p < st.len() && st[p].name == name
                && forall|q: int| p < q < st.len() ==> #[trigger] st[q].name != name,
            None => forall|k: int| 0 <= k < st.len() ==> #[trigger] st[k].name != name,
        },
    decreases st.len(),
{
    if st.len() > 0 && st.last().name != name {
        lemma_last_named_spec(st.drop_last(), name);
        assert forall|k: int| 0 <= k < st.len() - 1 implies #[trigger] st[k].name == st.drop_last()[k].name by {}
    }
}

/// An `\end{X}` closes only the innermost open environment named `X`:
/// the stack loses exactly that frame, and stays as it is when no open
/// environment is named `X`.
pub proof fn law_end_closes_innermost_named(st: Seq<FrameView>, name: Seq<u8>)
    ensures
        (forall|k: int| 0 <= k < st.len() ==> #[trigger] st[k].name != name) ==> pop_named(st, name) == st,
        (exists|k: int| 0 <= k < st.len() && #[trigger] st[k].name == name) ==> exists|p: int|
            0 <= p < st.len() && #[trigger] st[p].name == name
            && (forall|q: int| p < q < st.len() ==> #[trigger] st[q].name != name)
            && pop_named(st, name) == st.remove(p),
{
    lemma_last_named_spec(st, name);
    if let Some(p) = last_named(st, name) {
        assert(st[p].name == name);
    }
}

/// Scanning an `\end{X}` records nothing, resumes after it, and closes
/// only the innermost open environment named `X` (none when no open
/// environment is named `X`).
pub proof fn law_end_step(t: Seq<u8>, path: Seq<char>, i: int, st: Seq<FrameView>)
    requires
        0 <= i < t.len(),
        try_end(t, i) is Some,
    ensures
        ({
            let (name, nx) = try_end(t, i)->0;
            let (e, next, st2) = label_step(t, path, i, st);
            &&& e is None
            &&& next == nx
            &&& (forall|k: int| 0 <= k < st.len() ==> #[trigger] st[k].name != name) ==> st2 == st
            &&& (exists|k: int| 0 <= k < st.len() && #[trigger] st[k].name == name) ==> exists|p: int|
                0 <= p < st.len() && #[trigger] st[p].name == name
                && (forall|q: int| p < q < st.len() ==> #[trigger] st[q].name != name)
                && st2 == st.remove(p)
        }),
{
    reveal_strlit("\\begin");
    reveal_strlit("\\end");
    is_ascii_chars_encode_utf8("\\begin"@);
    is_ascii_chars_encode_utf8("\\end"@);
    assert(t.subrange(i, i + end_word().len())[1] == t[i + 1]);
    if has_at(t, i, begin_word()) {
        assert(t.subrange(i, i + begin_word().len())[1] == t[i + 1]);
    }
    assert(try_begin(t, i) is None);
    let (name, nx) = try_end(t, i)->0;
    law_end_closes_innermost_named(st, name);
}

/// The views of a list of label entries.
pub open spec fn label_views(v: Seq<LabelEntry>) -> Seq<LabelView> {
    v.map_values(|e: LabelEntry| label_view(e))
}

/// Scan `text` (the contents of the file at `path`) for labels: the entries
/// in document order.
#[verifier::rlimit(40)]
pub fn collect_labels(text: &str, path: &str) -> (r: Vec<LabelEntry>)
    requires
        newlines(text.spec_bytes()) <= u32::MAX,
    ensures
        label_views(r@) == label_scan(text.spec_bytes(), path@, 0, Seq::empty()),
{
    let bytes = text.as_bytes();
    let n = bytes.len();
    let maths = math_envs();
    let ths = theorem_envs();
    let cmds = section_cmds();
    let mut stack: Vec<EnvFrame> = Vec::new();
    let mut out: Vec<LabelEntry> = Vec::new();
    let ghost whole = label_scan(bytes@, path@, 0, Seq::empty());
    assert(frames_view(stack@) =~= Seq::<FrameView>::empty());
    assert(label_views(out@) + whole =~= whole);
    let mut i: usize = 0;
    while i < n
        invariant
            n == bytes@.len(),
            bytes@ == text.spec_bytes(),
            newlines(bytes@) <= u32::MAX,
            maths@ == spec_math_envs(),
            ths@ == spec_theorem_envs(),
            cmds@ == spec_section_cmds(),
            i <= n,
            frames_ok(frames_view(stack@), i as int),
            whole == label_scan(bytes@, path@, 0, Seq::empty()),
            whole == label_views(out@) + label_scan(bytes@, path@, i as int, frames_view(stack@)),
        decreases n - i,
    {
        let ghost st = frames_view(stack@);
        let ghost old_out = out@;
        let (e, nx) = scan_step(bytes, path, i, &mut stack, maths.as_slice(), ths.as_slice(), cmds.as_slice());
        match e {
            Some(v) => {
                out.push(v);
            },
            None => {},
        }
        proof {
            assert(label_views(out@) =~= label_views(old_out) + (match label_step(bytes@, path@, i as int, st).0 {
                Some(v) => seq![v],
                None => Seq::<LabelView>::empty(),
            }));
        }
        i = nx;
    }
    assert(label_scan(bytes@, path@, i as int, frames_view(stack@)) =~= Seq::<LabelView>::empty());
    assert(whole =~= label_views(out@));
    out
}


/// The label map `m` after inserting `es` in order (a later entry replaces
/// an earlier one with the same key).
pub open spec fn insert_labels(m: LabelsView, es: Seq<LabelView>) -> LabelsView
    decreases es.len(),
{
    if es.len() == 0 {
        m
    } else {
        insert_labels(m, es.drop_last()).insert(es.last().key, es.last())
    }
}

/// Parse `text` (the contents of the file at `path`) and record every
/// `\label{…}` site in `index`, replacing the labels recorded earlier from
/// `path`.
pub fn extract_labels(text: &str, path: &str, index: &mut Index)
    requires
        newlines(text.spec_bytes()) <= u32::MAX,
    ensures
        label_map(final(index).labels) == insert_labels(
            labels_not_from(label_map(old(index).labels), path@),
            label_scan(text.spec_bytes(), path@, 0, Seq::empty()),
        ),
        final(index).bib == old(index).bib,
        final(index).macros == old(index).macros,
{
    retain_labels_not_from(&mut index.labels, path);
    let ghost base = label_map(index.labels);
    let entries = collect_labels(text, path);
    let ghost es = label_views(entries@);
    for e in it: entries.into_iter()
        invariant
            es == label_views(it.seq()),
            label_map(index.labels) == insert_labels(base, es.take(it.index() as int)),
            index.bib == old(index).bib,
            index.macros == old(index).macros,
    {
        proof {
            assert(es.take(it.index() + 1).drop_last() =~= es.take(it.index() as int));
        }
        let k = e.key.clone();
        insert_label(&mut index.labels, k, e);
    }
    assert(es.take(es.len() as int) =~= es);
}

} // verus!
