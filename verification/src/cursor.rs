//! Cursor-context detection.
//!
//! Given the text of a buffer and a byte offset, decide which kind of token
//! the cursor is on: a `\cite{…}` key, a `\ref{…}`-style key, a documented
//! package / command / environment name, a math region, or nothing.
use vstd::prelude::*;
use vstd::utf8::{valid_utf8, decode_utf8, encode_utf8, encode_utf8_decode_utf8};
use vstd::string::StringSliceAdditionalSpecFns;
use crate::math::{first_byte_from, find_byte, lemma_first_byte_from, begin_word, end_word, spec_math_span_at, math_span_at, lemma_skip_blanks};
use crate::dict;
use crate::text::{has_at, skip_blanks, skip_blanks_at, starts_with_word, byte_is_alpha, is_alpha, decoded, decode_string, utf8_str, bytes_eq, is_one_of, braced, decoded_trimmed, back_over_blanks, back_over_alpha, back_blanks, back_alpha, skip_alpha, alpha_end, one_of, read_braced, decode_trimmed};

verus! {

/// What the cursor is on.  `kind` is `"cite"`, `"ref"`, `"math"`, `"doc"` or
/// `"none"`; `key` and `range` are set for the kinds that carry them.
#[derive(Clone, Debug)]
pub struct CursorContext {
    pub kind: String,
    pub key: Option<String>,
    pub range: Option<[usize; 2]>,
}

impl CursorContext {
    pub fn none() -> (r: Self)
        ensures
            r.kind@ == "none"@,
            r.key is None,
            r.range is None,
    {
        CursorContext { kind: "none".to_owned(), key: None, range: None }
    }
}

// ── command lists ──────────────────────────────────────────────────────

pub open spec fn spec_cite_commands() -> Seq<&'static str> {
    seq![
        "cite", "Cite", "citep", "citep*", "citet", "citet*", "citeauthor", "citeyear",
        "citeyearpar", "autocite", "autocite*", "parencite", "footcite", "textcite",
        "smartcite", "supercite",
    ]
}

/// Commands whose braced argument is a citation key.
pub fn cite_commands() -> (r: Vec<&'static str>)
    ensures
        r@ == spec_cite_commands(),
{
    vec![
        "cite", "Cite", "citep", "citep*", "citet", "citet*", "citeauthor", "citeyear",
        "citeyearpar", "autocite", "autocite*", "parencite", "footcite", "textcite",
        "smartcite", "supercite",
    ]
}

pub open spec fn spec_package_load_commands() -> Seq<&'static str> {
    seq!["usepackage", "RequirePackage"]
}

/// Package-loading commands whose mandatory argument is a package name.
pub fn package_load_commands() -> (r: Vec<&'static str>)
    ensures
        r@ == spec_package_load_commands(),
{
    vec!["usepackage", "RequirePackage"]
}

// ── enclosing brace ────────────────────────────────────────────────────

/// Walking left from `i` with `depth` unmatched closing braces: the index
/// of the `{` that encloses the starting point, or `None` when a backslash
/// at depth 0 or the start of the text is met first.
pub open spec fn enclosing_open(t: Seq<u8>, i: int, depth: nat) -> Option<int>
    decreases i,
{
    if i <= 0 || i > t.len() {
        None
    } else if t[i - 1] == 125 {
        enclosing_open(t, i - 1, depth + 1)
    } else if t[i - 1] == 123 {
        if depth == 0 {
            Some(i - 1)
        } else {
            enclosing_open(t, i - 1, (depth - 1) as nat)
        }
    } else if t[i - 1] == 92 && depth == 0 {
        None
    } else {
        enclosing_open(t, i - 1, depth)
    }
}

pub proof fn lemma_enclosing_open_bounds(t: Seq<u8>, i: int, depth: nat)
    ensures
        enclosing_open(t, i, depth) matches Some(o) ==> 0 <= o < i && o < t.len() && t[o]
            == 123,
    decreases i,
{
    if 0 < i <= t.len() {
        if t[i - 1] == 125 {
            lemma_enclosing_open_bounds(t, i - 1, depth + 1);
        } else if t[i - 1] == 123 {
            if depth > 0 {
                lemma_enclosing_open_bounds(t, i - 1, (depth - 1) as nat);
            }
        } else if !(t[i - 1] == 92 && depth == 0) {
            lemma_enclosing_open_bounds(t, i - 1, depth);
        }
    }
}

pub open spec fn clamp(off: int, len: int) -> int {
    if off < len {
        off
    } else {
        len
    }
}

fn find_enclosing_open(bytes: &[u8], off: usize) -> (r: Option<usize>)
    requires
        off <= bytes@.len(),
    ensures
        r matches Some(o) ==> enclosing_open(bytes@, off as int, 0) == Some(o as int),
        r is None ==> enclosing_open(bytes@, off as int, 0) is None,
{
    let mut depth: usize = 0;
    let mut i = off;
    while i > 0
        invariant
            i <= off <= bytes@.len(),
            depth <= off - i,
            enclosing_open(bytes@, i as int, depth as nat) == enclosing_open(
                bytes@,
                off as int,
                0,
            ),
        decreases i,
    {
        let b = bytes[i - 1];
        if b == 125 {
            depth += 1;
        } else if b == 123 {
            if depth == 0 {
                return Some(i - 1);
            }
            depth -= 1;
        } else if b == 92 && depth == 0 {
            return None;
        }
        i -= 1;
    }
    None
}

/// The command name just before the brace at `open` (blanks may separate
/// them), as a byte range, when a backslash introduces it.
pub open spec fn command_before(t: Seq<u8>, open: int) -> Option<(int, int)> {
    let end = back_over_blanks(t, open);
    let start = back_over_alpha(t, end);
    if start == 0 || t[start - 1] != 92 {
        None
    } else {
        Some((start, end))
    }
}

fn find_command_before(bytes: &[u8], open: usize) -> (r: Option<(usize, usize)>)
    requires
        open <= bytes@.len(),
    ensures
        r matches Some((s, e)) ==> command_before(bytes@, open as int) == Some((s as int, e as int)) && 0 < s <= e <= open,
        r is None ==> command_before(bytes@, open as int) is None,
{
    let end = back_blanks(bytes, open);
    let start = back_alpha(bytes, end);
    if start == 0 || bytes[start - 1] != 92 {
        None
    } else {
        Some((start, end))
    }
}

/// The key of the braced argument of one of `cmds` that encloses `offset`:
/// the trimmed text between the braces and the byte range of that text.
pub open spec fn spec_braced_command_at(t: Seq<u8>, offset: int, cmds: Seq<&str>) -> Option<
    (Seq<char>, int, int),
> {
    match enclosing_open(t, clamp(offset, t.len() as int), 0) {
        None => None,
        Some(open) => match command_before(t, open) {
            None => None,
            Some((s, e)) => if !is_one_of(t.subrange(s, e), cmds) {
                None
            } else {
                match braced(t, open) {
                    None => None,
                    Some((a, b, _end)) => match decoded_trimmed(t.subrange(a, b)) {
                        None => None,
                        Some(k) => Some((k, a, b)),
                    },
                }
            },
        },
    }
}

/// Does a detected `(key, range)` pair agree with a specified triple?
pub open spec fn key_range_is(r: Option<(String, [usize; 2])>, s: Option<(Seq<char>, int, int)>) -> bool {
    match r {
        Some((k, rg)) => s == Some((k@, rg[0] as int, rg[1] as int)),
        None => s is None,
    }
}

fn detect_braced_command_at(text: &str, offset: usize, commands: &[&str]) -> (r: Option<(String, [usize; 2])>)
    ensures
        key_range_is(r, spec_braced_command_at(text.spec_bytes(), offset as int, commands@)),
{
    let bytes = text.as_bytes();
    let off = if offset < bytes.len() { offset } else { bytes.len() };
    let open = match find_enclosing_open(bytes, off) {
        Some(o) => o,
        None => return None,
    };
    proof {
        lemma_enclosing_open_bounds(bytes@, off as int, 0);
    }
    let (start, end) = match find_command_before(bytes, open) {
        Some(p) => p,
        None => return None,
    };
    if !one_of(&bytes[start..end], commands) {
        return None;
    }
    match read_braced(bytes, open) {
        Some((a, b, _e)) => match decode_trimmed(&bytes[a..b]) {
            Some(key) => Some((key, [a, b])),
            None => None,
        },
        None => None,
    }
}

/// Detect whether `offset` is inside the argument of a `\cite{…}`-style
/// command; returns the key and the byte range of the argument.
pub fn detect_cite_at(text: &str, offset: usize) -> (r: Option<(String, [usize; 2])>)
    ensures
        key_range_is(r, spec_braced_command_at(text.spec_bytes(), offset as int, spec_cite_commands())),
{
    let cmds = cite_commands();
    detect_braced_command_at(text, offset, cmds.as_slice())
}

/// Like [`detect_cite_at`], for the `\ref{…}`-style commands.
pub fn detect_ref_command_at(text: &str, offset: usize) -> (r: Option<(String, [usize; 2])>)
    ensures
        key_range_is(r, spec_braced_command_at(text.spec_bytes(), offset as int, crate::labels::spec_ref_commands())),
{
    let cmds = crate::labels::ref_commands();
    detect_braced_command_at(text, offset, cmds.as_slice())
}


// ── package / bare command / environment names ─────────────────────────

/// The package name when `offset` is inside the argument of
/// `\usepackage{…}` or `\RequirePackage{…}` (trimmed, non-empty).
pub open spec fn spec_package_at(t: Seq<u8>, offset: int) -> Option<Seq<char>> {
    match spec_braced_command_at(t, offset, spec_package_load_commands()) {
        Some((k, _a, _b)) => if k.len() == 0 {
            None
        } else {
            Some(k)
        },
        None => None,
    }
}

fn detect_package_at(text: &str, offset: usize) -> (r: Option<String>)
    ensures
        match r {
            Some(n) => spec_package_at(text.spec_bytes(), offset as int) == Some(n@),
            None => spec_package_at(text.spec_bytes(), offset as int) is None,
        },
{
    let cmds = package_load_commands();
    match detect_braced_command_at(text, offset, cmds.as_slice()) {
        Some((name, _range)) => {
            if name.as_str().is_empty() {
                None
            } else {
                Some(name)
            }
        },
        None => None,
    }
}

/// The command name (without backslash) when the cursor is on a
/// backslash-command: on the backslash, or in or just after its letters
/// (`|\textbf`, `\te|xtbf`, `\textbf|`).  The whole name is returned.
pub open spec fn spec_bare_command_at(t: Seq<u8>, offset: int) -> Option<Seq<char>> {
    let off = clamp(offset, t.len() as int);
    let p = if off < t.len() && t[off] == 92 { off + 1 } else { off };
    let start = back_over_alpha(t, p);
    let end = alpha_end(t, p);
    if start >= end || start == 0 || t[start - 1] != 92 {
        None
    } else {
        decoded(t.subrange(start, end))
    }
}

fn detect_bare_command_at(text: &str, offset: usize) -> (r: Option<String>)
    ensures
        match r {
            Some(n) => spec_bare_command_at(text.spec_bytes(), offset as int) == Some(n@),
            None => spec_bare_command_at(text.spec_bytes(), offset as int) is None,
        },
{
    let bytes = text.as_bytes();
    let off = if offset < bytes.len() { offset } else { bytes.len() };
    let p = if off < bytes.len() && bytes[off] == 92 { off + 1 } else { off };
    let start = back_alpha(bytes, p);
    let end = skip_alpha(bytes, p);
    if start >= end || start == 0 || bytes[start - 1] != 92 {
        return None;
    }
    decode_string(&bytes[start..end])
}

/// The index of the `{` of a `\begin{`/`\end{` tag (per `word`) at `k`.
pub open spec fn tag_brace(t: Seq<u8>, k: int, word: Seq<u8>) -> Option<int> {
    if !has_at(t, k, word) {
        None
    } else {
        let j = skip_blanks(t, k + word.len());
        if 0 <= j < t.len() && t[j] == 123 {
            Some(j)
        } else {
            None
        }
    }
}

pub open spec fn tag_brace_either(t: Seq<u8>, k: int) -> Option<int> {
    match tag_brace(t, k, begin_word()) {
        Some(j) => Some(j),
        None => tag_brace(t, k, end_word()),
    }
}

/// Walking left from `i`: the nearest `\begin{NAME}` / `\end{NAME}` tag.  The
/// result is the name and its byte range when `offset` lies on the tag
/// (from its backslash through the closing brace), `None` otherwise or when
/// the tag is unterminated.
pub open spec fn nearest_env_tag(t: Seq<u8>, i: int, offset: int) -> Option<(Seq<char>, int, int)>
    decreases i,
{
    if i <= 0 || i > t.len() {
        None
    } else if t[i - 1] != 92 {
        nearest_env_tag(t, i - 1, offset)
    } else {
        match tag_brace_either(t, i - 1) {
            None => nearest_env_tag(t, i - 1, offset),
            Some(j) => {
                let c = first_byte_from(t, j + 1, 125);
                if c >= t.len() || !valid_utf8(t.subrange(j + 1, c)) {
                    None
                } else if offset >= i - 1 && offset <= c + 1 {
                    Some((decode_utf8(t.subrange(j + 1, c)), j + 1, c))
                } else {
                    None
                }
            },
        }
    }
}

fn probe_tag_brace(text: &[u8], k: usize) -> (r: Option<usize>)
    requires
        k < text@.len(),
        text@[k as int] == 92,
    ensures
        r matches Some(j) ==> tag_brace_either(text@, k as int) == Some(j as int) && k < j < text@.len(),
        r is None ==> tag_brace_either(text@, k as int) is None,
{
    let n = text.len();
    let mut pass: usize = 0;
    while pass < 2
        invariant
            n == text@.len(),
            k < n,
            text@[k as int] == 92,
            pass <= 2,
            pass >= 1 ==> tag_brace(text@, k as int, begin_word()) is None,
            pass >= 2 ==> tag_brace(text@, k as int, end_word()) is None,
        decreases 2 - pass,
    {
        let want = if pass == 0 { "\\begin".as_bytes() } else { "\\end".as_bytes() };
        if starts_with_word(text, k, want) {
            assert(k + want@.len() <= n);
            let j = skip_blanks_at(text, k + want.len());
            proof {
                lemma_skip_blanks(text@, k + want@.len());
            }
            if j < text.len() && text[j] == 123 {
                return Some(j);
            }
        }
        pass += 1;
    }
    None
}

fn read_nearest_env_tag(text: &[u8], offset: usize) -> (r: Option<(String, usize, usize)>)
    ensures
        match r {
            Some((n, a, b)) => nearest_env_tag(text@, clamp(offset as int, text@.len() as int), offset as int) == Some((n@, a as int, b as int)),
            None => nearest_env_tag(text@, clamp(offset as int, text@.len() as int), offset as int) is None,
        },
{
    let mut i = if offset < text.len() { offset } else { text.len() };
    let ghost start_i = i;
    while i > 0
        invariant
            i <= start_i <= text@.len(),
            start_i == clamp(offset as int, text@.len() as int),
            nearest_env_tag(text@, i as int, offset as int) == nearest_env_tag(text@, start_i as int, offset as int),
        decreases i,
    {
        i -= 1;
        if text[i] == 92 {
            if let Some(j) = probe_tag_brace(text, i) {
                let start = j + 1;
                let c = find_byte(text, start, 125);
                if c >= text.len() {
                    return None;
                }
                let name = match decode_string(&text[start..c]) {
                    Some(nm) => nm,
                    None => return None,
                };
                if offset >= i && offset <= c + 1 {
                    return Some((name, start, c));
                }
                return None;
            }
        }
    }
    None
}

/// The environment name when the cursor is on a `\begin{…}` / `\end{…}` tag.
pub open spec fn spec_env_name_at(t: Seq<u8>, offset: int) -> Option<Seq<char>> {
    match nearest_env_tag(t, clamp(offset, t.len() as int), offset) {
        Some((n, _a, _b)) => Some(n),
        None => None,
    }
}

fn detect_env_name_at(text: &str, offset: usize) -> (r: Option<String>)
    ensures
        match r {
            Some(n) => spec_env_name_at(text.spec_bytes(), offset as int) == Some(n@),
            None => spec_env_name_at(text.spec_bytes(), offset as int) is None,
        },
{
    match read_nearest_env_tag(text.as_bytes(), offset) {
        Some((name, _a, _b)) => Some(name),
        None => None,
    }
}

/// `name` is in the bundled dictionary.
pub open spec fn in_dict(name: Seq<char>) -> bool {
    dict::lookup_chars(name) is Some
}

/// The name a documentation hover is for: a package argument, a bare
/// command name, or an environment name, whichever is found first and is
/// in the dictionary.
pub open spec fn spec_doc_at(t: Seq<u8>, offset: int) -> Option<Seq<char>> {
    if spec_package_at(t, offset) is Some && in_dict(spec_package_at(t, offset)->0) {
        spec_package_at(t, offset)
    } else if spec_bare_command_at(t, offset) is Some && in_dict(spec_bare_command_at(t, offset)->0) {
        spec_bare_command_at(t, offset)
    } else if spec_env_name_at(t, offset) is Some && in_dict(spec_env_name_at(t, offset)->0) {
        spec_env_name_at(t, offset)
    } else {
        None
    }
}

/// The package / command / environment name under the cursor that the
/// bundled dictionary documents.
pub fn detect_doc_at(text: &str, offset: usize) -> (r: Option<String>)
    ensures
        match r {
            Some(n) => spec_doc_at(text.spec_bytes(), offset as int) == Some(n@),
            None => spec_doc_at(text.spec_bytes(), offset as int) is None,
        },
{
    if let Some(name) = detect_package_at(text, offset) {
        if dict::lookup(name.as_str()).is_some() {
            return Some(name);
        }
    }
    if let Some(name) = detect_bare_command_at(text, offset) {
        if dict::lookup(name.as_str()).is_some() {
            return Some(name);
        }
    }
    if let Some(name) = detect_env_name_at(text, offset) {
        if dict::lookup(name.as_str()).is_some() {
            return Some(name);
        }
    }
    None
}


// ── buffer store ───────────────────────────────────────────────────────

/// The text-by-URI map that a sequence of `(uri, text)` pairs describes:
/// later pairs win.
pub open spec fn pairs_map(s: Seq<(String, String)>) -> Map<Seq<char>, Seq<char>>
    decreases s.len(),
{
    if s.len() == 0 {
        Map::empty()
    } else {
        pairs_map(s.drop_last()).insert(s.last().0@, s.last().1@)
    }
}

/// No URI occurs twice.
pub open spec fn unique_keys(s: Seq<(String, String)>) -> bool {
    forall|i: int, j: int| 0 <= i < j < s.len() ==> s[i].0@ != s[j].0@
}

proof fn lemma_pairs_map_get(s: Seq<(String, String)>, k: Seq<char>)
    requires
        unique_keys(s),
    ensures
        pairs_map(s).contains_key(k) <==> exists|i: int| 0 <= i < s.len() && s[i].0@ == k,
        forall|i: int| 0 <= i < s.len() && #[trigger] s[i].0@ == k ==> pairs_map(s)[k] == s[i].1@,
    decreases s.len(),
{
    if s.len() > 0 {
        let p = s.drop_last();
        assert(unique_keys(p));
        lemma_pairs_map_get(p, k);
        if pairs_map(s).contains_key(k) && s.last().0@ != k {
            let i = choose|i: int| 0 <= i < p.len() && p[i].0@ == k;
            assert(s[i].0@ == k);
        }
        if exists|i: int| 0 <= i < s.len() && s[i].0@ == k {
            let i = choose|i: int| 0 <= i < s.len() && s[i].0@ == k;
            if i < s.len() - 1 {
                assert(p[i].0@ == k);
            }
        }
    }
}

proof fn lemma_pairs_map_remove(s: Seq<(String, String)>, i: int)
    requires
        unique_keys(s),
        0 <= i < s.len(),
    ensures
        pairs_map(s.remove(i)) =~= pairs_map(s).remove(s[i].0@),
        unique_keys(s.remove(i)),
    decreases s.len(),
{
    let r = s.remove(i);
    assert(unique_keys(r)) by {
        assert forall|a: int, b: int| 0 <= a < b < r.len() implies r[a].0@ != r[b].0@ by {
            let a2 = if a < i { a } else { a + 1 };
            let b2 = if b < i { b } else { b + 1 };
            assert(r[a] == s[a2]);
            assert(r[b] == s[b2]);
        }
    }
    if i == s.len() - 1 {
        assert(r =~= s.drop_last());
        lemma_pairs_map_get(s.drop_last(), s[i].0@);
        assert(!pairs_map(s.drop_last()).contains_key(s[i].0@)) by {
            if pairs_map(s.drop_last()).contains_key(s[i].0@) {
                let j = choose|j: int| 0 <= j < s.drop_last().len() && s.drop_last()[j].0@ == s[i].0@;
                assert(s[j].0@ == s[i].0@);
            }
        }
    } else {
        let p = s.drop_last();
        assert(unique_keys(p));
        lemma_pairs_map_remove(p, i);
        assert(r.drop_last() =~= p.remove(i));
        assert(r.last() == s.last());
        assert(s.last().0@ != s[i].0@);
    }
}

proof fn lemma_pairs_map_push(s: Seq<(String, String)>, k: String, v: String)
    requires
        unique_keys(s),
        forall|i: int| 0 <= i < s.len() ==> s[i].0@ != k@,
    ensures
        pairs_map(s.push((k, v))) == pairs_map(s).insert(k@, v@),
        unique_keys(s.push((k, v))),
{
    assert(s.push((k, v)).drop_last() =~= s);
}

/// The most recent text of each open buffer, by URI.
pub struct BufferStore {
    entries: Vec<(String, String)>,
}

impl View for BufferStore {
    type V = Map<Seq<char>, Seq<char>>;

    closed spec fn view(&self) -> Map<Seq<char>, Seq<char>> {
        pairs_map(self.entries@)
    }
}

impl BufferStore {
    /// Each URI is held once.
    pub closed spec fn wf(&self) -> bool {
        unique_keys(self.entries@)
    }

    pub fn new() -> (r: Self)
        ensures
            r.wf(),
            r@ == Map::<Seq<char>, Seq<char>>::empty(),
    {
        BufferStore { entries: Vec::new() }
    }

    fn position(&self, uri: &str) -> (r: Option<usize>)
        requires
            self.wf(),
        ensures
            r matches Some(i) ==> i < self.entries@.len() && self.entries@[i as int].0@ == uri@,
            r is None ==> forall|i: int| 0 <= i < self.entries@.len() ==> self.entries@[i].0@ != uri@,
    {
        let mut k: usize = 0;
        while k < self.entries.len()
            invariant
                k <= self.entries@.len(),
                forall|i: int| 0 <= i < k ==> self.entries@[i].0@ != uri@,
            decreases self.entries@.len() - k,
        {
            let key = self.entries[k].0.as_str();
            if bytes_eq(key.as_bytes(), uri.as_bytes()) {
                proof {
                    encode_utf8_decode_utf8(self.entries@[k as int].0@);
                    encode_utf8_decode_utf8(uri@);
                }
                return Some(k);
            }
            k += 1;
        }
        None
    }

    /// Remember `text` as the current content of `uri`.
    pub fn put(&mut self, uri: String, text: String)
        requires
            old(self).wf(),
        ensures
            final(self).wf(),
            final(self)@ == old(self)@.insert(uri@, text@),
    {
        if let Some(i) = self.position(uri.as_str()) {
            proof {
                lemma_pairs_map_remove(self.entries@, i as int);
            }
            self.entries.remove(i);
        }
        let ghost before = self.entries@;
        proof {
            assert forall|i: int| 0 <= i < before.len() implies before[i].0@ != uri@ by {
                lemma_pairs_map_get(before, uri@);
                if before[i].0@ == uri@ {
                    assert(pairs_map(before).contains_key(uri@));
                }
            }
            lemma_pairs_map_push(before, uri, text);
        }
        self.entries.push((uri, text));
        assert(pairs_map(self.entries@) =~= old(self)@.insert(uri@, text@));
    }

    /// The current text of `uri`, if it is open.
    pub fn get(&self, uri: &str) -> (r: Option<String>)
        requires
            self.wf(),
        ensures
            match r {
                Some(t) => self@.contains_key(uri@) && self@[uri@] == t@,
                None => !self@.contains_key(uri@),
            },
    {
        proof {
            lemma_pairs_map_get(self.entries@, uri@);
        }
        match self.position(uri) {
            Some(i) => Some(self.entries[i].1.clone()),
            None => None,
        }
    }

    /// Forget the text of `uri`.
    pub fn close(&mut self, uri: &str)
        requires
            old(self).wf(),
        ensures
            final(self).wf(),
            final(self)@ == old(self)@.remove(uri@),
    {
        proof {
            lemma_pairs_map_get(self.entries@, uri@);
        }
        match self.position(uri) {
            Some(i) => {
                proof {
                    lemma_pairs_map_remove(self.entries@, i as int);
                }
                self.entries.remove(i);
            },
            None => {
                assert(self@ =~= old(self)@.remove(uri@));
            },
        }
    }
}

// ── cursor context ─────────────────────────────────────────────────────

/// `c` has the given kind, key and range.
pub open spec fn context_is(c: CursorContext, kind: Seq<char>, key: Option<Seq<char>>, range: Option<(int, int)>) -> bool {
    &&& c.kind@ == kind
    &&& match (c.key, key) {
        (Some(k), Some(k2)) => k@ == k2,
        (None, None) => true,
        _ => false,
    }
    &&& match (c.range, range) {
        (Some(r), Some((a, b))) => r[0] == a && r[1] == b,
        (None, None) => true,
        _ => false,
    }
}

/// The context of `offset` in text with bytes `t`: a citation key, then a
/// reference key, then a documented name, then math, else nothing.
pub open spec fn spec_context(t: Seq<u8>, offset: int) -> (Seq<char>, Option<Seq<char>>, Option<(int, int)>) {
    if spec_braced_command_at(t, offset, spec_cite_commands()) is Some {
        let (k, a, b) = spec_braced_command_at(t, offset, spec_cite_commands())->0;
        ("cite"@, Some(k), Some((a, b)))
    } else if spec_braced_command_at(t, offset, crate::labels::spec_ref_commands()) is Some {
        let (k, a, b) = spec_braced_command_at(t, offset, crate::labels::spec_ref_commands())->0;
        ("ref"@, Some(k), Some((a, b)))
    } else if spec_doc_at(t, offset) is Some {
        ("doc"@, spec_doc_at(t, offset), None)
    } else if spec_math_span_at(t, offset) is Some {
        ("math"@, None, None)
    } else {
        ("none"@, None, None)
    }
}

/// Classify the token at `offset` in the stored text of `uri`.
pub fn cursor_context(uri: &str, offset: usize, store: &BufferStore) -> (r: CursorContext)
    requires
        store.wf(),
    ensures
        !store@.contains_key(uri@) ==> context_is(r, "none"@, None, None),
        store@.contains_key(uri@) ==> ({
            let c = spec_context(encode_utf8(store@[uri@]), offset as int);
            context_is(r, c.0, c.1, c.2)
        }),
{
    let text = match store.get(uri) {
        Some(t) => t,
        None => return CursorContext::none(),
    };
    let text = text.as_str();
    if let Some((key, range)) = detect_cite_at(text, offset) {
        return CursorContext { kind: "cite".to_owned(), key: Some(key), range: Some(range) };
    }
    if let Some((key, range)) = detect_ref_command_at(text, offset) {
        return CursorContext { kind: "ref".to_owned(), key: Some(key), range: Some(range) };
    }
    if let Some((key, range)) = crate::labels::detect_ref_at(text, offset) {
        return CursorContext { kind: "ref".to_owned(), key: Some(key), range: Some(range) };
    }
    if let Some(name) = detect_doc_at(text, offset) {
        return CursorContext { kind: "doc".to_owned(), key: Some(name), range: None };
    }
    if math_span_at(text.as_bytes(), offset).is_some() {
        return CursorContext { kind: "math".to_owned(), key: None, range: None };
    }
    CursorContext::none()
}

} // verus!
