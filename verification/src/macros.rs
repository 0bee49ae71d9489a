//! Macro definitions: `\newcommand`, `\renewcommand`, `\providecommand`
//! (each also starred), `\def` and `\DeclareMathOperator`.
use vstd::prelude::*;
use vstd::string::{StringSliceAdditionalSpecFns, StringExecFns};
use vstd::utf8::{valid_utf8, decode_utf8, encode_utf8};
use crate::text::{read_braced, braced, decoded, decode_string, has_at, starts_with_word, skip_blanks, skip_blanks_at, is_alpha, byte_is_alpha, utf8_str, str_trim, trim_ws, lemma_braced_bounds};
use crate::math::{first_byte_from, find_byte, lemma_first_byte_from, lemma_skip_blanks};
use crate::labels::{ident_at, ident_byte_at};
use crate::index::{Index, MacroDef, MacroView, macro_view, macro_map, insert_macro, contains_macro, retain_macros_not_from, macros_not_from, MacrosView};

verus! {

pub open spec fn spec_defining_cmds() -> Seq<&'static str> {
    seq![
        "newcommand*", "newcommand", "renewcommand*", "renewcommand", "providecommand*",
        "providecommand", "def", "DeclareMathOperator",
    ]
}

/// The defining commands, longer (starred) forms before their prefixes.
pub fn defining_cmds() -> (r: Vec<&'static str>)
    ensures
        r@ == spec_defining_cmds(),
{
    vec![
        "newcommand*", "newcommand", "renewcommand*", "renewcommand", "providecommand*",
        "providecommand", "def", "DeclareMathOperator",
    ]
}

/// Index of `\DeclareMathOperator` in the list.
pub open spec fn declare_op() -> int {
    7
}

/// The first defining command (from list index `k`) spelled at `i` and not
/// followed by an identifier byte.
pub open spec fn cmd_match(t: Seq<u8>, i: int, k: int) -> Option<int>
    decreases spec_defining_cmds().len() - k,
{
    if k < 0 || k >= spec_defining_cmds().len() {
        None
    } else {
        let w = spec_defining_cmds()[k].spec_bytes();
        if has_at(t, i, w) && !ident_at(t, i + w.len()) {
            Some(k)
        } else {
            cmd_match(t, i, k + 1)
        }
    }
}

pub proof fn lemma_cmd_match(t: Seq<u8>, i: int, k: int)
    ensures
        cmd_match(t, i, k) matches Some(c) ==> k <= c < spec_defining_cmds().len()
            && has_at(t, i, spec_defining_cmds()[c].spec_bytes()),
    decreases spec_defining_cmds().len() - k,
{
    if 0 <= k < spec_defining_cmds().len() {
        let w = spec_defining_cmds()[k].spec_bytes();
        if !(has_at(t, i, w) && !ident_at(t, i + w.len())) {
            lemma_cmd_match(t, i, k + 1);
        }
    }
}

/// Index just past the run of letters and `@` starting at `i`.
pub open spec fn ident_run_end(t: Seq<u8>, i: int) -> int
    decreases t.len() - i,
{
    if ident_at(t, i) {
        ident_run_end(t, i + 1)
    } else {
        i
    }
}

pub proof fn lemma_ident_run_end(t: Seq<u8>, i: int)
    requires
        0 <= i <= t.len(),
    ensures
        i <= ident_run_end(t, i) <= t.len(),
    decreases t.len() - i,
{
    if ident_at(t, i) {
        lemma_ident_run_end(t, i + 1);
    }
}

// ── decimal numbers ────────────────────────────────────────────────────

pub open spec fn is_digit_byte(b: u8) -> bool {
    48 <= b <= 57
}

/// The value of a string of decimal digits.
pub open spec fn digits_value(d: Seq<u8>) -> nat
    decreases d.len(),
{
    if d.len() == 0 {
        0
    } else {
        (digits_value(d.drop_last()) * 10 + (d.last() - 48)) as nat
    }
}

/// `s` without one leading `+`.
pub open spec fn unsigned_digits(s: Seq<u8>) -> Seq<u8> {
    if s.len() > 0 && s[0] == 43 {
        s.drop_first()
    } else {
        s
    }
}

pub open spec fn all_digits(d: Seq<u8>) -> bool {
    forall|j: int| 0 <= j < d.len() ==> is_digit_byte(#[trigger] d[j])
}

/// What `u32`'s `FromStr` accepts: an optional `+` then one or more ASCII
/// digits whose value fits in `u32`.
pub open spec fn parse_u32(s: Seq<u8>) -> Option<u32> {
    let d = unsigned_digits(s);
    if d.len() > 0 && all_digits(d) && digits_value(d) <= u32::MAX {
        Some(digits_value(d) as u32)
    } else {
        None
    }
}

proof fn lemma_digits_mono(d: Seq<u8>, k: int)
    requires
        0 <= k <= d.len(),
        forall|j: int| 0 <= j < d.len() ==> is_digit_byte(#[trigger] d[j]),
    ensures
        digits_value(d.take(k)) <= digits_value(d),
    decreases d.len(),
{
    if k < d.len() {
        assert(d.drop_last().take(k) =~= d.take(k));
        lemma_digits_mono(d.drop_last(), k);
    } else {
        assert(d.take(k) =~= d);
    }
}

/// Parse a decimal `u32` (an optional `+` and ASCII digits).
pub fn parse_decimal_u32(s: &[u8]) -> (r: Option<u32>)
    ensures
        r == parse_u32(s@),
{
    let start: usize = if s.len() > 0 && s[0] == 43 { 1 } else { 0 };
    let ghost d = unsigned_digits(s@);
    assert(d =~= s@.skip(start as int));
    if start >= s.len() {
        assert(d.len() == 0);
        return None;
    }
    let mut v: u64 = 0;
    let mut k: usize = start;
    while k < s.len()
        invariant
            start <= k <= s@.len(),
            d == unsigned_digits(s@),
            d =~= s@.skip(start as int),
            forall|j: int| 0 <= j < k - start ==> is_digit_byte(#[trigger] d[j]),
            v == digits_value(d.take(k - start)),
            v <= u32::MAX,
        decreases s@.len() - k,
    {
        let b = s[k];
        if !(48 <= b && b <= 57) {
            assert(d[k - start] == b);
            assert(!is_digit_byte(d[k - start]));
            assert(!all_digits(d));
            return None;
        }
        assert(d.take(k + 1 - start).drop_last() =~= d.take(k - start));
        let nv = v * 10 + (b - 48) as u64;
        if nv > 4294967295 {
            proof {
                assert forall|j: int| 0 <= j < k + 1 - start implies is_digit_byte(#[trigger] d.take(k + 1 - start)[j]) by {
                    if j < k - start {
                        assert(d.take(k + 1 - start)[j] == d[j]);
                    }
                }
                if all_digits(d) {
                    lemma_digits_mono(d, k + 1 - start);
                }
            }
            return None;
        }
        v = nv;
        k += 1;
    }
    assert(d.take(k - start) =~= d);
    Some(v as u32)
}

// ── one definition ─────────────────────────────────────────────────────

/// The name of a definition at `a0` (just past the command and blanks):
/// `{\NAME}` or `\NAME`; its byte range and where scanning resumes.
pub open spec fn name_part(t: Seq<u8>, a0: int) -> Option<(int, int, int)> {
    if 0 <= a0 < t.len() && t[a0] == 123 {
        let c = first_byte_from(t, a0 + 1, 125);
        if c >= t.len() || !(a0 + 1 < t.len() && t[a0 + 1] == 92) {
            None
        } else {
            Some((a0 + 2, c, c + 1))
        }
    } else if 0 <= a0 < t.len() && t[a0] == 92 {
        let e = ident_run_end(t, a0 + 1);
        Some((a0 + 1, e, e))
    } else {
        None
    }
}

/// The optional `[N]` argument count at `a2`: the count and where scanning
/// resumes (0 and `a2` when there is none).
pub open spec fn arity_part(t: Seq<u8>, a2: int) -> Option<(int, int)> {
    if 0 <= a2 < t.len() && t[a2] == 91 {
        let c = first_byte_from(t, a2 + 1, 93);
        if c >= t.len() {
            None
        } else {
            match decoded(t.subrange(a2 + 1, c)) {
                None => None,
                Some(s) => match parse_u32(encode_utf8(trim_ws(s))) {
                    None => None,
                    Some(n) => Some((n as int, c + 1)),
                },
            }
        }
    } else {
        Some((0, a2))
    }
}

/// A macro definition at `at`: the command's list index, the name's byte
/// range, the argument count, and the position of the body's `{`.
pub open spec fn macro_site(t: Seq<u8>, at: int) -> Option<(int, int, int, int, int)> {
    if !(0 <= at < t.len() && t[at] == 92) {
        None
    } else {
        match cmd_match(t, at + 1, 0) {
            None => None,
            Some(k) => match name_part(t, skip_blanks(t, at + 1 + spec_defining_cmds()[k].spec_bytes().len())) {
                None => None,
                Some((ns, ne, a1)) => match decoded(t.subrange(ns, ne)) {
                    None => None,
                    Some(name) => if name.len() == 0 {
                        None
                    } else {
                        match arity_part(t, skip_blanks(t, a1)) {
                            None => None,
                            Some((n, a3)) => {
                                let b = skip_blanks(t, a3);
                                if 0 <= b < t.len() && t[b] == 123 {
                                    Some((k, ns, ne, n, b))
                                } else {
                                    None
                                }
                            },
                        }
                    },
                },
            },
        }
    }
}

proof fn lemma_decoded_nonempty(b: Seq<u8>)
    requires
        valid_utf8(b),
        b.len() > 0,
    ensures
        decoded(b) matches Some(s) && s.len() > 0,
{
    vstd::utf8::decode_utf8_encode_utf8(b);
    if decode_utf8(b).len() == 0 {
        assert(decode_utf8(b) =~= Seq::<char>::empty());
        assert(encode_utf8(Seq::<char>::empty()) =~= Seq::<u8>::empty());
    }
}

/// Every defining command takes its name in either form: `\CMD\NAME{…}`
/// and `\CMD{\NAME}{…}` (blanks allowed between the parts) both define
/// NAME, with no argument count, and a body opening at the same brace.
/// This holds for each command of the list, not only `\def`.
pub proof fn law_name_forms(t: Seq<u8>, at: int)
    requires
        valid_utf8(t),
        0 <= at < t.len(),
        t[at] == 92,
        cmd_match(t, at + 1, 0) is Some,
    ensures
        ({
            let k = cmd_match(t, at + 1, 0)->0;
            let a0 = skip_blanks(t, at + 1 + spec_defining_cmds()[k].spec_bytes().len());
            &&& (0 <= a0 < t.len() && t[a0] == 92 && ident_run_end(t, a0 + 1) > a0 + 1
                && 0 <= skip_blanks(t, ident_run_end(t, a0 + 1)) < t.len()
                && t[skip_blanks(t, ident_run_end(t, a0 + 1))] == 123)
                ==> macro_site(t, at) == Some((k, a0 + 1, ident_run_end(t, a0 + 1), 0int, skip_blanks(t, ident_run_end(t, a0 + 1))))
            &&& (0 <= a0 && a0 + 1 < t.len() && t[a0] == 123 && t[a0 + 1] == 92
                && first_byte_from(t, a0 + 1, 125) < t.len()
                && first_byte_from(t, a0 + 1, 125) > a0 + 2
                && 0 <= skip_blanks(t, first_byte_from(t, a0 + 1, 125) + 1) < t.len()
                && t[skip_blanks(t, first_byte_from(t, a0 + 1, 125) + 1)] == 123)
                ==> macro_site(t, at) == Some((k, a0 + 2, first_byte_from(t, a0 + 1, 125), 0int,
                    skip_blanks(t, first_byte_from(t, a0 + 1, 125) + 1)))
        }),
{
    let k = cmd_match(t, at + 1, 0)->0;
    lemma_cmd_match(t, at + 1, 0);
    let a0 = skip_blanks(t, at + 1 + spec_defining_cmds()[k].spec_bytes().len());
    lemma_skip_blanks(t, at + 1 + spec_defining_cmds()[k].spec_bytes().len());
    if 0 <= a0 < t.len() && t[a0] == 92 {
        let e = ident_run_end(t, a0 + 1);
        lemma_ident_run_end(t, a0 + 1);
        if e > a0 + 1 {
            lemma_skip_blanks(t, e);
            let b = skip_blanks(t, e);
            if 0 <= b < t.len() && t[b] == 123 {
                assert(ident_at(t, e - 1)) by {
                    lemma_ident_run_last(t, a0 + 1);
                }
                crate::text::lemma_ascii_cut_valid(t, a0 + 1, e);
                lemma_decoded_nonempty(t.subrange(a0 + 1, e));
                assert(skip_blanks(t, b) == b);
            }
        }
    }
    if 0 <= a0 && a0 + 1 < t.len() && t[a0] == 123 && t[a0 + 1] == 92 {
        let c = first_byte_from(t, a0 + 1, 125);
        lemma_first_byte_from(t, a0 + 1, 125);
        if c < t.len() && c > a0 + 2 {
            lemma_skip_blanks(t, c + 1);
            let b = skip_blanks(t, c + 1);
            if 0 <= b < t.len() && t[b] == 123 {
                crate::text::lemma_ascii_cut_valid(t, a0 + 2, c);
                lemma_decoded_nonempty(t.subrange(a0 + 2, c));
                assert(skip_blanks(t, b) == b);
            }
        }
    }
}

/// The last byte of a non-empty identifier run is an identifier byte.
proof fn lemma_ident_run_last(t: Seq<u8>, i: int)
    requires
        0 <= i <= t.len(),
        ident_run_end(t, i) > i,
    ensures
        ident_at(t, ident_run_end(t, i) - 1),
    decreases t.len() - i,
{
    if ident_at(t, i) && ident_run_end(t, i + 1) > i + 1 {
        lemma_ident_run_last(t, i + 1);
    }
}

/// Where a definition read from a file starts: command, name, count, body.
pub struct MacroSite {
    pub cmd: usize,
    pub name_start: usize,
    pub name_end: usize,
    pub arity: u32,
    pub body_open: usize,
}

fn match_defining_cmd(text: &[u8], i: usize, cmds: &[&str]) -> (r: Option<usize>)
    requires
        cmds@ == spec_defining_cmds(),
    ensures
        match r {
            Some(k) => cmd_match(text@, i as int, 0) == Some(k as int) && k < cmds@.len()
                && i + cmds@[k as int].spec_bytes().len() <= text@.len(),
            None => cmd_match(text@, i as int, 0) is None,
        },
{
    let n = text.len();
    let mut k: usize = 0;
    while k < cmds.len()
        invariant
            n == text@.len(),
            cmds@ == spec_defining_cmds(),
            k <= cmds@.len(),
            cmd_match(text@, i as int, k as int) == cmd_match(text@, i as int, 0),
        decreases cmds@.len() - k,
    {
        let w = cmds[k].as_bytes();
        if starts_with_word(text, i, w) {
            assert(i + w@.len() <= n);
            if !ident_byte_at(text, i + w.len()) {
                return Some(k);
            }
        }
        k += 1;
    }
    None
}

fn ident_run_at(t: &[u8], at: usize) -> (r: usize)
    requires
        at <= t@.len(),
    ensures
        r == ident_run_end(t@, at as int),
        at <= r <= t@.len(),
{
    proof {
        lemma_ident_run_end(t@, at as int);
    }
    let n = t.len();
    let mut i = at;
    while ident_byte_at(t, i)
        invariant
            n == t@.len(),
            at <= i <= t@.len(),
            ident_run_end(t@, i as int) == ident_run_end(t@, at as int),
        decreases t@.len() - i,
    {
        i += 1;
    }
    i
}

/// Read a definition starting at `at` (the leading `\`).
pub fn read_macro_def(text: &[u8], at: usize) -> (r: Option<MacroSite>)
    ensures
        match r {
            Some(s) => macro_site(text@, at as int) == Some((s.cmd as int, s.name_start as int, s.name_end as int, s.arity as int, s.body_open as int))
                && at < s.name_start <= s.name_end <= text@.len() && at < s.body_open < text@.len(),
            None => macro_site(text@, at as int) is None,
        },
{
    let cmds_list = defining_cmds();
    let cmds = cmds_list.as_slice();
    if !(at < text.len() && text[at] == 92) {
        return None;
    }
    let k = match match_defining_cmd(text, at + 1, cmds) {
        Some(k) => k,
        None => return None,
    };
    let a0 = skip_blanks_at(text, at + 1 + cmds[k].as_bytes().len());
    let (ns, ne, a1) = if a0 < text.len() && text[a0] == 123 {
        let c = find_byte(text, a0 + 1, 125);
        proof {
            lemma_first_byte_from(text@, a0 + 1, 125);
        }
        if c >= text.len() || !(a0 + 1 < text.len() && text[a0 + 1] == 92) {
            return None;
        }
        (a0 + 2, c, c + 1)
    } else if a0 < text.len() && text[a0] == 92 {
        let e = ident_run_at(text, a0 + 1);
        (a0 + 1, e, e)
    } else {
        return None;
    };
    assert(name_part(text@, a0 as int) == Some((ns as int, ne as int, a1 as int)));
    match utf8_str(&text[ns..ne]) {
        Some(name) => {
            if name.is_empty() {
                return None;
            }
        },
        None => return None,
    }
    let a2 = skip_blanks_at(text, a1);
    let (n, a3) = if a2 < text.len() && text[a2] == 91 {
        let c = find_byte(text, a2 + 1, 93);
        if c >= text.len() {
            return None;
        }
        let inner = match utf8_str(&text[a2 + 1..c]) {
            Some(s) => s,
            None => return None,
        };
        let tr = str_trim(inner);
        match parse_decimal_u32(tr.as_bytes()) {
            Some(n) => (n, c + 1),
            None => return None,
        }
    } else {
        (0, a2)
    };
    assert(arity_part(text@, a2 as int) == Some((n as int, a3 as int)));
    let b = skip_blanks_at(text, a3);
    if !(b < text.len() && text[b] == 123) {
        return None;
    }
    Some(MacroSite { cmd: k, name_start: ns, name_end: ne, arity: n, body_open: b })
}

// ── extraction ─────────────────────────────────────────────────────────

/// The body recorded for a definition whose braces enclose `a..b`:
/// the braced text, wrapped in `\operatorname{…}` for `\DeclareMathOperator`.
pub open spec fn macro_body(t: Seq<u8>, cmd: int, a: int, b: int) -> Seq<char> {
    let body = match decoded(t.subrange(a, b)) {
        Some(s) => s,
        None => Seq::empty(),
    };
    if cmd == declare_op() {
        "\\operatorname{"@ + body + "}"@
    } else {
        body
    }
}

/// The definitions found by scanning from `i`, in order.
pub open spec fn macro_scan(t: Seq<u8>, path: Seq<char>, i: int) -> Seq<MacroView>
    decreases t.len() - i,
{
    if i < 0 || i >= t.len() {
        Seq::empty()
    } else {
        match macro_site(t, i) {
            Some((k, ns, ne, n, bo)) => match braced(t, bo) {
                Some((a, b, e)) => if e <= i || e > t.len() {
                    Seq::empty()
                } else {
                    seq![MacroView { name: decode_utf8(t.subrange(ns, ne)), file: path, body: macro_body(t, k, a, b), arity: n }]
                        + macro_scan(t, path, e)
                },
                None => macro_scan(t, path, i + 1),
            },
            None => macro_scan(t, path, i + 1),
        }
    }
}

/// The macro map `m` after adding `ds` in order: the first definition of a
/// name wins, and a name `m` already holds keeps its definition.
pub open spec fn insert_macros(m: MacrosView, ds: Seq<MacroView>) -> MacrosView
    decreases ds.len(),
{
    if ds.len() == 0 {
        m
    } else {
        let before = insert_macros(m, ds.drop_last());
        if before.contains_key(ds.last().name) {
            before
        } else {
            before.insert(ds.last().name, ds.last())
        }
    }
}

/// The definition recorded for the site `s` whose body braces are `a..b`.
fn build_macro_def(text: &[u8], path: &str, s: &MacroSite, a: usize, b: usize) -> (r: MacroDef)
    requires
        s.name_start <= s.name_end <= text@.len(),
        a <= b <= text@.len(),
        valid_utf8(text@.subrange(s.name_start as int, s.name_end as int)),
    ensures
        macro_view(r) == (MacroView {
            name: decode_utf8(text@.subrange(s.name_start as int, s.name_end as int)),
            file: path@,
            body: macro_body(text@, s.cmd as int, a as int, b as int),
            arity: s.arity as int,
        }),
{
    let name = match decode_string(&text[s.name_start..s.name_end]) {
        Some(n) => n,
        None => String::new(),
    };
    let inner = match decode_string(&text[a..b]) {
        Some(x) => x,
        None => String::new(),
    };
    let body = if s.cmd == 7 {
        let mut w = String::from_str("\\operatorname{");
        w.append(inner.as_str());
        w.append("}");
        w
    } else {
        inner
    };
    MacroDef { name, file: path.to_owned(), body, arity: s.arity }
}

/// The definitions in `text` (the contents of the file at `path`), in order.
#[verifier::rlimit(80)]
#[verifier::spinoff_prover]
pub fn collect_macros(text: &str, path: &str) -> (r: Vec<MacroDef>)
    ensures
        r@.map_values(|d: MacroDef| macro_view(d)) == macro_scan(text.spec_bytes(), path@, 0),
{
    let bytes = text.as_bytes();
    let n = bytes.len();
    let mut out: Vec<MacroDef> = Vec::new();
    let ghost whole = macro_scan(bytes@, path@, 0);
    let mut i: usize = 0;
    while i < n
        invariant
            n == bytes@.len(),
            bytes@ == text.spec_bytes(),
            i <= n,
            whole == macro_scan(bytes@, path@, 0),
            whole == out@.map_values(|d: MacroDef| macro_view(d)) + macro_scan(bytes@, path@, i as int),
        decreases n - i,
    {
        let ghost old_out = out@;
        if bytes[i] == 92 {
            match read_macro_def(bytes, i) {
                Some(site) => {
                    match read_braced(bytes, site.body_open) {
                        Some((a, b, end)) => {
                            let d = build_macro_def(bytes, path, &site, a, b);
                            out.push(d);
                            proof {
                                assert(out@.map_values(|d: MacroDef| macro_view(d)) =~= old_out.map_values(|d: MacroDef| macro_view(d)).push(macro_view(d)));
                            }
                            i = end;
                            continue;
                        },
                        None => {},
                    }
                },
                None => {},
            }
        }
        i += 1;
    }
    assert(out@.map_values(|d: MacroDef| macro_view(d)) + macro_scan(bytes@, path@, i as int) =~= out@.map_values(|d: MacroDef| macro_view(d)));
    out
}

/// Parse `text` (the contents of the file at `path`) and record every macro
/// definition in `index`, replacing the macros recorded earlier from `path`.
pub fn extract_macros(text: &str, path: &str, index: &mut Index)
    ensures
        macro_map(final(index).macros) == insert_macros(
            macros_not_from(macro_map(old(index).macros), path@),
            macro_scan(text.spec_bytes(), path@, 0),
        ),
        final(index).labels == old(index).labels,
        final(index).bib == old(index).bib,
{
    retain_macros_not_from(&mut index.macros, path);
    let ghost base = macro_map(index.macros);
    let defs = collect_macros(text, path);
    let ghost ds = defs@.map_values(|d: MacroDef| macro_view(d));
    for d in it: defs.into_iter()
        invariant
            ds == it.seq().map_values(|d: MacroDef| macro_view(d)),
            macro_map(index.macros) == insert_macros(base, ds.take(it.index() as int)),
            index.labels == old(index).labels,
            index.bib == old(index).bib,
    {
        proof {
            assert(ds.take(it.index() + 1).drop_last() =~= ds.take(it.index() as int));
        }
        if !contains_macro(&index.macros, d.name.as_str()) {
            let k = d.name.clone();
            insert_macro(&mut index.macros, k, d);
        }
    }
    assert(ds.take(ds.len() as int) =~= ds);
}

} // verus!
