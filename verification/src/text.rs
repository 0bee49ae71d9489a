//! Byte-level text primitives shared by the LaTeX and BibTeX scanners.
//!
//! Every scanner in this crate walks the UTF-8 bytes of a document.  The
//! specifications here describe those walks over `Seq<u8>`; strings handed
//! back to callers are decoded with `vstd::utf8::decode_utf8`.
use vstd::prelude::*;
use vstd::utf8::*;
use vstd::string::StringSliceAdditionalSpecFns;

verus! {

// ── byte classes ───────────────────────────────────────────────────────

pub open spec fn is_alpha(b: u8) -> bool {
    (65 <= b && b <= 90) || (97 <= b && b <= 122)
}

pub open spec fn is_digit(b: u8) -> bool {
    48 <= b && b <= 57
}

pub open spec fn is_alnum(b: u8) -> bool {
    is_alpha(b) || is_digit(b)
}

/// `u8::is_ascii_whitespace`: space, tab, line feed, form feed, carriage return.
pub open spec fn is_ascii_ws(b: u8) -> bool {
    b == 32 || b == 9 || b == 10 || b == 12 || b == 13
}

/// Space or tab.
pub open spec fn is_blank(b: u8) -> bool {
    b == 32 || b == 9
}

pub fn byte_is_alpha(b: u8) -> (r: bool)
    ensures
        r == is_alpha(b),
{
    (65 <= b && b <= 90) || (97 <= b && b <= 122)
}

pub fn byte_is_alnum(b: u8) -> (r: bool)
    ensures
        r == is_alnum(b),
{
    (65 <= b && b <= 90) || (97 <= b && b <= 122) || (48 <= b && b <= 57)
}

pub fn byte_is_ascii_ws(b: u8) -> (r: bool)
    ensures
        r == is_ascii_ws(b),
{
    b == 32 || b == 9 || b == 10 || b == 12 || b == 13
}

/// ASCII lower-casing of one byte (`u8::to_ascii_lowercase`).
pub open spec fn lower(b: u8) -> u8 {
    if 65 <= b && b <= 90 {
        (b + 32) as u8
    } else {
        b
    }
}

pub open spec fn lower_seq(s: Seq<u8>) -> Seq<u8> {
    s.map_values(|b: u8| lower(b))
}

pub fn byte_lower(b: u8) -> (r: u8)
    ensures
        r == lower(b),
{
    if 65 <= b && b <= 90 {
        b + 32
    } else {
        b
    }
}

pub fn lower_bytes(s: &[u8]) -> (r: Vec<u8>)
    ensures
        r@ == lower_seq(s@),
{
    let mut out: Vec<u8> = Vec::new();
    let mut i: usize = 0;
    while i < s.len()
        invariant
            i <= s@.len(),
            out@ == lower_seq(s@.take(i as int)),
        decreases s@.len() - i,
    {
        out.push(byte_lower(s[i]));
        i += 1;
        assert(lower_seq(s@.take(i as int)) =~= lower_seq(s@.take((i - 1) as int)).push(
            lower(s@[i - 1]),
        ));
    }
    assert(s@.take(s@.len() as int) =~= s@);
    out
}

// ── Unicode white space (for `str::trim`) ──────────────────────────────

/// `char::is_whitespace`: the Unicode `White_Space` property.
pub open spec fn is_white_space(c: char) -> bool {
    let u = c as u32;
    (9 <= u && u <= 13) || u == 32 || u == 0x85 || u == 0xA0 || u == 0x1680 || (0x2000 <= u
        && u <= 0x200A) || u == 0x2028 || u == 0x2029 || u == 0x202F || u == 0x205F || u
        == 0x3000
}

pub open spec fn trim_start_ws(s: Seq<char>) -> Seq<char>
    decreases s.len(),
{
    if s.len() > 0 && is_white_space(s[0]) {
        trim_start_ws(s.drop_first())
    } else {
        s
    }
}

pub open spec fn trim_end_ws(s: Seq<char>) -> Seq<char>
    decreases s.len(),
{
    if s.len() > 0 && is_white_space(s.last()) {
        trim_end_ws(s.drop_last())
    } else {
        s
    }
}

/// What `str::trim` leaves of `s`.
pub open spec fn trim_ws(s: Seq<char>) -> Seq<char> {
    trim_end_ws(trim_start_ws(s))
}

proof fn lemma_trim_start_first(s: Seq<char>)
    ensures
        trim_start_ws(s).len() == 0 || !is_white_space(trim_start_ws(s)[0]),
    decreases s.len(),
{
    if s.len() > 0 && is_white_space(s[0]) {
        lemma_trim_start_first(s.drop_first());
    }
}

proof fn lemma_trim_end_prefix(s: Seq<char>)
    ensures
        trim_end_ws(s).len() <= s.len(),
        trim_end_ws(s) == s.take(trim_end_ws(s).len() as int),
        trim_end_ws(s).len() == 0 || !is_white_space(trim_end_ws(s).last()),
    decreases s.len(),
{
    if s.len() > 0 && is_white_space(s.last()) {
        let r = trim_end_ws(s.drop_last());
        lemma_trim_end_prefix(s.drop_last());
        assert(s.drop_last().take(r.len() as int) =~= s.take(r.len() as int));
    } else {
        assert(s.take(s.len() as int) =~= s);
    }
}

/// Trimming twice leaves what trimming once does.
pub proof fn lemma_trim_ws_idempotent(s: Seq<char>)
    ensures
        trim_ws(trim_ws(s)) == trim_ws(s),
{
    let a = trim_start_ws(s);
    let b = trim_end_ws(a);
    lemma_trim_start_first(s);
    lemma_trim_end_prefix(a);
    if b.len() > 0 {
        assert(b[0] == a[0]);
    }
    assert(trim_start_ws(b) == b);
    assert(trim_end_ws(b) == b);
}

/// The string a byte range names: its UTF-8 decoding, when it is valid UTF-8.
pub open spec fn decoded(b: Seq<u8>) -> Option<Seq<char>> {
    if valid_utf8(b) {
        Some(decode_utf8(b))
    } else {
        None
    }
}

/// The string a byte range names, with surrounding white space removed.
pub open spec fn decoded_trimmed(b: Seq<u8>) -> Option<Seq<char>> {
    if valid_utf8(b) {
        Some(trim_ws(decode_utf8(b)))
    } else {
        None
    }
}

/// `std::str::from_utf8`: succeeds exactly on valid UTF-8 and then names the
/// decoded characters.
#[verifier::external_body]
pub(crate) fn utf8_str(b: &[u8]) -> (r: Option<&str>)
    ensures
        r is Some <==> valid_utf8(b@),
        r matches Some(s) ==> s@ == decode_utf8(b@),
{
    std::str::from_utf8(b).ok()
}

/// `str::trim`: drops leading and trailing characters that have the
/// Unicode `White_Space` property.
#[verifier::external_body]
pub(crate) fn str_trim(s: &str) -> (r: &str)
    ensures
        r@ == trim_ws(s@),
{
    s.trim()
}

/// `String::from_utf8`: succeeds exactly on valid UTF-8 and then holds the
/// decoded characters.
#[verifier::external_body]
pub(crate) fn string_from_utf8(b: Vec<u8>) -> (r: Option<String>)
    ensures
        r is Some <==> valid_utf8(b@),
        r matches Some(s) ==> s@ == decode_utf8(b@),
{
    String::from_utf8(b).ok()
}

/// Decode `b` (no trimming), as `std::str::from_utf8(b).ok()?.to_string()`.
pub fn decode_string(b: &[u8]) -> (r: Option<String>)
    ensures
        r matches Some(s) ==> decoded(b@) == Some(s@),
        r is None ==> decoded(b@) is None,
{
    match utf8_str(b) {
        Some(s) => Some(s.to_owned()),
        None => None,
    }
}

/// Decode `b` and trim it, as `std::str::from_utf8(b).ok()?.trim().to_string()`.
pub fn decode_trimmed(b: &[u8]) -> (r: Option<String>)
    ensures
        r matches Some(s) ==> decoded_trimmed(b@) == Some(s@),
        r is None ==> decoded_trimmed(b@) is None,
{
    match utf8_str(b) {
        Some(s) => Some(str_trim(s).to_owned()),
        None => None,
    }
}

// ── prefixes and runs ──────────────────────────────────────────────────

/// `t[at..at + w.len()] == w`.
pub open spec fn has_at(t: Seq<u8>, at: int, w: Seq<u8>) -> bool {
    0 <= at && at + w.len() <= t.len() && t.subrange(at, at + w.len()) == w
}

pub fn starts_with_word(text: &[u8], at: usize, word: &[u8]) -> (r: bool)
    ensures
        r == has_at(text@, at as int, word@),
{
    let n = text.len();
    if at > n || word.len() > n - at {
        return false;
    }
    let mut k: usize = 0;
    while k < word.len()
        invariant
            n == text@.len(),
            at + word@.len() <= n,
            k <= word@.len(),
            forall|j: int| 0 <= j < k ==> text@[at + j] == word@[j],
        decreases word@.len() - k,
    {
        if text[at + k] != word[k] {
            assert(text@.subrange(at as int, at + word@.len())[k as int] != word@[k as int]);
            return false;
        }
        k += 1;
    }
    assert(text@.subrange(at as int, at + word@.len()) =~= word@);
    true
}

/// Byte-wise equality of two slices.
pub fn bytes_eq(a: &[u8], b: &[u8]) -> (r: bool)
    ensures
        r == (a@ == b@),
{
    if a.len() != b.len() {
        return false;
    }
    let mut k: usize = 0;
    while k < a.len()
        invariant
            a@.len() == b@.len(),
            k <= a@.len(),
            forall|j: int| 0 <= j < k ==> a@[j] == b@[j],
        decreases a@.len() - k,
    {
        if a[k] != b[k] {
            return false;
        }
        k += 1;
    }
    assert(a@ =~= b@);
    true
}

/// Whether `name` spells (in UTF-8) one of the words in `words`.
pub open spec fn is_one_of(name: Seq<u8>, words: Seq<&str>) -> bool {
    exists|k: int| 0 <= k < words.len() && name == #[trigger] words[k].spec_bytes()
}

pub fn one_of(name: &[u8], words: &[&str]) -> (r: bool)
    ensures
        r == is_one_of(name@, words@),
{
    let mut k: usize = 0;
    while k < words.len()
        invariant
            k <= words@.len(),
            forall|j: int| 0 <= j < k ==> name@ != #[trigger] words@[j].spec_bytes(),
        decreases words@.len() - k,
    {
        if bytes_eq(name, words[k].as_bytes()) {
            return true;
        }
        k += 1;
    }
    false
}

/// Index just past the run of blanks (spaces, tabs) starting at `i`.
pub open spec fn skip_blanks(t: Seq<u8>, i: int) -> int
    decreases t.len() - i,
{
    if 0 <= i < t.len() && is_blank(t[i]) {
        skip_blanks(t, i + 1)
    } else {
        i
    }
}

pub fn skip_blanks_at(t: &[u8], at: usize) -> (r: usize)
    requires
        at <= t@.len(),
    ensures
        r == skip_blanks(t@, at as int),
        at <= r <= t@.len(),
{
    let mut i = at;
    while i < t.len() && (t[i] == 32 || t[i] == 9)
        invariant
            at <= i <= t@.len(),
            skip_blanks(t@, i as int) == skip_blanks(t@, at as int),
        decreases t@.len() - i,
    {
        i += 1;
    }
    i
}

/// Index of the first blank of the run of blanks that ends at `i`.
pub open spec fn back_over_blanks(t: Seq<u8>, i: int) -> int
    decreases i,
{
    if 0 < i <= t.len() && is_blank(t[i - 1]) {
        back_over_blanks(t, i - 1)
    } else {
        i
    }
}

/// Index of the first letter of the run of ASCII letters that ends at `i`.
pub open spec fn back_over_alpha(t: Seq<u8>, i: int) -> int
    decreases i,
{
    if 0 < i <= t.len() && is_alpha(t[i - 1]) {
        back_over_alpha(t, i - 1)
    } else {
        i
    }
}

/// Index just past the run of ASCII letters that starts at `i`.
pub open spec fn alpha_end(t: Seq<u8>, i: int) -> int
    decreases t.len() - i,
{
    if 0 <= i < t.len() && is_alpha(t[i]) {
        alpha_end(t, i + 1)
    } else {
        i
    }
}

pub fn skip_alpha(t: &[u8], at: usize) -> (r: usize)
    requires
        at <= t@.len(),
    ensures
        r == alpha_end(t@, at as int),
        at <= r <= t@.len(),
{
    let mut i = at;
    while i < t.len() && byte_is_alpha(t[i])
        invariant
            at <= i <= t@.len(),
            alpha_end(t@, i as int) == alpha_end(t@, at as int),
        decreases t@.len() - i,
    {
        i += 1;
    }
    i
}

pub fn back_blanks(t: &[u8], at: usize) -> (r: usize)
    requires
        at <= t@.len(),
    ensures
        r == back_over_blanks(t@, at as int),
        r <= at,
{
    let mut i = at;
    while i > 0 && (t[i - 1] == 32 || t[i - 1] == 9)
        invariant
            i <= at,
            at <= t@.len(),
            back_over_blanks(t@, i as int) == back_over_blanks(t@, at as int),
        decreases i,
    {
        i -= 1;
    }
    i
}

pub fn back_alpha(t: &[u8], at: usize) -> (r: usize)
    requires
        at <= t@.len(),
    ensures
        r == back_over_alpha(t@, at as int),
        r <= at,
{
    let mut i = at;
    while i > 0 && byte_is_alpha(t[i - 1])
        invariant
            i <= at,
            at <= t@.len(),
            back_over_alpha(t@, i as int) == back_over_alpha(t@, at as int),
        decreases i,
    {
        i -= 1;
    }
    i
}

// ── lines and comments ─────────────────────────────────────────────────

/// Index just past the next line feed at or after `i` (or the end of text).
pub open spec fn eol_after(t: Seq<u8>, i: int) -> int
    decreases t.len() - i,
{
    if i < 0 {
        eol_after(t, 0)
    } else if i >= t.len() {
        t.len() as int
    } else if t[i] == 10 {
        i + 1
    } else {
        eol_after(t, i + 1)
    }
}

pub proof fn lemma_eol_after_bounds(t: Seq<u8>, i: int)
    requires
        0 <= i,
    ensures
        i <= t.len() ==> i <= eol_after(t, i),
        eol_after(t, i) <= t.len(),
        i < t.len() ==> i < eol_after(t, i),
    decreases t.len() - i,
{
    if i < t.len() && t[i] != 10 {
        lemma_eol_after_bounds(t, i + 1);
    }
}

pub fn skip_to_eol(text: &[u8], from: usize) -> (r: usize)
    ensures
        r == eol_after(text@, from as int),
        from <= text@.len() ==> from <= r,
        r <= text@.len(),
{
    proof {
        lemma_eol_after_bounds(text@, from as int);
    }
    let mut i = from;
    while i < text.len() && text[i] != 10
        invariant
            from <= i,
            eol_after(text@, i as int) == eol_after(text@, from as int),
        decreases text@.len() - i,
    {
        i += 1;
    }
    if i < text.len() {
        i + 1
    } else {
        text.len()
    }
}

/// Number of backslashes immediately before `i`.
pub open spec fn backslashes_before(t: Seq<u8>, i: int) -> nat
    decreases i,
{
    if 0 < i <= t.len() && t[i - 1] == 92 {
        1 + backslashes_before(t, i - 1)
    } else {
        0
    }
}

/// `t[i]` is preceded by an odd number of backslashes.
pub open spec fn escaped(t: Seq<u8>, i: int) -> bool {
    backslashes_before(t, i) % 2 == 1
}

pub fn is_escaped(text: &[u8], i: usize) -> (r: bool)
    requires
        i <= text@.len(),
    ensures
        r == escaped(text@, i as int),
{
    let mut bs: usize = 0;
    let mut k = i;
    while k > 0 && text[k - 1] == 92
        invariant
            k <= i,
            i <= text@.len(),
            bs + k == i,
            backslashes_before(text@, i as int) == bs + backslashes_before(text@, k as int),
        decreases k,
    {
        k -= 1;
        bs += 1;
    }
    bs % 2 == 1
}

// ── balanced groups ────────────────────────────────────────────────────

/// Index after a backslash at `i` and the byte it hides (at most the end).
pub open spec fn skip_escape(t: Seq<u8>, i: int) -> int {
    if i + 2 < t.len() {
        i + 2
    } else {
        t.len() as int
    }
}

/// Scan for the `}` that closes a group, from `i` at nesting `depth`
/// (`depth >= 1`).  A backslash hides the byte after it.  Returns the index
/// just past the closing brace.
pub open spec fn brace_close(t: Seq<u8>, i: int, depth: int) -> Option<int>
    decreases t.len() - i,
{
    if i < 0 || i >= t.len() {
        None
    } else if t[i] == 92 {
        brace_close(t, skip_escape(t, i), depth)
    } else if t[i] == 123 {
        brace_close(t, i + 1, depth + 1)
    } else if t[i] == 125 {
        if depth <= 1 {
            Some(i + 1)
        } else {
            brace_close(t, i + 1, depth - 1)
        }
    } else {
        brace_close(t, i + 1, depth)
    }
}

pub proof fn lemma_brace_close_bounds(t: Seq<u8>, i: int, depth: int)
    ensures
        brace_close(t, i, depth) matches Some(e) ==> i < e <= t.len() && t[e - 1] == 125,
    decreases t.len() - i,
{
    if 0 <= i < t.len() {
        if t[i] == 92 {
            lemma_brace_close_bounds(t, skip_escape(t, i), depth);
        } else if t[i] == 123 {
            lemma_brace_close_bounds(t, i + 1, depth + 1);
        } else if t[i] == 125 {
            if depth > 1 {
                lemma_brace_close_bounds(t, i + 1, depth - 1);
            }
        } else {
            lemma_brace_close_bounds(t, i + 1, depth);
        }
    }
}

/// The balanced `{…}` group opening at `at`: `(inner_start, inner_end, end)`
/// where `end` is just past the closing brace.
pub open spec fn braced(t: Seq<u8>, at: int) -> Option<(int, int, int)> {
    if 0 <= at < t.len() && t[at] == 123 {
        match brace_close(t, at + 1, 1) {
            Some(e) => Some((at + 1, e - 1, e)),
            None => None,
        }
    } else {
        None
    }
}

pub proof fn lemma_braced_bounds(t: Seq<u8>, at: int)
    ensures
        braced(t, at) matches Some((a, b, e)) ==> 0 <= at && a == at + 1 && a <= b && b + 1
            == e && e <= t.len() && t[b] == 125,
{
    if 0 <= at < t.len() && t[at] == 123 {
        lemma_brace_close_bounds(t, at + 1, 1);
    }
}

/// Read a balanced `{…}` group starting at `at` (which must hold `{`).
pub fn read_braced(text: &[u8], at: usize) -> (r: Option<(usize, usize, usize)>)
    ensures
        r matches Some((a, b, e)) ==> braced(text@, at as int) == Some((a as int, b as int, e as int)),
        r is None ==> braced(text@, at as int) is None,
        r matches Some((a, b, e)) ==> a == at + 1 && a <= b && b + 1 == e && e <= text@.len(),
{
    proof {
        lemma_braced_bounds(text@, at as int);
    }
    if at >= text.len() || text[at] != 123 {
        return None;
    }
    let mut depth: usize = 1;
    let mut i: usize = at + 1;
    while i < text.len()
        invariant
            at < text@.len(),
            text@[at as int] == 123,
            at + 1 <= i,
            depth >= 1,
            depth <= i,
            brace_close(text@, i as int, depth as int) == brace_close(text@, at + 1, 1),
        decreases text@.len() - i,
    {
        let b = text[i];
        if b == 92 {
            i = if text.len() - i > 2 { i + 2 } else { text.len() };
        } else if b == 123 {
            depth += 1;
            i += 1;
        } else if b == 125 {
            if depth == 1 {
                return Some((at + 1, i, i + 1));
            }
            depth -= 1;
            i += 1;
        } else {
            i += 1;
        }
    }
    None
}


// ── cutting UTF-8 at ASCII bytes ───────────────────────────────────────

/// A position where valid UTF-8 may be cut: an end, an ASCII byte, or just
/// after an ASCII byte.
pub open spec fn ascii_cut(b: Seq<u8>, i: int) -> bool {
    ||| i == 0
    ||| i == b.len()
    ||| (0 <= i < b.len() && b[i] < 128)
    ||| (0 < i <= b.len() && b[i - 1] < 128)
}

proof fn lemma_boundary_after_ascii(b: Seq<u8>, i: int)
    requires
        valid_utf8(b),
        0 <= i < b.len(),
        b[i] < 128,
        is_char_boundary(b, i),
    ensures
        is_char_boundary(b, i + 1),
    decreases b.len(),
{
    let l = length_of_first_scalar(b);
    if i == 0 {
        assert(l == 1);
        assert(is_char_boundary(pop_first_scalar(b), 0));
    } else {
        let p = pop_first_scalar(b);
        assert(is_char_boundary(p, i - l));
        if i - l >= 0 && i - l < p.len() {
            assert(p[i - l] == b[i]);
            lemma_boundary_after_ascii(p, i - l);
        }
    }
}

pub proof fn lemma_ascii_boundary(b: Seq<u8>, i: int)
    requires
        valid_utf8(b),
        0 <= i <= b.len(),
        ascii_cut(b, i),
    ensures
        is_char_boundary(b, i),
{
    if i == 0 {
    } else if i == b.len() {
        is_char_boundary_start_end_of_seq(b);
    } else if b[i] < 128 {
        is_char_boundary_iff_not_is_continuation_byte(b, i);
    } else {
        is_char_boundary_iff_not_is_continuation_byte(b, i - 1);
        lemma_boundary_after_ascii(b, i - 1);
    }
}

/// Cutting valid UTF-8 at two ASCII cut points leaves valid UTF-8.
pub proof fn lemma_ascii_cut_valid(b: Seq<u8>, i: int, j: int)
    requires
        valid_utf8(b),
        0 <= i <= j <= b.len(),
        ascii_cut(b, i),
        ascii_cut(b, j),
    ensures
        valid_utf8(b.subrange(i, j)),
{
    lemma_ascii_boundary(b, j);
    valid_utf8_split(b, j);
    let p = b.subrange(0, j);
    assert(ascii_cut(p, i)) by {
        if 0 <= i < j && b[i] < 128 {
            assert(p[i] == b[i]);
        }
        if 0 < i <= j && b[i - 1] < 128 {
            assert(p[i - 1] == b[i - 1]);
        }
    }
    lemma_ascii_boundary(p, i);
    valid_utf8_split(p, i);
    assert(p.subrange(i, p.len() as int) =~= b.subrange(i, j));
}



/// Whether two strings are equal.
pub fn str_eq(a: &str, b: &str) -> (r: bool)
    ensures
        r == (a@ == b@),
{
    let same = bytes_eq(a.as_bytes(), b.as_bytes());
    proof {
        encode_utf8_decode_utf8(a@);
        encode_utf8_decode_utf8(b@);
    }
    same
}

/// Whether `name` is one of `words`.
pub fn str_one_of(name: &str, words: &[&str]) -> (r: bool)
    ensures
        r == is_one_of(name.spec_bytes(), words@),
{
    one_of(name.as_bytes(), words)
}

} // verus!
