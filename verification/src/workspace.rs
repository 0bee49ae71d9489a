//! Workspace rules: which files and directories are indexed, where a
//! project's root is, and `file://` URIs as paths.
use vstd::prelude::*;
use vstd::string::{StringSliceAdditionalSpecFns, StringExecFns};
use vstd::utf8::{valid_utf8, decode_utf8, encode_utf8, encode_scalar, has_width_1_encoding};
use crate::text::{lower_seq, lower_bytes, has_at, starts_with_word, is_one_of, one_of, str_one_of};
use crate::chars::{chars_of, string_of};

verus! {

pub open spec fn spec_skip_dirs() -> Seq<&'static str> {
    seq![
        "node_modules", ".git", ".texghost", "out", "dist", "target", "__pycache__", ".vscode",
        ".idea",
    ]
}

/// Directories that are never worth scanning.
pub fn skip_dirs() -> (r: Vec<&'static str>)
    ensures
        r@ == spec_skip_dirs(),
{
    vec![
        "node_modules", ".git", ".texghost", "out", "dist", "target", "__pycache__", ".vscode",
        ".idea",
    ]
}

/// How deep the workspace walk goes below its root.
pub const MAX_DEPTH: usize = 20;

/// Whether the walk goes into a directory named `name`: not a noise
/// directory, not a dot-directory.
pub open spec fn descends(name: Seq<char>) -> bool {
    !is_one_of(encode_utf8(name), spec_skip_dirs()) && !(name.len() > 1 && name[0] == '.')
}

pub fn should_descend(name: &str) -> (r: bool)
    ensures
        r == descends(name@),
{
    if str_one_of(name, skip_dirs().as_slice()) {
        return false;
    }
    let v = chars_of(name);
    !(v.len() > 1 && v[0] == '.')
}

/// Whether the walk at `depth` below the root still reads directories.
pub fn depth_allowed(depth: usize) -> (r: bool)
    ensures
        r == (depth <= MAX_DEPTH),
{
    depth <= MAX_DEPTH
}

/// Kinds of files the index reads.
#[derive(Clone, Copy, Debug, PartialEq, Eq, Structural)]
pub enum FileKind {
    Bib,
    Tex,
    Other,
}

pub open spec fn ends_with(b: Seq<u8>, suffix: Seq<u8>) -> bool {
    suffix.len() <= b.len() && b.subrange(b.len() - suffix.len(), b.len() as int) == suffix
}

/// The kind of a file by the (ASCII case-insensitive) ending of its name.
pub open spec fn kind_of(name: Seq<char>) -> FileKind {
    let l = lower_seq(encode_utf8(name));
    if ends_with(l, ".bib".spec_bytes()) {
        FileKind::Bib
    } else if ends_with(l, ".tex".spec_bytes()) {
        FileKind::Tex
    } else {
        FileKind::Other
    }
}

fn bytes_end_with(b: &[u8], suffix: &[u8]) -> (r: bool)
    ensures
        r == ends_with(b@, suffix@),
{
    if suffix.len() > b.len() {
        return false;
    }
    let at = b.len() - suffix.len();
    starts_with_word(b, at, suffix)
}

pub fn file_kind(name: &str) -> (r: FileKind)
    ensures
        r == kind_of(name@),
{
    let l = lower_bytes(name.as_bytes());
    if bytes_end_with(l.as_slice(), ".bib".as_bytes()) {
        FileKind::Bib
    } else if bytes_end_with(l.as_slice(), ".tex".as_bytes()) {
        FileKind::Tex
    } else {
        FileKind::Other
    }
}

/// Whether the workspace walk collects a file named `name` (`.tex` or
/// `.bib`, exactly).
pub open spec fn collected(name: Seq<char>) -> bool {
    ends_with(encode_utf8(name), ".tex".spec_bytes()) || ends_with(encode_utf8(name), ".bib".spec_bytes())
}

pub fn is_collected_file(name: &str) -> (r: bool)
    ensures
        r == collected(name@),
{
    bytes_end_with(name.as_bytes(), ".tex".as_bytes()) || bytes_end_with(name.as_bytes(), ".bib".as_bytes())
}

/// Whether any of the directory names `ancestors` (a path's ancestors, its
/// own name excluded, up to the first without a name) is a noise directory.
pub fn has_skipped_ancestor(ancestors: &[&str]) -> (r: bool)
    ensures
        r == exists|k: int| 0 <= k < ancestors@.len() && is_one_of(#[trigger] ancestors@[k].spec_bytes(), spec_skip_dirs()),
{
    let dirs = skip_dirs();
    let mut k: usize = 0;
    while k < ancestors.len()
        invariant
            dirs@ == spec_skip_dirs(),
            k <= ancestors@.len(),
            forall|q: int| 0 <= q < k ==> !is_one_of(#[trigger] ancestors@[q].spec_bytes(), spec_skip_dirs()),
        decreases ancestors@.len() - k,
    {
        if str_one_of(ancestors[k], dirs.as_slice()) {
            return true;
        }
        k += 1;
    }
    false
}

/// The project root for a file, given for its directory and each ancestor
/// in turn (up to the filesystem root) whether it holds `.tex` files: the
/// highest directory of the unbroken run of such directories starting at
/// the file's own (the filesystem root when the run reaches it); none when
/// the file's directory holds none.
pub open spec fn root_choice(has_tex: Seq<bool>) -> Option<int> {
    if has_tex.len() == 0 || !has_tex[0] {
        None
    } else {
        root_from(has_tex, 0)
    }
}

pub open spec fn root_from(has_tex: Seq<bool>, k: int) -> Option<int>
    decreases has_tex.len() - k,
{
    if k < 0 || k >= has_tex.len() {
        None
    } else if k + 1 >= has_tex.len() || !has_tex[k + 1] {
        Some(k)
    } else {
        root_from(has_tex, k + 1)
    }
}

proof fn lemma_root_from(h: Seq<bool>, k: int)
    requires
        0 <= k < h.len(),
        forall|j: int| 0 <= j <= k ==> h[j],
    ensures
        match root_from(h, k) {
            Some(r) => k <= r < h.len() && (r + 1 == h.len() || !h[r + 1]) && forall|j: int| 0 <= j <= r ==> h[j],
            None => false,
        },
    decreases h.len() - k,
{
    if k + 1 < h.len() && h[k + 1] {
        lemma_root_from(h, k + 1);
    }
}

/// The project root is the highest directory of the unbroken run of
/// directories with `.tex` files that starts at the file's own: every
/// directory from the file's up to the root has `.tex` files, and the
/// root is the filesystem root or its parent has none.  There is no root
/// exactly when the file's directory has no `.tex` file.
pub proof fn law_project_root(has_tex: Seq<bool>)
    ensures
        match root_choice(has_tex) {
            Some(r) => 0 <= r < has_tex.len() && (r + 1 == has_tex.len() || !has_tex[r + 1])
                && forall|j: int| 0 <= j <= r ==> has_tex[j],
            None => has_tex.len() == 0 || !has_tex[0],
        },
{
    if has_tex.len() > 0 && has_tex[0] {
        lemma_root_from(has_tex, 0);
    }
}

pub fn infer_project_root(has_tex: &[bool]) -> (r: Option<usize>)
    ensures
        match r {
            Some(k) => root_choice(has_tex@) == Some(k as int),
            None => root_choice(has_tex@) is None,
        },
{
    if has_tex.len() == 0 || !has_tex[0] {
        return None;
    }
    let mut k: usize = 0;
    while k < has_tex.len() - 1
        invariant
            has_tex@.len() > 0,
            has_tex@[0],
            k < has_tex@.len(),
            root_from(has_tex@, k as int) == root_from(has_tex@, 0),
        decreases has_tex@.len() - k,
    {
        if !has_tex[k + 1] {
            return Some(k);
        }
        k += 1;
    }
    Some(k)
}

// ── URIs ───────────────────────────────────────────────────────────────

/// The value of a hexadecimal digit.
pub open spec fn hex_value(b: u8) -> Option<u8> {
    if 48 <= b <= 57 {
        Some((b - 48) as u8)
    } else if 97 <= b <= 102 {
        Some((b - 97 + 10) as u8)
    } else if 65 <= b <= 70 {
        Some((b - 65 + 10) as u8)
    } else {
        None
    }
}

pub fn hex(b: u8) -> (r: Option<u8>)
    ensures
        r == hex_value(b),
{
    if 48 <= b && b <= 57 {
        Some(b - 48)
    } else if 97 <= b && b <= 102 {
        Some(b - 97 + 10)
    } else if 65 <= b && b <= 70 {
        Some(b - 65 + 10)
    } else {
        None
    }
}

/// The bytes of `b` from `i` with each `%XY` (two hex digits, not at the
/// very end) replaced by the byte it names.
pub open spec fn percent_bytes(b: Seq<u8>, i: int) -> Seq<u8>
    decreases b.len() - i,
{
    if i < 0 || i >= b.len() {
        Seq::empty()
    } else if b[i] == 37 && i + 2 < b.len() && hex_value(b[i + 1]) is Some && hex_value(b[i + 2]) is Some {
        seq![(hex_value(b[i + 1])->0 * 16 + hex_value(b[i + 2])->0) as u8] + percent_bytes(b, i + 3)
    } else {
        seq![b[i]] + percent_bytes(b, i + 1)
    }
}

/// What `String::from_utf8_lossy` makes of `b`.
pub uninterp spec fn lossy_text(b: Seq<u8>) -> Seq<char>;

/// `String::from_utf8_lossy`: valid UTF-8 is decoded as it is; each invalid
/// sequence becomes U+FFFD.
#[verifier::external_body]
fn utf8_lossy(b: &[u8]) -> (r: String)
    ensures
        r@ == lossy_text(b@),
        valid_utf8(b@) ==> r@ == decode_utf8(b@),
{
    String::from_utf8_lossy(b).into_owned()
}

/// No byte of the UTF-8 encoding of a character other than `%` is a `%`.
proof fn lemma_scalar_no_percent(c: char)
    requires
        c != '%',
    ensures
        forall|j: int| 0 <= j < encode_scalar(c as u32).len() ==> #[trigger] encode_scalar(c as u32)[j] != 37,
{
    let v = c as u32;
    if has_width_1_encoding(v) {
        assert(v != 37u32);
        assert((v & 0x7F) as u8 != 37u8) by (bit_vector)
            requires
                v <= 0x7F,
                v != 37u32,
        ;
    } else {
        assert(forall|x: u32| (0xC0u8 | ((x >> 6) & 0x1F) as u8) != 37u8) by (bit_vector);
        assert(forall|x: u32| (0xE0u8 | ((x >> 12) & 0x0F) as u8) != 37u8) by (bit_vector);
        assert(forall|x: u32| (0xF0u8 | ((x >> 18) & 0x7) as u8) != 37u8) by (bit_vector);
        assert(forall|x: u32| (0x80u8 | (x & 0x3F) as u8) != 37u8) by (bit_vector);
        assert(forall|x: u32| (0x80u8 | ((x >> 6) & 0x3F) as u8) != 37u8) by (bit_vector);
        assert(forall|x: u32| (0x80u8 | ((x >> 12) & 0x3F) as u8) != 37u8) by (bit_vector);
    }
}

proof fn lemma_no_percent_byte(s: Seq<char>)
    requires
        forall|k: int| 0 <= k < s.len() ==> s[k] != '%',
    ensures
        forall|j: int| 0 <= j < encode_utf8(s).len() ==> encode_utf8(s)[j] != 37,
    decreases s.len(),
{
    if s.len() > 0 {
        lemma_scalar_no_percent(s[0]);
        assert forall|k: int| 0 <= k < s.drop_first().len() implies s.drop_first()[k] != '%' by {
            assert(s.drop_first()[k] == s[k + 1]);
        }
        lemma_no_percent_byte(s.drop_first());
        let a = encode_scalar(s[0] as u32);
        let b = encode_utf8(s.drop_first());
        assert forall|j: int| 0 <= j < encode_utf8(s).len() implies encode_utf8(s)[j] != 37 by {
            if j < a.len() {
                assert(encode_utf8(s)[j] == a[j]);
            } else {
                assert(encode_utf8(s)[j] == b[j - a.len()]);
            }
        }
    }
}

proof fn lemma_percent_bytes_plain(b: Seq<u8>, i: int)
    requires
        0 <= i <= b.len(),
        forall|j: int| 0 <= j < b.len() ==> b[j] != 37,
    ensures
        percent_bytes(b, i) == b.subrange(i, b.len() as int),
    decreases b.len() - i,
{
    if i < b.len() {
        lemma_percent_bytes_plain(b, i + 1);
        assert(b.subrange(i, b.len() as int) =~= seq![b[i]] + b.subrange(i + 1, b.len() as int));
    } else {
        assert(b.subrange(i, b.len() as int) =~= Seq::<u8>::empty());
    }
}

/// Percent-decode a URI path.  Text without `%` comes back unchanged.
pub fn percent_decode(s: &str) -> (r: String)
    ensures
        r@ == lossy_text(percent_bytes(s.spec_bytes(), 0)),
        valid_utf8(percent_bytes(s.spec_bytes(), 0)) ==> r@ == decode_utf8(percent_bytes(s.spec_bytes(), 0)),
        (forall|k: int| 0 <= k < s@.len() ==> s@[k] != '%') ==> r@ == s@,
{
    proof {
        if forall|k: int| 0 <= k < s@.len() ==> s@[k] != '%' {
            lemma_no_percent_byte(s@);
            lemma_percent_bytes_plain(s.spec_bytes(), 0);
            assert(s.spec_bytes().subrange(0, s.spec_bytes().len() as int) =~= s.spec_bytes());
            vstd::utf8::encode_utf8_valid_utf8(s@);
            vstd::utf8::encode_utf8_decode_utf8(s@);
        }
    }
    let bytes = s.as_bytes();
    let n = bytes.len();
    let mut out: Vec<u8> = Vec::new();
    let mut i: usize = 0;
    let ghost whole = percent_bytes(bytes@, 0);
    while i < n
        invariant
            n == bytes@.len(),
            i <= n,
            whole == percent_bytes(bytes@, 0),
            whole == out@ + percent_bytes(bytes@, i as int),
        decreases n - i,
    {
        if bytes[i] == 37 && n - i > 2 {
            match (hex(bytes[i + 1]), hex(bytes[i + 2])) {
                (Some(h), Some(l)) => {
                    let v = h * 16 + l;
                    out.push(v);
                    assert(whole =~= out@ + percent_bytes(bytes@, i + 3));
                    i += 3;
                    continue;
                },
                _ => {},
            }
        }
        out.push(bytes[i]);
        assert(whole =~= out@ + percent_bytes(bytes@, i + 1));
        i += 1;
    }
    assert(whole =~= out@);
    utf8_lossy(out.as_slice())
}

/// A decoded Windows drive path `/C:/…` loses its leading slash.
pub open spec fn drive_fixed(d: Seq<char>, windows: bool) -> Seq<char> {
    if windows && d.len() >= 4 && d[0] == '/' && d[2] == ':' && (d[3] == '/' || d[3] == '\\') {
        d.drop_first()
    } else {
        d
    }
}

/// A `file://` URI or a plain path, as a path; none for the empty string.
/// `windows` tells whether paths are Windows paths.
pub open spec fn uri_path(raw: Seq<char>, windows: bool) -> Option<Seq<char>> {
    if raw.len() == 0 {
        None
    } else if has_at(encode_utf8(raw), 0, "file://".spec_bytes()) {
        Some(drive_fixed(lossy_text(percent_bytes(encode_utf8(raw).subrange(7, encode_utf8(raw).len() as int), 0)), windows))
    } else {
        Some(raw)
    }
}

/// The path a URI names (see `uri_path`): for a `file://` URI whose
/// percent-decoded rest is valid UTF-8, that decoded text.
pub fn normalise_uri(raw: &str, windows: bool) -> (r: Option<String>)
    ensures
        match r {
            Some(p) => uri_path(raw@, windows) == Some(p@),
            None => uri_path(raw@, windows) is None,
        },
        ({
            let b = encode_utf8(raw@);
            let d = percent_bytes(b.subrange(7, b.len() as int), 0);
            raw@.len() > 0 && has_at(b, 0, "file://".spec_bytes()) && valid_utf8(d)
                ==> (r matches Some(p) && p@ == drive_fixed(decode_utf8(d), windows))
        }),
{
    if raw.unicode_len() == 0 {
        return None;
    }
    proof {
        reveal_strlit("file://");
        vstd::utf8::is_ascii_chars_encode_utf8("file://"@);
    }
    let bytes = raw.as_bytes();
    if starts_with_word(bytes, 0, "file://".as_bytes()) {
        assert("file://".spec_bytes().len() == 7);
        assert("file://"@[6] == '/');
        assert(bytes@.subrange(0, 7)[6] == bytes@[6]);
        assert(bytes@[6] == "file://".spec_bytes()[6]);
        assert(bytes@[6] == 47);
        let rest = match crate::text::utf8_str(&bytes[7..bytes.len()]) {
            Some(r) => r,
            None => {
                proof {
                    vstd::utf8::encode_utf8_valid_utf8(raw@);
                    crate::text::lemma_ascii_cut_valid(bytes@, 7, bytes@.len() as int);
                }
                return None;
            },
        };
        proof {
            assert(rest.spec_bytes() == bytes@.subrange(7, bytes@.len() as int)) by {
                vstd::utf8::encode_utf8_valid_utf8(raw@);
                crate::text::lemma_ascii_cut_valid(bytes@, 7, bytes@.len() as int);
                vstd::utf8::decode_utf8_encode_utf8(bytes@.subrange(7, bytes@.len() as int));
            }
        }
        let decoded = percent_decode(rest);
        let v = chars_of(decoded.as_str());
        if windows && v.len() >= 4 && v[0] == '/' && v[2] == ':' && (v[3] == '/' || v[3] == '\\') {
            return Some(string_of(v.as_slice(), 1, v.len()));
        }
        Some(decoded)
    } else {
        Some(raw.to_owned())
    }
}

} // verus!
