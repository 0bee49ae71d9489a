//! File identity.  Two paths name the same file when they have the same
//! components, as `std::path` reads them on Unix: repeated separators and a
//! trailing separator are ignored, and a `.` segment counts only at the
//! start of a relative path.
use vstd::prelude::*;
use vstd::string::StringSliceAdditionalSpecFns;
use crate::math::{first_byte_from, find_byte, lemma_first_byte_from};
use crate::text::bytes_eq;

verus! {

/// The segments of `p[i..]` between `/` separators, leaving out empty
/// segments and `.`.
pub open spec fn segments_from(p: Seq<u8>, i: int) -> Seq<Seq<u8>>
    decreases p.len() - i,
{
    if i < 0 || i >= p.len() {
        Seq::empty()
    } else {
        let j = first_byte_from(p, i, 47);
        proof {
            lemma_first_byte_from(p, i, 47);
        }
        let seg = p.subrange(i, j);
        let rest = if j < p.len() {
            segments_from(p, j + 1)
        } else {
            Seq::empty()
        };
        if seg.len() == 0 || seg == seq![46u8] {
            rest
        } else {
            seq![seg] + rest
        }
    }
}

/// The components of path `p`: `/` for a leading root directory, `.` for a
/// leading current directory (`.` alone or followed by `/`), then the
/// segments.
pub open spec fn path_components(p: Seq<u8>) -> Seq<Seq<u8>> {
    path_head(p) + segments_from(p, 0)
}

/// The leading root or current-directory component of `p`, if any.
pub open spec fn path_head(p: Seq<u8>) -> Seq<Seq<u8>> {
    if p.len() > 0 && p[0] == 47 {
        seq![seq![47u8]]
    } else if p.len() > 0 && p[0] == 46 && (p.len() == 1 || p[1] == 47) {
        seq![seq![46u8]]
    } else {
        Seq::empty()
    }
}

/// `a` and `b` name the same file.
pub open spec fn same_file(a: Seq<char>, b: Seq<char>) -> bool {
    path_components(vstd::utf8::encode_utf8(a)) == path_components(vstd::utf8::encode_utf8(b))
}

pub open spec fn byte_views(v: Seq<Vec<u8>>) -> Seq<Seq<u8>> {
    v.map_values(|x: Vec<u8>| x@)
}

fn components(p: &[u8]) -> (r: Vec<Vec<u8>>)
    ensures
        byte_views(r@) == path_components(p@),
{
    let n = p.len();
    let mut out: Vec<Vec<u8>> = Vec::new();
    if n > 0 && p[0] == 47 {
        let mut root: Vec<u8> = Vec::new();
        root.push(47u8);
        out.push(root);
        assert(out@[0]@ =~= seq![47u8]);
    } else if n > 0 && p[0] == 46 && (n == 1 || p[1] == 47) {
        let mut cur: Vec<u8> = Vec::new();
        cur.push(46u8);
        out.push(cur);
        assert(out@[0]@ =~= seq![46u8]);
    }
    let ghost head = byte_views(out@);
    assert(head =~= path_head(p@));
    let mut i: usize = 0;
    while i < n
        invariant
            n == p@.len(),
            i <= n,
            head + segments_from(p@, 0) == byte_views(out@) + segments_from(p@, i as int),
        decreases n - i,
    {
        let j = find_byte(p, i, 47);
        proof {
            lemma_first_byte_from(p@, i as int, 47);
        }
        let seg = &p[i..j];
        let ghost before = byte_views(out@);
        let keep = !(seg.len() == 0 || (seg.len() == 1 && seg[0] == 46));
        proof {
            assert(seg@ == p@.subrange(i as int, j as int));
            assert(seq![46u8][0] == 46);
            if seg@.len() == 1 && seg@[0] == 46 {
                assert(seg@ =~= seq![46u8]);
            }
        }
        if keep {
            out.push(vstd::slice::slice_to_vec(seg));
            assert(byte_views(out@) =~= before + seq![seg@]);
        }
        if j < n {
            i = j + 1;
        } else {
            assert(segments_from(p@, n as int) =~= Seq::<Seq<u8>>::empty());
            i = n;
        }
    }
    assert(segments_from(p@, i as int) =~= Seq::<Seq<u8>>::empty());
    assert(byte_views(out@) =~= head + segments_from(p@, 0));
    out
}

/// Whether paths `a` and `b` name the same file.
pub fn same_path(a: &str, b: &str) -> (r: bool)
    ensures
        r == same_file(a@, b@),
{
    let ca = components(a.as_bytes());
    let cb = components(b.as_bytes());
    if ca.len() != cb.len() {
        proof {
            assert(byte_views(ca@).len() != byte_views(cb@).len());
        }
        return false;
    }
    let mut k: usize = 0;
    while k < ca.len()
        invariant
            ca@.len() == cb@.len(),
            byte_views(ca@) == path_components(a.spec_bytes()),
            byte_views(cb@) == path_components(b.spec_bytes()),
            k <= ca@.len(),
            forall|q: int| 0 <= q < k ==> ca@[q]@ == cb@[q]@,
        decreases ca@.len() - k,
    {
        if !bytes_eq(ca[k].as_slice(), cb[k].as_slice()) {
            proof {
                assert(byte_views(ca@)[k as int] == ca@[k as int]@);
                assert(byte_views(cb@)[k as int] == cb@[k as int]@);
                assert(byte_views(ca@)[k as int] != byte_views(cb@)[k as int]);
            }
            return false;
        }
        k += 1;
    }
    assert(byte_views(ca@) =~= byte_views(cb@));
    true
}

} // verus!
