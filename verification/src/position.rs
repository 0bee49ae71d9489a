//! LSP positions: 0-based lines and columns counted in UTF-16 code units,
//! converted to and from byte offsets of the UTF-8 text.
use vstd::prelude::*;
use vstd::utf8::{encode_utf8, encode_scalar, char_is_scalar, is_scalar, has_width_1_encoding, has_width_2_encoding, has_width_3_encoding, has_width_4_encoding};
use vstd::string::StringSliceAdditionalSpecFns;
use crate::chars::chars_of;

verus! {

/// A position in a document: line and UTF-16 column, both from 0.
#[derive(Clone, Copy, Debug, PartialEq, Eq, Structural)]
pub struct Position {
    pub line: u32,
    pub character: u32,
}

/// UTF-16 code units of `c`.
pub open spec fn utf16_width(c: char) -> nat {
    if (c as u32) >= 0x10000 {
        2
    } else {
        1
    }
}

/// Line and column just after the characters `s[..k]`.
pub open spec fn pos_after(s: Seq<char>, k: int) -> (nat, nat)
    decreases k,
{
    if k <= 0 {
        (0, 0)
    } else {
        let (l, c) = pos_after(s, k - 1);
        if s[k - 1] == '\n' {
            (l + 1, 0)
        } else {
            (l, c + utf16_width(s[k - 1]))
        }
    }
}

/// Byte offset of character `k`.
pub open spec fn byte_at(s: Seq<char>, k: int) -> int {
    encode_utf8(s.take(k)).len() as int
}

/// The number of characters that start before byte `offset`.
pub open spec fn chars_before(s: Seq<char>, offset: int, k: int) -> int
    decreases s.len() - k,
{
    if k < 0 || k >= s.len() || byte_at(s, k) >= offset {
        if k < 0 { 0 } else { k }
    } else {
        chars_before(s, offset, k + 1)
    }
}

/// The position of byte `offset` (clamped to the text).
pub open spec fn position_of(s: Seq<char>, offset: int) -> (nat, nat) {
    pos_after(s, chars_before(s, offset, 0))
}

/// The byte offset of the first character at `(line, col)`, from character
/// `k` on; the end of the text when there is none.
pub open spec fn offset_of(s: Seq<char>, line: nat, col: nat, k: int) -> int
    decreases s.len() - k,
{
    if k < 0 || k >= s.len() {
        encode_utf8(s).len() as int
    } else if pos_after(s, k) == (line, col) {
        byte_at(s, k)
    } else {
        offset_of(s, line, col, k + 1)
    }
}

proof fn lemma_encode_append(a: Seq<char>, b: Seq<char>)
    ensures
        encode_utf8(a + b) == encode_utf8(a) + encode_utf8(b),
    decreases a.len(),
{
    if a.len() == 0 {
        assert(a + b =~= b);
        assert(encode_utf8(a) =~= Seq::<u8>::empty());
        assert(encode_utf8(a) + encode_utf8(b) =~= encode_utf8(b));
    } else {
        assert((a + b).drop_first() =~= a.drop_first() + b);
        assert((a + b)[0] == a[0]);
        lemma_encode_append(a.drop_first(), b);
        assert(encode_utf8(a + b) =~= encode_utf8(a) + encode_utf8(b));
    }
}

/// UTF-8 bytes of `c`.
pub open spec fn utf8_width(c: char) -> nat {
    let u = c as u32;
    if u < 0x80 {
        1
    } else if u < 0x800 {
        2
    } else if u < 0x10000 {
        3
    } else {
        4
    }
}

proof fn lemma_byte_step(s: Seq<char>, k: int)
    requires
        0 <= k < s.len(),
    ensures
        byte_at(s, k + 1) == byte_at(s, k) + utf8_width(s[k]),
{
    let c = s[k];
    assert(s.take(k + 1) =~= s.take(k) + seq![c]);
    lemma_encode_append(s.take(k), seq![c]);
    assert(seq![c].drop_first() =~= Seq::<char>::empty());
    assert(encode_utf8(seq![c]) =~= encode_scalar(c as u32) + encode_utf8(Seq::<char>::empty()));
    char_is_scalar(c);
}

proof fn lemma_byte_at_all(s: Seq<char>)
    ensures
        byte_at(s, s.len() as int) == encode_utf8(s).len(),
{
    assert(s.take(s.len() as int) =~= s);
}

fn width8(c: char) -> (r: usize)
    ensures
        r == utf8_width(c),
{
    let u = c as u32;
    if u < 0x80 {
        1
    } else if u < 0x800 {
        2
    } else if u < 0x10000 {
        3
    } else {
        4
    }
}

fn width16(c: char) -> (r: u32)
    ensures
        r == utf16_width(c),
{
    if (c as u32) >= 0x10000 {
        2
    } else {
        1
    }
}

/// Both parts of a line and column fit in 32 bits.
pub open spec fn pos_fits(p: (nat, nat)) -> bool {
    p.0 <= u32::MAX && p.1 <= u32::MAX
}

/// Every line and column reached while converting byte `offset` (the
/// positions after each character that starts before it) fits in 32 bits.
pub open spec fn fits_up_to_offset(s: Seq<char>, offset: int) -> bool {
    forall|j: int| #![trigger pos_after(s, j)] 0 <= j <= s.len() && (forall|i: int| 0 <= i < j ==> byte_at(s, i) < offset) ==> pos_fits(pos_after(s, j))
}

/// Every line and column reached while looking for position `(line, col)`
/// (the positions up to the first one equal to it) fits in 32 bits.
pub open spec fn fits_up_to_position(s: Seq<char>, line: nat, col: nat) -> bool {
    forall|j: int| #![trigger pos_after(s, j)] 0 <= j <= s.len() && (forall|i: int| 0 <= i < j ==> pos_after(s, i) != (line, col)) ==> pos_fits(pos_after(s, j))
}

/// Every line and column of `s` fits in 32 bits.
pub open spec fn positions_fit(s: Seq<char>) -> bool {
    forall|j: int| 0 <= j <= s.len() ==> pos_fits(#[trigger] pos_after(s, j))
}

/// Whether every line and column of `text` fits in 32 bits.
pub fn all_positions_fit(text: &str) -> (r: bool)
    ensures
        r == positions_fit(text@),
{
    let v = chars_of(text);
    let total = text.as_bytes().len();
    let mut line: usize = 0;
    let mut ch: usize = 0;
    let mut b: usize = 0;
    let mut k: usize = 0;
    proof {
        lemma_byte_at_all(text@);
        assert(text@.take(0) =~= Seq::<char>::empty());
    }
    while k < v.len()
        invariant
            v@ == text@,
            k <= v@.len(),
            b == byte_at(v@, k as int),
            total == encode_utf8(v@).len(),
            byte_at(v@, v@.len() as int) == encode_utf8(v@).len(),
            (line as nat, ch as nat) == pos_after(v@, k as int),
            line + ch <= b,
            forall|j: int| 0 <= j < k ==> pos_fits(#[trigger] pos_after(v@, j)),
        decreases v@.len() - k,
    {
        if line > 4294967295 || ch > 4294967295 {
            assert(!pos_fits(pos_after(v@, k as int)));
            return false;
        }
        let c = v[k];
        proof {
            lemma_byte_step(v@, k as int);
            lemma_byte_mono(v@, k + 1, v@.len() as int);
        }
        if c == '\n' {
            line += 1;
            ch = 0;
        } else {
            ch += width16(c) as usize;
        }
        b += width8(c);
        k += 1;
    }
    if line > 4294967295 || ch > 4294967295 {
        assert(!pos_fits(pos_after(v@, k as int)));
        return false;
    }
    true
}

/// The LSP position of byte `offset` of `text`.
pub fn offset_to_position(text: &str, offset: usize) -> (r: Position)
    requires
        fits_up_to_offset(text@, offset as int),
    ensures
        (r.line as nat, r.character as nat) == position_of(text@, offset as int),
{
    let v = chars_of(text);
    let total = text.as_bytes().len();
    let mut line: u32 = 0;
    let mut ch: u32 = 0;
    let mut b: usize = 0;
    let mut k: usize = 0;
    proof {
        lemma_byte_at_all(text@);
        assert(text@.take(0) =~= Seq::<char>::empty());
    }
    while k < v.len()
        invariant
            v@ == text@,
            k <= v@.len(),
            b == byte_at(v@, k as int),
            total == encode_utf8(v@).len(),
            byte_at(v@, v@.len() as int) == encode_utf8(v@).len(),
            (line as nat, ch as nat) == pos_after(v@, k as int),
            fits_up_to_offset(v@, offset as int),
            forall|i: int| 0 <= i < k ==> byte_at(v@, i) < offset,
            chars_before(v@, offset as int, k as int) == chars_before(v@, offset as int, 0),
        ensures
            (line as nat, ch as nat) == pos_after(v@, chars_before(v@, offset as int, 0)),
        decreases v@.len() - k,
    {
        if b >= offset {
            break;
        }
        let c = v[k];
        proof {
            lemma_byte_step(v@, k as int);
            lemma_byte_mono(v@, k + 1, v@.len() as int);
            assert forall|i: int| 0 <= i < k + 1 implies byte_at(v@, i) < offset by {}
            assert(pos_fits(pos_after(v@, k + 1)));
        }
        if c == '\n' {
            line += 1;
            ch = 0;
        } else {
            ch += width16(c);
        }
        b += width8(c);
        k += 1;
    }
    Position { line, character: ch }
}

proof fn lemma_byte_mono(s: Seq<char>, j: int, k: int)
    requires
        0 <= j <= k <= s.len(),
    ensures
        byte_at(s, j) <= byte_at(s, k),
    decreases k - j,
{
    if j < k {
        lemma_byte_mono(s, j, k - 1);
        lemma_byte_step(s, k - 1);
    }
}

/// The byte offset of LSP position `pos` in `text`: the first character at
/// that line and column, or the end of the text.
pub fn position_to_offset(text: &str, pos: Position) -> (r: usize)
    requires
        fits_up_to_position(text@, pos.line as nat, pos.character as nat),
    ensures
        r == offset_of(text@, pos.line as nat, pos.character as nat, 0),
{
    let v = chars_of(text);
    let total = text.as_bytes().len();
    let mut line: u32 = 0;
    let mut ch: u32 = 0;
    let mut b: usize = 0;
    let mut k: usize = 0;
    proof {
        lemma_byte_at_all(text@);
        assert(text@.take(0) =~= Seq::<char>::empty());
    }
    while k < v.len()
        invariant
            v@ == text@,
            k <= v@.len(),
            b == byte_at(v@, k as int),
            total == encode_utf8(v@).len(),
            byte_at(v@, v@.len() as int) == encode_utf8(v@).len(),
            (line as nat, ch as nat) == pos_after(v@, k as int),
            fits_up_to_position(v@, pos.line as nat, pos.character as nat),
            forall|i: int| 0 <= i < k ==> pos_after(v@, i) != (pos.line as nat, pos.character as nat),
            offset_of(v@, pos.line as nat, pos.character as nat, k as int) == offset_of(v@, pos.line as nat, pos.character as nat, 0),
        decreases v@.len() - k,
    {
        if line == pos.line && ch == pos.character {
            return b;
        }
        let c = v[k];
        proof {
            lemma_byte_step(v@, k as int);
            lemma_byte_mono(v@, k + 1, v@.len() as int);
            assert forall|i: int| 0 <= i < k + 1 implies pos_after(v@, i) != (pos.line as nat, pos.character as nat) by {}
            assert(pos_fits(pos_after(v@, k + 1)));
        }
        if c == '\n' {
            line += 1;
            ch = 0;
        } else {
            ch += width16(c);
        }
        b += width8(c);
        k += 1;
    }
    text.as_bytes().len()
}

/// The LSP range of the bytes `range[0]..range[1]` of `text`.
pub fn byte_range_to_lsp_range(text: &str, range: [usize; 2]) -> (r: (Position, Position))
    requires
        fits_up_to_offset(text@, range[0] as int),
        fits_up_to_offset(text@, range[1] as int),
    ensures
        (r.0.line as nat, r.0.character as nat) == position_of(text@, range[0] as int),
        (r.1.line as nat, r.1.character as nat) == position_of(text@, range[1] as int),
{
    (offset_to_position(text, range[0]), offset_to_position(text, range[1]))
}

/// `(l1, c1)` comes strictly before `(l2, c2)`.
pub open spec fn pos_lt(a: (nat, nat), b: (nat, nat)) -> bool {
    a.0 < b.0 || (a.0 == b.0 && a.1 < b.1)
}

proof fn lemma_byte_strict(s: Seq<char>, j: int, k: int)
    requires
        0 <= j < k <= s.len(),
    ensures
        byte_at(s, j) < byte_at(s, k),
    decreases k - j,
{
    lemma_byte_step(s, k - 1);
    if j < k - 1 {
        lemma_byte_strict(s, j, k - 1);
    }
}

proof fn lemma_pos_strict(s: Seq<char>, j: int, k: int)
    requires
        0 <= j < k <= s.len(),
    ensures
        pos_lt(pos_after(s, j), pos_after(s, k)),
    decreases k - j,
{
    if j < k - 1 {
        lemma_pos_strict(s, j, k - 1);
    }
}

proof fn lemma_chars_before_at(s: Seq<char>, k: int, i: int)
    requires
        0 <= i <= k <= s.len(),
    ensures
        chars_before(s, byte_at(s, k), i) == k,
    decreases k - i,
{
    if i < k {
        lemma_byte_strict(s, i, k);
        lemma_chars_before_at(s, k, i + 1);
    }
}

proof fn lemma_offset_of_at(s: Seq<char>, k: int, i: int)
    requires
        0 <= i <= k <= s.len(),
    ensures
        offset_of(s, pos_after(s, k).0, pos_after(s, k).1, i) == byte_at(s, k),
    decreases k - i,
{
    lemma_byte_at_all(s);
    if i < k {
        lemma_pos_strict(s, i, k);
        lemma_offset_of_at(s, k, i + 1);
    }
}

/// Positions and byte offsets convert into each other without loss: the
/// position of the byte where character `k` starts is the line and column
/// after the characters before it, and that position converts back to the
/// same byte offset.
pub proof fn law_position_round_trip(s: Seq<char>, k: int)
    requires
        0 <= k <= s.len(),
    ensures
        position_of(s, byte_at(s, k)) == pos_after(s, k),
        offset_of(s, pos_after(s, k).0, pos_after(s, k).1, 0) == byte_at(s, k),
{
    lemma_chars_before_at(s, k, 0);
    lemma_offset_of_at(s, k, 0);
}

} // verus!
