//! A small map from string keys to values, kept in ascending key order
//! (the byte order of the keys' UTF-8 encodings, which is `String`'s order).
use vstd::prelude::*;
use vstd::string::StringSliceAdditionalSpecFns;
use vstd::utf8::{encode_utf8, encode_utf8_decode_utf8};
use crate::dict::{lex_lt, compare_bytes, lemma_lex_irreflexive, lemma_lex_total, lemma_lex_trans};

verus! {

/// Key order: byte order of the UTF-8 encodings.
pub open spec fn key_lt(a: Seq<char>, b: Seq<char>) -> bool {
    lex_lt(encode_utf8(a), encode_utf8(b))
}

pub proof fn lemma_key_irreflexive(a: Seq<char>)
    ensures
        !key_lt(a, a),
{
    lemma_lex_irreflexive(encode_utf8(a));
}

pub proof fn lemma_key_trans(a: Seq<char>, b: Seq<char>, c: Seq<char>)
    requires
        key_lt(a, b),
        key_lt(b, c),
    ensures
        key_lt(a, c),
{
    lemma_lex_trans(encode_utf8(a), encode_utf8(b), encode_utf8(c));
}

/// Keys strictly ascending.
pub open spec fn ascending<T>(ps: Seq<(Seq<char>, T)>) -> bool {
    forall|i: int, j: int| 0 <= i < j < ps.len() ==> key_lt(#[trigger] ps[i].0, #[trigger] ps[j].0)
}

pub open spec fn has_key<T>(ps: Seq<(Seq<char>, T)>, k: Seq<char>) -> bool {
    exists|i: int| 0 <= i < ps.len() && #[trigger] ps[i].0 == k
}

/// The index of a pair with key `k` (meaningful when there is one).
pub open spec fn key_index<T>(ps: Seq<(Seq<char>, T)>, k: Seq<char>) -> int {
    choose|i: int| 0 <= i < ps.len() && #[trigger] ps[i].0 == k
}

pub open spec fn value_of<T>(ps: Seq<(Seq<char>, T)>, k: Seq<char>) -> T {
    ps[key_index(ps, k)].1
}

/// The map a list of pairs with distinct keys spells.
pub open spec fn pairs_map<T>(ps: Seq<(Seq<char>, T)>) -> Map<Seq<char>, T> {
    Map::new(|k: Seq<char>| has_key(ps, k), |k: Seq<char>| value_of(ps, k))
}

/// In an ascending list, pair `i` is the one found for its key.
pub proof fn lemma_value_at<T>(ps: Seq<(Seq<char>, T)>, i: int)
    requires
        ascending(ps),
        0 <= i < ps.len(),
    ensures
        has_key(ps, ps[i].0),
        value_of(ps, ps[i].0) == ps[i].1,
        pairs_map(ps).dom().contains(ps[i].0),
        pairs_map(ps)[ps[i].0] == ps[i].1,
{
    let k = ps[i].0;
    assert(ps[i].0 == k);
    let j = key_index(ps, k);
    assert(0 <= j < ps.len() && ps[j].0 == k);
    if j < i {
        assert(key_lt(ps[j].0, ps[i].0));
        lemma_key_irreflexive(k);
    } else if j > i {
        assert(key_lt(ps[i].0, ps[j].0));
        lemma_key_irreflexive(k);
    }
}

/// String keys in ascending order, each with a value.
#[derive(Clone, Debug)]
pub struct SortedMap<T> {
    entries: Vec<(String, T)>,
}

impl<T> SortedMap<T> {
    /// The pairs in order, keys as character sequences.
    pub closed spec fn pairs(&self) -> Seq<(Seq<char>, T)> {
        self.entries@.map_values(|e: (String, T)| (e.0@, e.1))
    }

    /// Keys strictly ascending.
    pub open spec fn wf(&self) -> bool {
        ascending(self.pairs())
    }

    /// The map the pairs spell.
    pub open spec fn as_map(&self) -> Map<Seq<char>, T> {
        pairs_map(self.pairs())
    }

    pub fn new() -> (r: Self)
        ensures
            r.wf(),
            r.pairs() == Seq::<(Seq<char>, T)>::empty(),
    {
        let r = SortedMap { entries: Vec::new() };
        assert(r.pairs() =~= Seq::<(Seq<char>, T)>::empty());
        r
    }

    pub fn len(&self) -> (r: usize)
        ensures
            r == self.pairs().len(),
    {
        self.entries.len()
    }

    /// The key of pair `i`.
    pub fn key_at(&self, i: usize) -> (r: &str)
        requires
            i < self.pairs().len(),
        ensures
            r@ == self.pairs()[i as int].0,
    {
        self.entries[i].0.as_str()
    }

    /// The value of pair `i`.
    pub fn value_at(&self, i: usize) -> (r: &T)
        requires
            i < self.pairs().len(),
        ensures
            *r == self.pairs()[i as int].1,
    {
        &self.entries[i].1
    }

    /// The index of the pair with key `key`.
    fn position(&self, key: &str) -> (r: Option<usize>)
        requires
            self.wf(),
        ensures
            match r {
                Some(i) => i < self.pairs().len() && self.pairs()[i as int].0 == key@,
                None => !has_key(self.pairs(), key@),
            },
    {
        let mut i: usize = 0;
        while i < self.entries.len()
            invariant
                i <= self.entries@.len(),
                self.pairs().len() == self.entries@.len(),
                forall|j: int| 0 <= j < i ==> self.pairs()[j].0 != key@,
            decreases self.entries@.len() - i,
        {
            let c = compare_bytes(self.entries[i].0.as_str().as_bytes(), key.as_bytes());
            assert(self.pairs()[i as int].0 == self.entries@[i as int].0@);
            if c == 0 {
                proof {
                    encode_utf8_decode_utf8(self.entries@[i as int].0@);
                    encode_utf8_decode_utf8(key@);
                }
                return Some(i);
            }
            i += 1;
        }
        None
    }

    /// The value stored under `key`.
    pub fn get(&self, key: &str) -> (r: Option<&T>)
        requires
            self.wf(),
        ensures
            match r {
                Some(v) => self.as_map().dom().contains(key@) && *v == self.as_map()[key@],
                None => !self.as_map().dom().contains(key@),
            },
    {
        match self.position(key) {
            Some(i) => {
                proof {
                    lemma_value_at(self.pairs(), i as int);
                }
                Some(&self.entries[i].1)
            },
            None => None,
        }
    }

    /// Store `value` under `key`, replacing what was there.
    pub fn insert(&mut self, key: String, value: T)
        requires
            old(self).wf(),
        ensures
            final(self).wf(),
            final(self).as_map() == old(self).as_map().insert(key@, value),
    {
        let ghost ps = self.pairs();
        let ghost k = key@;
        let mut p: usize = 0;
        let mut found = false;
        while p < self.entries.len()
            invariant_except_break
                !found,
            invariant
                ps == self.pairs(),
                ps == old(self).pairs(),
                ascending(ps),
                k == key@,
                p <= ps.len(),
                ps.len() == self.entries@.len(),
                forall|j: int| 0 <= j < p ==> key_lt(#[trigger] ps[j].0, k),
            ensures
                ps == self.pairs(),
                p <= ps.len(),
                forall|j: int| 0 <= j < p ==> key_lt(#[trigger] ps[j].0, k),
                found ==> p < ps.len() && ps[p as int].0 == k,
                !found ==> p == ps.len() || key_lt(k, ps[p as int].0),
            decreases ps.len() - p,
        {
            assert(ps[p as int].0 == self.entries@[p as int].0@);
            let c = compare_bytes(self.entries[p].0.as_str().as_bytes(), key.as_str().as_bytes());
            if c == 0 {
                proof {
                    encode_utf8_decode_utf8(ps[p as int].0);
                    encode_utf8_decode_utf8(k);
                }
                found = true;
                break;
            } else if c > 0 {
                proof {
                    lemma_lex_total(encode_utf8(ps[p as int].0), encode_utf8(k));
                }
                break;
            }
            p += 1;
        }
        let ghost after = if found { ps.update(p as int, (k, value)) } else { ps.insert(p as int, (k, value)) };
        if found {
            self.entries.set(p, (key, value));
        } else {
            self.entries.insert(p, (key, value));
        }
        proof {
            assert(self.pairs() =~= after);
            if !found {
                // keys from `p` on come after `k`
                assert forall|j: int| p <= j < ps.len() implies key_lt(k, #[trigger] ps[j].0) by {
                    if j > p {
                        assert(key_lt(ps[p as int].0, ps[j].0));
                        lemma_key_trans(k, ps[p as int].0, ps[j].0);
                    }
                }
            }
            assert forall|i: int, j: int| 0 <= i < j < after.len() implies key_lt(#[trigger] after[i].0, #[trigger] after[j].0) by {
                if found {
                    if i == p {
                        assert(key_lt(ps[i].0, ps[j].0));
                    } else if j == p {
                        assert(key_lt(ps[i].0, ps[j].0));
                    }
                } else {
                    if i < p && j < p {
                        assert(after[i] == ps[i]);
                        assert(after[j] == ps[j]);
                        assert(key_lt(ps[i].0, ps[j].0));
                    } else if i < p && j == p {
                    } else if i < p && j > p {
                        assert(key_lt(ps[i].0, k));
                        assert(key_lt(k, ps[j - 1].0));
                        lemma_key_trans(ps[i].0, k, ps[j - 1].0);
                    } else if i == p {
                        assert(key_lt(k, ps[j - 1].0));
                    } else {
                        assert(after[i] == ps[i - 1]);
                        assert(after[j] == ps[j - 1]);
                        assert(key_lt(ps[i - 1].0, ps[j - 1].0));
                    }
                }
            }
            assert(ascending(after));
            let m_new = pairs_map(after);
            let m_old = pairs_map(ps).insert(k, value);
            assert forall|q: Seq<char>| #[trigger] m_new.dom().contains(q) <==> m_old.dom().contains(q) by {
                if m_new.dom().contains(q) {
                    let i = choose|i: int| 0 <= i < after.len() && #[trigger] after[i].0 == q;
                    if q != k {
                        let oi = if found || i < p { i } else { i - 1 };
                        assert(ps[oi].0 == q);
                        lemma_value_at(ps, oi);
                    }
                }
                if m_old.dom().contains(q) && q != k {
                    let i = choose|i: int| 0 <= i < ps.len() && #[trigger] ps[i].0 == q;
                    let ni = if found || i < p { i } else { i + 1 };
                    assert(after[ni].0 == q);
                }
                if q == k {
                    assert(after[p as int].0 == k);
                }
            }
            assert(m_new.dom() =~= m_old.dom());
            assert forall|q: Seq<char>| #[trigger] m_new.dom().contains(q) implies m_new[q] == m_old[q] by {
                if q == k {
                    assert(after[p as int].0 == k);
                    lemma_value_at(after, p as int);
                } else {
                    let i = choose|i: int| 0 <= i < ps.len() && #[trigger] ps[i].0 == q;
                    lemma_value_at(ps, i);
                    let ni = if found || i < p { i } else { i + 1 };
                    assert(after[ni] == ps[i]);
                    lemma_value_at(after, ni);
                }
            }
            assert(m_new =~= m_old);
        }
    }
}

} // verus!
