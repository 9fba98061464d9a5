//! A read position over a byte slice, and the tokens that the parsers take
//! from it.
use vstd::prelude::*;

verus! {

/// A position in a borrowed byte slice (the part of `std::io::Cursor` that
/// the parsers use).
pub struct Cursor<'a> {
    inner: &'a [u8],
    pos: u64,
}

impl<'a> Cursor<'a> {
    pub closed spec fn bytes(&self) -> Seq<u8> {
        self.inner@
    }

    pub closed spec fn pos(&self) -> int {
        self.pos as int
    }

    pub fn new(inner: &'a [u8]) -> (c: Cursor<'a>)
        ensures
            c.bytes() == inner@,
            c.pos() == 0,
    {
        Cursor { inner, pos: 0 }
    }

    pub fn position(&self) -> (p: u64)
        ensures
            p == self.pos(),
    {
        self.pos
    }

    pub fn set_position(&mut self, pos: u64)
        ensures
            final(self).bytes() == old(self).bytes(),
            final(self).pos() == pos,
    {
        self.pos = pos;
    }

    pub fn get_ref(&self) -> (r: &'a [u8])
        ensures
            r@ == self.bytes(),
    {
        self.inner
    }
}

/// The first index from `p` on that does not hold a separator (or the end).
pub open spec fn skip_seps(s: Seq<u8>, p: int, sep: spec_fn(u8) -> bool) -> int
    decreases s.len() - p,
{
    if 0 <= p < s.len() && sep(s[p]) {
        skip_seps(s, p + 1, sep)
    } else {
        p
    }
}

/// The first index from `p` on that holds a separator (or the end).
pub open spec fn find_sep(s: Seq<u8>, p: int, sep: spec_fn(u8) -> bool) -> int
    decreases s.len() - p,
{
    if 0 <= p < s.len() && !sep(s[p]) {
        find_sep(s, p + 1, sep)
    } else {
        p
    }
}

/// Where the next token starts and ends, from position `p`: none when only
/// separators are left.
pub open spec fn token_at(s: Seq<u8>, p: int, sep: spec_fn(u8) -> bool) -> Option<(int, int)> {
    if p >= s.len() {
        None
    } else {
        let q = skip_seps(s, p, sep);
        if q >= s.len() {
            None
        } else {
            Some((q, find_sep(s, q, sep)))
        }
    }
}

/// The next token from position `p` and the position after it; an empty token
/// and the same position when none is left.
pub open spec fn word_at(s: Seq<u8>, p: int, sep: spec_fn(u8) -> bool) -> (Seq<u8>, int) {
    match token_at(s, p, sep) {
        Some((q, e)) => (s.subrange(q, e), e),
        None => (Seq::empty(), p),
    }
}

/// All that follows position `p` once the separators there are skipped.
pub open spec fn rest_at(s: Seq<u8>, p: int, sep: spec_fn(u8) -> bool) -> Seq<u8> {
    match token_at(s, p, sep) {
        Some((q, e)) => s.subrange(q, s.len() as int),
        None => Seq::empty(),
    }
}

pub proof fn lemma_skip_seps(s: Seq<u8>, p: int, sep: spec_fn(u8) -> bool)
    requires
        0 <= p,
    ensures
        p <= skip_seps(s, p, sep),
        skip_seps(s, p, sep) <= s.len() || skip_seps(s, p, sep) == p,
        forall|j: int| p <= j < skip_seps(s, p, sep) ==> sep(#[trigger] s[j]),
        skip_seps(s, p, sep) < s.len() ==> !sep(s[skip_seps(s, p, sep)]),
    decreases s.len() - p,
{
    if 0 <= p < s.len() && sep(s[p]) {
        lemma_skip_seps(s, p + 1, sep);
    }
}

pub proof fn lemma_find_sep(s: Seq<u8>, p: int, sep: spec_fn(u8) -> bool)
    requires
        0 <= p,
    ensures
        p <= find_sep(s, p, sep),
        find_sep(s, p, sep) <= s.len() || find_sep(s, p, sep) == p,
        forall|j: int| p <= j < find_sep(s, p, sep) ==> !sep(#[trigger] s[j]),
        find_sep(s, p, sep) < s.len() ==> sep(s[find_sep(s, p, sep)]),
    decreases s.len() - p,
{
    if 0 <= p < s.len() && !sep(s[p]) {
        lemma_find_sep(s, p + 1, sep);
    }
}

/// A token ends within the bytes.
pub proof fn lemma_token_end(s: Seq<u8>, p: int, sep: spec_fn(u8) -> bool)
    requires
        0 <= p,
    ensures
        match token_at(s, p, sep) {
            Some((q, e)) => p <= q < e <= s.len(),
            None => true,
        },
{
    if p < s.len() {
        lemma_skip_seps(s, p, sep);
        let q = skip_seps(s, p, sep);
        if q < s.len() {
            lemma_find_sep(s, q, sep);
        }
    }
}

/// The exact value of `skip_seps`: the first non-separator index.
pub proof fn lemma_skip_seps_is(s: Seq<u8>, p: int, q: int, sep: spec_fn(u8) -> bool)
    requires
        0 <= p <= q <= s.len(),
        forall|j: int| p <= j < q ==> sep(#[trigger] s[j]),
        q == s.len() || !sep(s[q]),
    ensures
        skip_seps(s, p, sep) == q,
    decreases q - p,
{
    if p < q {
        lemma_skip_seps_is(s, p + 1, q, sep);
    }
}

/// The exact value of `find_sep`: the first separator index.
pub proof fn lemma_find_sep_is(s: Seq<u8>, p: int, q: int, sep: spec_fn(u8) -> bool)
    requires
        0 <= p <= q <= s.len(),
        forall|j: int| p <= j < q ==> !sep(#[trigger] s[j]),
        q == s.len() || sep(s[q]),
    ensures
        find_sep(s, p, sep) == q,
    decreases q - p,
{
    if p < q {
        lemma_find_sep_is(s, p + 1, q, sep);
    }
}

} // verus!
