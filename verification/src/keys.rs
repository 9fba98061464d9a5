//! The order of keys: lexicographic by character code, which is the byte order
//! of their UTF-8 text (the order of `String`).
use vstd::prelude::*;

verus! {

/// The first index from `i` on where the two sequences differ or one ends.
pub open spec fn first_diff(a: Seq<char>, b: Seq<char>, i: int) -> int
    decreases a.len() - i,
{
    if 0 <= i < a.len() && i < b.len() && a[i] == b[i] {
        first_diff(a, b, i + 1)
    } else {
        i
    }
}

/// `a` comes strictly before `b`.
pub open spec fn key_lt(a: Seq<char>, b: Seq<char>) -> bool {
    let d = first_diff(a, b, 0);
    if d < a.len() && d < b.len() {
        (a[d] as u32) < (b[d] as u32)
    } else {
        a.len() < b.len()
    }
}

/// `p` is a prefix of `k`.
pub open spec fn has_prefix(k: Seq<char>, p: Seq<char>) -> bool {
    p.len() <= k.len() && k.take(p.len() as int) == p
}

pub proof fn lemma_first_diff(a: Seq<char>, b: Seq<char>, i: int)
    requires
        0 <= i <= a.len(),
        i <= b.len(),
        forall|j: int| 0 <= j < i ==> a[j] == b[j],
    ensures
        i <= first_diff(a, b, i) <= a.len(),
        first_diff(a, b, i) <= b.len(),
        forall|j: int| 0 <= j < first_diff(a, b, i) ==> a[j] == b[j],
        first_diff(a, b, i) < a.len() && first_diff(a, b, i) < b.len() ==> a[first_diff(
            a,
            b,
            i,
        )] != b[first_diff(a, b, i)],
    decreases a.len() - i,
{
    if i < a.len() && i < b.len() && a[i] == b[i] {
        lemma_first_diff(a, b, i + 1);
    }
}

/// The first difference is where the sequences agree up to and differ at.
pub proof fn lemma_first_diff_is(a: Seq<char>, b: Seq<char>, d: int)
    requires
        0 <= d <= a.len(),
        d <= b.len(),
        forall|j: int| 0 <= j < d ==> a[j] == b[j],
        d == a.len() || d == b.len() || a[d] != b[d],
    ensures
        first_diff(a, b, 0) == d,
{
    lemma_first_diff_from(a, b, 0, d);
}

proof fn lemma_first_diff_from(a: Seq<char>, b: Seq<char>, i: int, d: int)
    requires
        0 <= i <= d <= a.len(),
        d <= b.len(),
        forall|j: int| 0 <= j < d ==> a[j] == b[j],
        d == a.len() || d == b.len() || a[d] != b[d],
    ensures
        first_diff(a, b, i) == d,
    decreases d - i,
{
    if i < d {
        lemma_first_diff_from(a, b, i + 1, d);
    }
}

proof fn lemma_char_eq(a: char, b: char)
    requires
        a as u32 == b as u32,
    ensures
        a == b,
{
    broadcast use vstd::utf8::char_u32_cast;

}

/// The order is a strict total order.
pub proof fn lemma_key_lt_irreflexive(a: Seq<char>)
    ensures
        !key_lt(a, a),
{
    lemma_first_diff_is(a, a, a.len() as int);
}

pub proof fn lemma_key_lt_total(a: Seq<char>, b: Seq<char>)
    ensures
        key_lt(a, b) || a == b || key_lt(b, a),
{
    lemma_first_diff(a, b, 0);
    let d = first_diff(a, b, 0);
    lemma_first_diff_is(b, a, d);
    if d < a.len() && d < b.len() {
        if a[d] as u32 == b[d] as u32 {
            lemma_char_eq(a[d], b[d]);
        }
    } else if a.len() == b.len() {
        assert(a =~= b);
    }
}

pub proof fn lemma_key_lt_asymmetric(a: Seq<char>, b: Seq<char>)
    ensures
        key_lt(a, b) ==> !key_lt(b, a),
{
    lemma_first_diff(a, b, 0);
    let d = first_diff(a, b, 0);
    lemma_first_diff_is(b, a, d);
}

pub proof fn lemma_key_lt_transitive(a: Seq<char>, b: Seq<char>, c: Seq<char>)
    requires
        key_lt(a, b),
        key_lt(b, c),
    ensures
        key_lt(a, c),
{
    lemma_first_diff(a, b, 0);
    lemma_first_diff(b, c, 0);
    let d1 = first_diff(a, b, 0);
    let d2 = first_diff(b, c, 0);
    if d1 < d2 {
        lemma_first_diff_is(a, c, d1);
    } else if d2 < d1 {
        lemma_first_diff_is(a, c, d2);
    } else {
        if d1 < a.len() && d1 < c.len() {
            lemma_first_diff_is(a, c, d1);
        } else {
            let m = if a.len() < c.len() { a.len() as int } else { c.len() as int };
            lemma_first_diff_is(a, c, m);
        }
    }
}

/// How two keys compare.
#[derive(PartialEq, Eq, Structural, Debug, Clone, Copy)]
pub enum KeyOrder {
    Less,
    Equal,
    Greater,
}

pub fn compare(a: &[char], b: &[char]) -> (o: KeyOrder)
    ensures
        o == KeyOrder::Less <==> key_lt(a@, b@),
        o == KeyOrder::Equal <==> a@ == b@,
        o == KeyOrder::Greater <==> key_lt(b@, a@),
{
    let mut i: usize = 0;
    while i < a.len() && i < b.len() && a[i] == b[i]
        invariant
            i <= a@.len(),
            i <= b@.len(),
            forall|j: int| 0 <= j < i ==> a@[j] == b@[j],
        decreases a@.len() - i,
    {
        i = i + 1;
    }
    proof {
        lemma_first_diff_is(a@, b@, i as int);
        lemma_first_diff_is(b@, a@, i as int);
        lemma_key_lt_asymmetric(a@, b@);
        lemma_key_lt_irreflexive(a@);
        lemma_key_lt_total(a@, b@);
    }
    if i < a.len() && i < b.len() {
        if (a[i] as u32) < (b[i] as u32) {
            KeyOrder::Less
        } else {
            KeyOrder::Greater
        }
    } else if a.len() < b.len() {
        KeyOrder::Less
    } else if a.len() == b.len() {
        proof {
            assert(a@ =~= b@);
        }
        KeyOrder::Equal
    } else {
        KeyOrder::Greater
    }
}

/// Whether `p` is a prefix of `k`.
pub fn starts_with(k: &[char], p: &[char]) -> (b: bool)
    ensures
        b == has_prefix(k@, p@),
{
    if p.len() > k.len() {
        return false;
    }
    let mut i: usize = 0;
    while i < p.len()
        invariant
            p@.len() <= k@.len(),
            i <= p@.len(),
            forall|j: int| 0 <= j < i ==> k@[j] == p@[j],
        decreases p@.len() - i,
    {
        if k[i] != p[i] {
            assert(k@.take(p@.len() as int)[i as int] != p@[i as int]);
            return false;
        }
        i = i + 1;
    }
    assert(k@.take(p@.len() as int) =~= p@);
    true
}

} // verus!
