//! Text helpers shared by the parsers and the stores.
use vstd::prelude::*;
use vstd::utf8::{decode_utf8, is_ascii_chars, valid_utf8};

verus! {

/// The characters of a string slice, in order.
pub fn chars_of(s: &str) -> (v: Vec<char>)
    ensures
        v@ == s@,
{
    let mut v: Vec<char> = Vec::new();
    for c in it: s.chars()
        invariant
            v@ == it.seq().take(it.index()),
    {
        v.push(c);
    }
    v
}

/// Collects characters into a `String` (std's `FromIterator<&char>`).
#[verifier::external_body]
pub(crate) fn string_of(v: &[char]) -> (s: String)
    ensures
        s@ == v@,
{
    v.iter().collect()
}

/// What `String::from_utf8_lossy` makes of a byte sequence.
pub uninterp spec fn utf8_lossy(bytes: Seq<u8>) -> Seq<char>;

/// std's `String::from_utf8_lossy`: the text of the bytes, each invalid
/// sequence replaced by U+FFFD; on valid UTF-8, exactly the decoded text.
#[verifier::external_body]
pub(crate) fn lossy_string(bytes: &[u8]) -> (s: String)
    ensures
        s@ == utf8_lossy(bytes@),
        valid_utf8(bytes@) ==> s@ == decode_utf8(bytes@),
{
    String::from_utf8_lossy(bytes).into_owned()
}

/// std's `str::from_utf8`: the text of the bytes when they are valid UTF-8.
#[verifier::external_body]
pub(crate) fn utf8_str(bytes: &[u8]) -> (s: Option<&str>)
    ensures
        s is Some <==> valid_utf8(bytes@),
        s matches Some(t) ==> t@ == decode_utf8(bytes@),
{
    std::str::from_utf8(bytes).ok()
}

/// What `str::to_lowercase` makes of a text.
pub uninterp spec fn lowercase(s: Seq<char>) -> Seq<char>;

/// The lowercase of one ASCII character.
pub open spec fn ascii_lower(c: char) -> char {
    if 'A' <= c && c <= 'Z' {
        ((c as u32) + 32) as char
    } else {
        c
    }
}

/// std's `str::to_lowercase` (Unicode lowercase mapping); on ASCII text it
/// maps `A`..`Z` to `a`..`z` and keeps every other character.
#[verifier::external_body]
pub(crate) fn to_lowercase(s: &str) -> (l: String)
    ensures
        l@ == lowercase(s@),
        is_ascii_chars(s@) ==> l@ == s@.map_values(|c: char| ascii_lower(c)),
{
    s.to_lowercase()
}

/// Unicode `White_Space`, the property that `char::is_whitespace` tests.
pub open spec fn is_white_space(c: char) -> bool {
    let u = c as u32;
    ||| 0x09 <= u && u <= 0x0D
    ||| u == 0x20
    ||| u == 0x85
    ||| u == 0xA0
    ||| u == 0x1680
    ||| 0x2000 <= u && u <= 0x200A
    ||| u == 0x2028
    ||| u == 0x2029
    ||| u == 0x202F
    ||| u == 0x205F
    ||| u == 0x3000
}

pub fn white_space(c: char) -> (b: bool)
    ensures
        b == is_white_space(c),
{
    let u = c as u32;
    (0x09 <= u && u <= 0x0D) || u == 0x20 || u == 0x85 || u == 0xA0 || u == 0x1680 || (0x2000
        <= u && u <= 0x200A) || u == 0x2028 || u == 0x2029 || u == 0x202F || u == 0x205F || u
        == 0x3000
}

/// The text without its trailing white space (`str::trim_end`).
pub open spec fn trim_end_spec(s: Seq<char>) -> Seq<char>
    decreases s.len(),
{
    if s.len() > 0 && is_white_space(s.last()) {
        trim_end_spec(s.drop_last())
    } else {
        s
    }
}

/// The text without its leading white space (`str::trim_start`).
pub open spec fn trim_start_spec(s: Seq<char>) -> Seq<char>
    decreases s.len(),
{
    if s.len() > 0 && is_white_space(s[0]) {
        trim_start_spec(s.drop_first())
    } else {
        s
    }
}

/// The text without white space at either end (`str::trim`).
pub open spec fn trim_spec(s: Seq<char>) -> Seq<char> {
    trim_end_spec(trim_start_spec(s))
}

fn trimmed_end(v: &[char]) -> (e: usize)
    ensures
        e <= v@.len(),
        v@.take(e as int) == trim_end_spec(v@),
{
    let mut e = v.len();
    assert(v@.take(e as int) =~= v@);
    while e > 0 && white_space(v[e - 1])
        invariant
            e <= v@.len(),
            trim_end_spec(v@.take(e as int)) == trim_end_spec(v@),
        decreases e,
    {
        assert(v@.take(e as int).drop_last() =~= v@.take(e - 1));
        e = e - 1;
    }
    assert(v@.take(v@.len() as int) =~= v@);
    e
}

fn trimmed_start(v: &[char]) -> (b: usize)
    ensures
        b <= v@.len(),
        v@.skip(b as int) == trim_start_spec(v@),
{
    let mut b: usize = 0;
    assert(v@.skip(0) =~= v@);
    while b < v.len() && white_space(v[b])
        invariant
            b <= v@.len(),
            trim_start_spec(v@.skip(b as int)) == trim_start_spec(v@),
        decreases v@.len() - b,
    {
        assert(v@.skip(b as int).drop_first() =~= v@.skip(b + 1));
        b = b + 1;
    }
    assert(v@.skip(0) =~= v@);
    b
}

/// `str::trim_end`, on the characters of a text.
pub fn trim_end(s: &str) -> (t: String)
    ensures
        t@ == trim_end_spec(s@),
{
    let v = chars_of(s);
    let e = trimmed_end(v.as_slice());
    string_of(&v.as_slice()[0..e])
}

/// `str::trim`, on the characters of a text.
pub fn trim(s: &str) -> (t: String)
    ensures
        t@ == trim_spec(s@),
{
    let v = chars_of(s);
    let b = trimmed_start(v.as_slice());
    let rest = string_of(&v.as_slice()[b..v.len()]);
    trim_end(rest.as_str())
}

/// The part after the last `.`, or the whole key when it holds none
/// (`key.split('.').last()`).
pub open spec fn last_segment(k: Seq<char>) -> Seq<char>
    decreases k.len(),
{
    if k.len() == 0 {
        k
    } else if k.last() == '.' {
        Seq::empty()
    } else {
        last_segment(k.drop_last()).push(k.last())
    }
}

/// `seg` is what follows the last `.` of `k`, or all of `k` when it holds
/// none: `k` ends with `seg`, `seg` holds no `.`, and before it in `k`
/// stands a `.` or nothing.
pub open spec fn is_last_segment(k: Seq<char>, seg: Seq<char>) -> bool {
    &&& seg.len() <= k.len()
    &&& k.subrange(k.len() - seg.len(), k.len() as int) == seg
    &&& forall|j: int| 0 <= j < seg.len() ==> #[trigger] seg[j] != '.'
    &&& (seg.len() == k.len() || k[k.len() - seg.len() - 1] == '.')
}

/// Every key has exactly one last segment, and `last_segment` is it.
pub proof fn law_last_segment(k: Seq<char>)
    ensures
        is_last_segment(k, last_segment(k)),
        forall|seg: Seq<char>| #[trigger] is_last_segment(k, seg) ==> seg == last_segment(k),
    decreases k.len(),
{
    if k.len() == 0 {
        assert(k.subrange(0, 0) =~= Seq::<char>::empty());
        assert forall|seg: Seq<char>| #[trigger] is_last_segment(k, seg) implies seg == last_segment(k) by {
            assert(seg =~= Seq::<char>::empty());
        }
    } else {
        let k0 = k.drop_last();
        law_last_segment(k0);
        let n = k.len() as int;
        if k.last() == '.' {
            assert(k.subrange(n, n) =~= Seq::<char>::empty());
            assert forall|seg: Seq<char>| #[trigger] is_last_segment(k, seg) implies seg == last_segment(k) by {
                if seg.len() > 0 {
                    assert(seg[seg.len() - 1] == k.subrange(n - seg.len(), n)[seg.len() - 1]);
                    assert(seg[seg.len() - 1] == k[n - 1]);
                }
                assert(seg =~= Seq::<char>::empty());
            }
        } else {
            let s0 = last_segment(k0);
            let s = s0.push(k.last());
            assert(k.subrange(n - s.len(), n) =~= k0.subrange(k0.len() - s0.len(), k0.len() as int).push(k.last()));
            assert forall|j: int| 0 <= j < s.len() implies #[trigger] s[j] != '.' by {
                if j < s0.len() {
                    assert(s[j] == s0[j]);
                }
            }
            if s.len() < k.len() {
                assert(k[n - s.len() - 1] == k0[k0.len() - s0.len() - 1]);
            }
            assert(is_last_segment(k, s));
            assert forall|seg: Seq<char>| #[trigger] is_last_segment(k, seg) implies seg == last_segment(k) by {
                if seg.len() == 0 {
                    assert(k[n - 1] == '.');
                }
                let t = seg.drop_last();
                assert(seg[seg.len() - 1] == k.subrange(n - seg.len(), n)[seg.len() - 1]);
                assert(k0.subrange(k0.len() - t.len(), k0.len() as int) =~= t) by {
                    assert forall|j: int| 0 <= j < t.len() implies k0.subrange(k0.len() - t.len(), k0.len() as int)[j] == t[j] by {
                        assert(t[j] == seg[j]);
                        assert(seg[j] == k.subrange(n - seg.len(), n)[j]);
                    }
                }
                assert forall|j: int| 0 <= j < t.len() implies #[trigger] t[j] != '.' by {
                    assert(t[j] == seg[j]);
                }
                if t.len() < k0.len() {
                    assert(k0[k0.len() - t.len() - 1] == k[n - seg.len() - 1]);
                }
                assert(is_last_segment(k0, t));
                assert(t == s0);
                assert(seg =~= s);
            }
        }
    }
}

pub fn last_segment_of(k: &[char]) -> (seg: Vec<char>)
    ensures
        seg@ == last_segment(k@),
{
    let mut b = k.len();
    assert(k@.take(b as int) =~= k@);
    assert(k@.skip(b as int) =~= Seq::<char>::empty());
    assert(k@ + Seq::<char>::empty() =~= k@);
    while b > 0 && k[b - 1] != '.'
        invariant
            b <= k@.len(),
            forall|j: int| b <= j < k@.len() ==> k@[j] != '.',
            last_segment(k@) == last_segment(k@.take(b as int)) + k@.skip(b as int),
        decreases b,
    {
        assert(k@.take(b as int).drop_last() =~= k@.take(b - 1));
        assert(k@.skip(b - 1) =~= seq![k@[b - 1]] + k@.skip(b as int));
        assert(last_segment(k@.take(b as int)) == last_segment(k@.take(b - 1)).push(k@[b - 1]));
        assert(last_segment(k@.take(b - 1)).push(k@[b - 1]) + k@.skip(b as int)
            =~= last_segment(k@.take(b - 1)) + k@.skip(b - 1));
        b = b - 1;
    }
    let mut seg: Vec<char> = Vec::new();
    let mut i = b;
    while i < k.len()
        invariant
            b <= i <= k@.len(),
            seg@ == k@.subrange(b as int, i as int),
        decreases k@.len() - i,
    {
        seg.push(k[i]);
        i = i + 1;
    }
    assert(last_segment(k@.take(b as int)) =~= Seq::<char>::empty());
    assert(seg@ =~= k@.skip(b as int));
    seg
}

} // verus!
