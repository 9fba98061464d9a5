//! Numbers as text and as bytes: decimal digits (what `str::parse` reads and
//! `to_string` writes for unsigned integers) and 8 big-endian bytes.
use vstd::prelude::*;

verus! {

pub open spec fn is_digit(b: u8) -> bool {
    0x30u8 <= b && b <= 0x39u8
}

pub open spec fn all_digits(s: Seq<u8>) -> bool {
    forall|i: int| 0 <= i < s.len() ==> is_digit(#[trigger] s[i])
}

/// The number that decimal digits spell.
pub open spec fn digits_value(s: Seq<u8>) -> nat
    decreases s.len(),
{
    if s.len() == 0 {
        0
    } else {
        digits_value(s.drop_last()) * 10 + (s.last() - 0x30u8) as nat
    }
}

/// What `str::parse` reads as an unsigned integer, before its range is
/// checked: an optional `+`, then one digit or more.
pub open spec fn unsigned_text(s: Seq<u8>) -> Option<nat> {
    let d = if s.len() > 0 && s[0] == 0x2Bu8 {
        s.drop_first()
    } else {
        s
    };
    if d.len() > 0 && all_digits(d) {
        Some(digits_value(d))
    } else {
        None
    }
}

/// `str::parse::<uN>` where `max` is `uN::MAX`.
pub open spec fn parse_unsigned_spec(s: Seq<u8>, max: nat) -> Option<u64> {
    match unsigned_text(s) {
        Some(v) => if v <= max {
            Some(v as u64)
        } else {
            None
        },
        None => None,
    }
}

proof fn lemma_digits_grow(s: Seq<u8>, i: int)
    requires
        0 <= i <= s.len(),
    ensures
        digits_value(s.take(i)) <= digits_value(s),
    decreases s.len() - i,
{
    if i < s.len() {
        assert(s.drop_last().take(i) =~= s.take(i)) by {
            if i < s.len() {
            }
        };
        if i <= s.len() - 1 {
            lemma_digits_grow(s.drop_last(), i);
        }
        assert(s.take(s.len() as int) =~= s);
    } else {
        assert(s.take(i) =~= s);
    }
}

/// Reads an unsigned number of at most `max` from its decimal text, as
/// `str::parse` does.
pub fn parse_unsigned(s: &[u8], max: u64) -> (r: Option<u64>)
    ensures
        r == parse_unsigned_spec(s@, max as nat),
{
    let ghost d = if s@.len() > 0 && s@[0] == 0x2Bu8 {
        s@.drop_first()
    } else {
        s@
    };
    assert(unsigned_text(s@) == (if d.len() > 0 && all_digits(d) {
        Some(digits_value(d))
    } else {
        None
    }));
    let mut i: usize = 0;
    if s.len() > 0 && s[0] == 0x2Bu8 {
        i = 1;
    }
    let start = i;
    if start >= s.len() {
        return None;
    }
    let mut acc: u64 = 0;
    while i < s.len()
        invariant
            start <= i <= s@.len(),
            start < s@.len(),
            d == s@.subrange(start as int, s@.len() as int),
            acc as nat == digits_value(d.take(i - start)),
            acc <= max,
            all_digits(d.take(i - start)),
            unsigned_text(s@) == (if d.len() > 0 && all_digits(d) {
                Some(digits_value(d))
            } else {
                None
            }),
        decreases s@.len() - i,
    {
        let b = s[i];
        let ghost k = i - start;
        assert(d.take(k + 1).drop_last() =~= d.take(k));
        assert(d.take(k + 1).last() == b);
        assert(d[k as int] == b);
        if b < 0x30u8 || b > 0x39u8 {
            assert(!is_digit(d[k as int]));
            assert(!all_digits(d));
            assert(unsigned_text(s@) is None);
            return None;
        }
        let digit = (b - 0x30u8) as u64;
        if digit > max || acc > (max - digit) / 10 {
            proof {
                if digit <= max {
                    assert(acc * 10 + digit > max) by (nonlinear_arith)
                        requires
                            acc > (max - digit) / 10,
                            digit <= max,
                    ;
                }
                assert(digits_value(d.take(k + 1)) == acc * 10 + digit);
                lemma_digits_grow(d, k + 1);
                assert(digits_value(d) > max);
                if all_digits(d) {
                    assert(unsigned_text(s@) == Some(digits_value(d)));
                } else {
                    assert(unsigned_text(s@) is None);
                }
            }
            return None;
        }
        proof {
            assert(acc * 10 + digit <= max) by (nonlinear_arith)
                requires
                    acc <= (max - digit) / 10,
            ;
        }
        acc = acc * 10 + digit;
        i = i + 1;
        assert(all_digits(d.take(i - start))) by {
            assert forall|j: int| 0 <= j < d.take(i - start).len() implies is_digit(
                #[trigger] d.take(i - start)[j],
            ) by {
                if j < k {
                    assert(d.take(i - start)[j] == d.take(k)[j]);
                }
            }
        }
    }
    assert(d.take(i - start) =~= d);
    Some(acc)
}

/// The number that bytes spell in big-endian order.
pub open spec fn be_value(s: Seq<u8>) -> nat
    decreases s.len(),
{
    if s.len() == 0 {
        0
    } else {
        be_value(s.drop_last()) * 256 + s.last() as nat
    }
}

/// The 8 big-endian bytes of a `u64` (`u64::to_be_bytes`).
pub open spec fn be_bytes(n: u64) -> Seq<u8> {
    seq![
        ((n / 0x100000000000000) % 256) as u8,
        ((n / 0x1000000000000) % 256) as u8,
        ((n / 0x10000000000) % 256) as u8,
        ((n / 0x100000000) % 256) as u8,
        ((n / 0x1000000) % 256) as u8,
        ((n / 0x10000) % 256) as u8,
        ((n / 0x100) % 256) as u8,
        (n % 256) as u8,
    ]
}

proof fn lemma_be_value_8(s: Seq<u8>)
    requires
        s.len() == 8,
    ensures
        be_value(s) == s[0] as nat * 0x100000000000000 + s[1] as nat * 0x1000000000000 + s[2] as nat
            * 0x10000000000 + s[3] as nat * 0x100000000 + s[4] as nat * 0x1000000 + s[5] as nat
            * 0x10000 + s[6] as nat * 0x100 + s[7] as nat,
{
    reveal_with_fuel(be_value, 9);
    assert(s.drop_last().drop_last().drop_last().drop_last().drop_last().drop_last().drop_last().drop_last()
        =~= Seq::<u8>::empty());
}

/// The bytes of a number read back as that number.
pub proof fn law_be_roundtrip(n: u64)
    ensures
        be_value(be_bytes(n)) == n,
{
    let s = be_bytes(n);
    lemma_be_value_8(s);
    let b0 = ((n / 0x100000000000000) % 256) as u64;
    let b1 = ((n / 0x1000000000000) % 256) as u64;
    let b2 = ((n / 0x10000000000) % 256) as u64;
    let b3 = ((n / 0x100000000) % 256) as u64;
    let b4 = ((n / 0x1000000) % 256) as u64;
    let b5 = ((n / 0x10000) % 256) as u64;
    let b6 = ((n / 0x100) % 256) as u64;
    let b7 = (n % 256) as u64;
    assert(n == b0 * 0x100000000000000 + b1 * 0x1000000000000 + b2 * 0x10000000000 + b3
        * 0x100000000 + b4 * 0x1000000 + b5 * 0x10000 + b6 * 0x100 + b7) by (bit_vector)
        requires
            b0 == ((n / 0x100000000000000) % 256) as u64,
            b1 == ((n / 0x1000000000000) % 256) as u64,
            b2 == ((n / 0x10000000000) % 256) as u64,
            b3 == ((n / 0x100000000) % 256) as u64,
            b4 == ((n / 0x1000000) % 256) as u64,
            b5 == ((n / 0x10000) % 256) as u64,
            b6 == ((n / 0x100) % 256) as u64,
            b7 == (n % 256) as u64,
    ;
}

/// Reads 8 big-endian bytes (`u64::from_be_bytes`).
pub fn from_be_bytes(s: &[u8]) -> (n: u64)
    requires
        s@.len() == 8,
    ensures
        n == be_value(s@),
{
    proof {
        lemma_be_value_8(s@);
    }
    let b0 = s[0] as u64;
    let b1 = s[1] as u64;
    let b2 = s[2] as u64;
    let b3 = s[3] as u64;
    let b4 = s[4] as u64;
    let b5 = s[5] as u64;
    let b6 = s[6] as u64;
    let b7 = s[7] as u64;
    let n = (b0 << 56u64) | (b1 << 48u64) | (b2 << 40u64) | (b3 << 32u64) | (b4 << 24u64) | (b5
        << 16u64) | (b6 << 8u64) | b7;
    assert(n == b0 * 0x100000000000000 + b1 * 0x1000000000000 + b2 * 0x10000000000 + b3
        * 0x100000000 + b4 * 0x1000000 + b5 * 0x10000 + b6 * 0x100 + b7) by (bit_vector)
        requires
            b0 < 256 && b1 < 256 && b2 < 256 && b3 < 256 && b4 < 256 && b5 < 256 && b6 < 256
                && b7 < 256,
            n == (b0 << 56u64) | (b1 << 48u64) | (b2 << 40u64) | (b3 << 32u64) | (b4 << 24u64)
                | (b5 << 16u64) | (b6 << 8u64) | b7,
    ;
    n
}

/// The 8 big-endian bytes of a number (`u64::to_be_bytes`).
pub fn to_be_bytes(n: u64) -> (v: Vec<u8>)
    ensures
        v@ == be_bytes(n),
{
    let mut v: Vec<u8> = Vec::new();
    let b0 = ((n >> 56u64) & 0xFFu64) as u8;
    let b1 = ((n >> 48u64) & 0xFFu64) as u8;
    let b2 = ((n >> 40u64) & 0xFFu64) as u8;
    let b3 = ((n >> 32u64) & 0xFFu64) as u8;
    let b4 = ((n >> 24u64) & 0xFFu64) as u8;
    let b5 = ((n >> 16u64) & 0xFFu64) as u8;
    let b6 = ((n >> 8u64) & 0xFFu64) as u8;
    let b7 = (n & 0xFFu64) as u8;
    assert(b0 == ((n / 0x100000000000000) % 256) as u8 && b1 == ((n / 0x1000000000000) % 256) as u8
        && b2 == ((n / 0x10000000000) % 256) as u8 && b3 == ((n / 0x100000000) % 256) as u8 && b4
        == ((n / 0x1000000) % 256) as u8 && b5 == ((n / 0x10000) % 256) as u8 && b6 == ((n
        / 0x100) % 256) as u8 && b7 == (n % 256) as u8) by (bit_vector)
        requires
            b0 == ((n >> 56u64) & 0xFFu64) as u8,
            b1 == ((n >> 48u64) & 0xFFu64) as u8,
            b2 == ((n >> 40u64) & 0xFFu64) as u8,
            b3 == ((n >> 32u64) & 0xFFu64) as u8,
            b4 == ((n >> 24u64) & 0xFFu64) as u8,
            b5 == ((n >> 16u64) & 0xFFu64) as u8,
            b6 == ((n >> 8u64) & 0xFFu64) as u8,
            b7 == (n & 0xFFu64) as u8,
    ;
    v.push(b0);
    v.push(b1);
    v.push(b2);
    v.push(b3);
    v.push(b4);
    v.push(b5);
    v.push(b6);
    v.push(b7);
    assert(v@ =~= be_bytes(n));
    v
}

/// The character of a decimal digit.
pub open spec fn digit_char(d: nat) -> char {
    if d == 0 { '0' } else if d == 1 { '1' } else if d == 2 { '2' } else if d == 3 { '3' }
    else if d == 4 { '4' } else if d == 5 { '5' } else if d == 6 { '6' } else if d == 7 { '7' }
    else if d == 8 { '8' } else { '9' }
}

/// The decimal text of a number (what `to_string` writes).
pub open spec fn decimal_text(n: nat) -> Seq<char>
    decreases n,
{
    if n < 10 {
        seq![digit_char(n)]
    } else {
        decimal_text(n / 10).push(digit_char(n % 10))
    }
}

fn digit(d: u64) -> (c: char)
    requires
        d < 10,
    ensures
        c == digit_char(d as nat),
{
    if d == 0 { '0' } else if d == 1 { '1' } else if d == 2 { '2' } else if d == 3 { '3' }
    else if d == 4 { '4' } else if d == 5 { '5' } else if d == 6 { '6' } else if d == 7 { '7' }
    else if d == 8 { '8' } else { '9' }
}

/// The decimal digits of a number.
pub fn decimal_chars(n: u64) -> (v: Vec<char>)
    ensures
        v@ == decimal_text(n as nat),
    decreases n,
{
    if n < 10 {
        let mut v: Vec<char> = Vec::new();
        v.push(digit(n));
        assert(v@ =~= seq![digit_char(n as nat)]);
        v
    } else {
        let mut v = decimal_chars(n / 10);
        v.push(digit(n % 10));
        v
    }
}

} // verus!
