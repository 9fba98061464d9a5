//! Size-prefixed frames: two big-endian bytes that hold the length of the whole
//! frame (the two size bytes included), then the payload.
use vstd::prelude::*;

verus! {

/// The byte `x / 256 % 256`: the high byte of the low 16 bits of `x`.
pub open spec fn high_byte(x: int) -> u8 {
    ((x / 256) % 256) as u8
}

/// The byte `x % 256`: the low byte of `x`.
pub open spec fn low_byte(x: int) -> u8 {
    (x % 256) as u8
}

/// The number that two bytes hold in big-endian order.
pub open spec fn be16(hi: u8, lo: u8) -> int {
    hi as int * 256 + lo as int
}

/// The frame that `insert_size` builds: the size, modulo 2^16, then the payload.
pub open spec fn sized_frame(payload: Seq<u8>) -> Seq<u8> {
    let len = payload.len() + 2int;
    seq![high_byte(len), low_byte(len)] + payload
}

pub proof fn lemma_be16_of_bytes(x: int)
    requires
        0 <= x,
    ensures
        be16(high_byte(x), low_byte(x)) == x % 65536,
{
    assert(be16(high_byte(x), low_byte(x)) == x % 65536) by (nonlinear_arith)
        requires
            0 <= x,
    {
        let q = x / 256;
        assert(x == q * 256 + x % 256);
        assert(q == (q / 256) * 256 + q % 256);
        assert(x == (q / 256) * 65536 + (q % 256) * 256 + x % 256);
        assert(0 <= (q % 256) * 256 + x % 256 < 65536);
    }
}

/// Inserts at the beginning 2 bytes holding the size of the frame.
pub fn insert_size(bytes: Vec<u8>) -> (framed: Vec<u8>)
    requires
        bytes@.len() + 2 <= u64::MAX,
    ensures
        framed@ == sized_frame(bytes@),
{
    let len: u64 = (bytes.len() as u64) + 2;
    let byte0: u8 = ((len & 0xFF00u64) >> 8u64) as u8;
    let byte1: u8 = (len & 0x00FFu64) as u8;
    assert(byte0 == high_byte(len as int) && byte1 == low_byte(len as int)) by (bit_vector)
        requires
            byte0 == ((len & 0xFF00u64) >> 8u64) as u8,
            byte1 == (len & 0x00FFu64) as u8,
    ;
    let mut framed: Vec<u8> = Vec::new();
    framed.push(byte0);
    framed.push(byte1);
    let mut rest = bytes;
    framed.append(&mut rest);
    assert(framed@ =~= sized_frame(bytes@));
    framed
}

/// Returns the first two bytes as a big-endian number: the size of the frame.
pub fn get_size(bytes: &[u8]) -> (size: u32)
    requires
        bytes@.len() >= 2,
    ensures
        size == be16(bytes@[0], bytes@[1]),
{
    let hi = bytes[0] as u32;
    let lo = bytes[1] as u32;
    assert((hi << 8u32) | lo == hi * 256 + lo) by (bit_vector)
        requires
            hi < 256,
            lo < 256,
    ;
    (hi << 8u32) | lo
}

/// What `get_size` reads back from `insert_size` is the frame's length, as long
/// as that length fits the two size bytes.
pub proof fn law_size_roundtrip(payload: Seq<u8>)
    requires
        payload.len() + 2 < 65536,
    ensures
        be16(sized_frame(payload)[0], sized_frame(payload)[1]) == payload.len() + 2,
        sized_frame(payload).subrange(2, sized_frame(payload).len() as int) == payload,
{
    lemma_be16_of_bytes(payload.len() + 2int);
    assert(sized_frame(payload).subrange(2, sized_frame(payload).len() as int) =~= payload);
}

} // verus!
