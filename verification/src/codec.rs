//! Big-endian encoding of 64-bit short ids as eight-byte strings.

use vstd::prelude::*;

verus! {

/// The eight-byte big-endian encoding of `x`.
pub open spec fn u64_to_be(x: u64) -> Seq<u8> {
    seq![
        ((x >> 56) & 0xff) as u8,
        ((x >> 48) & 0xff) as u8,
        ((x >> 40) & 0xff) as u8,
        ((x >> 32) & 0xff) as u8,
        ((x >> 24) & 0xff) as u8,
        ((x >> 16) & 0xff) as u8,
        ((x >> 8) & 0xff) as u8,
        (x & 0xff) as u8,
    ]
}

/// The value of an eight-byte string read as a big-endian integer.
pub open spec fn u64_from_be(s: Seq<u8>) -> u64
    recommends
        s.len() == 8,
{
    ((s[0] as u64) << 56 | (s[1] as u64) << 48 | (s[2] as u64) << 40 | (s[3] as u64) << 32
        | (s[4] as u64) << 24 | (s[5] as u64) << 16 | (s[6] as u64) << 8 | (s[7] as u64))
}

pub proof fn lemma_u64_be_round_trip(x: u64)
    ensures
        u64_to_be(x).len() == 8,
        u64_from_be(u64_to_be(x)) == x,
{
    assert(((((x >> 56) & 0xff) as u8) as u64) << 56 | ((((x >> 48) & 0xff) as u8) as u64) << 48
        | ((((x >> 40) & 0xff) as u8) as u64) << 40 | ((((x >> 32) & 0xff) as u8) as u64) << 32 | (
    (((x >> 24) & 0xff) as u8) as u64) << 24 | ((((x >> 16) & 0xff) as u8) as u64) << 16 | ((((x
        >> 8) & 0xff) as u8) as u64) << 8 | (((x & 0xff) as u8) as u64) == x) by (bit_vector);
}

pub proof fn lemma_u64_be_bytes_round_trip(s: Seq<u8>)
    requires
        s.len() == 8,
    ensures
        u64_to_be(u64_from_be(s)) == s,
{
    let x = u64_from_be(s);
    let b0 = s[0] as u64;
    let b1 = s[1] as u64;
    let b2 = s[2] as u64;
    let b3 = s[3] as u64;
    let b4 = s[4] as u64;
    let b5 = s[5] as u64;
    let b6 = s[6] as u64;
    let b7 = s[7] as u64;
    assert((b0 < 256 && b1 < 256 && b2 < 256 && b3 < 256 && b4 < 256 && b5 < 256 && b6 < 256 && b7
        < 256 && x == b0 << 56 | b1 << 48 | b2 << 40 | b3 << 32 | b4 << 24 | b5 << 16 | b6 << 8
        | b7) ==> ((x >> 56) & 0xff == b0 && (x >> 48) & 0xff == b1 && (x >> 40) & 0xff == b2 && (x
        >> 32) & 0xff == b3 && (x >> 24) & 0xff == b4 && (x >> 16) & 0xff == b5 && (x >> 8) & 0xff
        == b6 && x & 0xff == b7)) by (bit_vector);
    assert(u64_to_be(u64_from_be(s)) =~= s);
}

/// Encode `x` as eight big-endian bytes.
pub fn encode_u64(x: u64) -> (r: Vec<u8>)
    ensures
        r@ == u64_to_be(x),
        r@.len() == 8,
{
    let mut r: Vec<u8> = Vec::new();
    r.push(((x >> 56) & 0xff) as u8);
    r.push(((x >> 48) & 0xff) as u8);
    r.push(((x >> 40) & 0xff) as u8);
    r.push(((x >> 32) & 0xff) as u8);
    r.push(((x >> 24) & 0xff) as u8);
    r.push(((x >> 16) & 0xff) as u8);
    r.push(((x >> 8) & 0xff) as u8);
    r.push((x & 0xff) as u8);
    proof {
        assert(r@ =~= u64_to_be(x));
    }
    r
}

/// Decode eight big-endian bytes into the integer they spell.
pub fn decode_u64(s: &[u8]) -> (r: u64)
    requires
        s@.len() == 8,
    ensures
        r == u64_from_be(s@),
{
    (s[0] as u64) << 56 | (s[1] as u64) << 48 | (s[2] as u64) << 40 | (s[3] as u64) << 32 | (
    s[4] as u64) << 24 | (s[5] as u64) << 16 | (s[6] as u64) << 8 | (s[7] as u64)
}

} // verus!
