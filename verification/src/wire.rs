//! Little-endian byte order for the fixed-width header fields of an entry.
//!
//! The store writes every multi-byte integer little-endian, so data files
//! are portable across hosts.

use vstd::prelude::*;

verus! {

/// The four bytes of `x`, least significant first.
pub open spec fn u32_le_bytes(x: u32) -> Seq<u8> {
    seq![
        (x & 0xff) as u8,
        ((x >> 8) & 0xff) as u8,
        ((x >> 16) & 0xff) as u8,
        ((x >> 24) & 0xff) as u8,
    ]
}

/// The eight bytes of `x`, least significant first.
pub open spec fn u64_le_bytes(x: u64) -> Seq<u8> {
    seq![
        (x & 0xff) as u8,
        ((x >> 8) & 0xff) as u8,
        ((x >> 16) & 0xff) as u8,
        ((x >> 24) & 0xff) as u8,
        ((x >> 32) & 0xff) as u8,
        ((x >> 40) & 0xff) as u8,
        ((x >> 48) & 0xff) as u8,
        ((x >> 56) & 0xff) as u8,
    ]
}

/// The `u32` whose little-endian bytes are the first four of `s`.
pub open spec fn le_bytes_to_u32(s: Seq<u8>) -> u32
    recommends
        s.len() == 4,
{
    (s[0] as u32) | ((s[1] as u32) << 8) | ((s[2] as u32) << 16) | ((s[3] as u32) << 24)
}

/// The `u64` whose little-endian bytes are the first eight of `s`.
pub open spec fn le_bytes_to_u64(s: Seq<u8>) -> u64
    recommends
        s.len() == 8,
{
    (s[0] as u64) | ((s[1] as u64) << 8) | ((s[2] as u64) << 16) | ((s[3] as u64) << 24)
        | ((s[4] as u64) << 32) | ((s[5] as u64) << 40) | ((s[6] as u64) << 48) | ((s[7]
        as u64) << 56)
}

/// Reading back the four little-endian bytes of a `u32` gives the value.
pub proof fn lemma_u32_le_round_trip(x: u32)
    ensures
        le_bytes_to_u32(u32_le_bytes(x)) == x,
{
    assert((((x & 0xff) as u8) as u32) | (((((x >> 8) & 0xff) as u8) as u32) << 8) | (((((x
        >> 16) & 0xff) as u8) as u32) << 16) | (((((x >> 24) & 0xff) as u8) as u32) << 24)
        == x) by (bit_vector);
}

/// Reading back the eight little-endian bytes of a `u64` gives the value.
pub proof fn lemma_u64_le_round_trip(x: u64)
    ensures
        le_bytes_to_u64(u64_le_bytes(x)) == x,
{
    assert((((x & 0xff) as u8) as u64) | (((((x >> 8) & 0xff) as u8) as u64) << 8) | (((((x
        >> 16) & 0xff) as u8) as u64) << 16) | (((((x >> 24) & 0xff) as u8) as u64) << 24)
        | (((((x >> 32) & 0xff) as u8) as u64) << 32) | (((((x >> 40) & 0xff) as u8) as u64)
        << 40) | (((((x >> 48) & 0xff) as u8) as u64) << 48) | (((((x >> 56) & 0xff) as u8)
        as u64) << 56) == x) by (bit_vector);
}

/// The little-endian bytes of `x`, as an executable vector.
pub fn u32_to_le_vec(x: u32) -> (r: Vec<u8>)
    ensures
        r@ == u32_le_bytes(x),
{
    proof {
        assert((x & 0xff) < 256 && ((x >> 8) & 0xff) < 256 && ((x >> 16) & 0xff) < 256 && ((x
            >> 24) & 0xff) < 256) by (bit_vector);
    }
    let mut r: Vec<u8> = Vec::new();
    r.push((x & 0xff) as u8);
    r.push(((x >> 8) & 0xff) as u8);
    r.push(((x >> 16) & 0xff) as u8);
    r.push(((x >> 24) & 0xff) as u8);
    proof {
        assert(r@ =~= u32_le_bytes(x));
    }
    r
}

/// The little-endian bytes of `x`, as an executable vector.
pub fn u64_to_le_vec(x: u64) -> (r: Vec<u8>)
    ensures
        r@ == u64_le_bytes(x),
{
    proof {
        assert((x & 0xff) < 256 && ((x >> 8) & 0xff) < 256 && ((x >> 16) & 0xff) < 256 && ((x
            >> 24) & 0xff) < 256 && ((x >> 32) & 0xff) < 256 && ((x >> 40) & 0xff) < 256 && ((x
            >> 48) & 0xff) < 256 && ((x >> 56) & 0xff) < 256) by (bit_vector);
    }
    let mut r: Vec<u8> = Vec::new();
    r.push((x & 0xff) as u8);
    r.push(((x >> 8) & 0xff) as u8);
    r.push(((x >> 16) & 0xff) as u8);
    r.push(((x >> 24) & 0xff) as u8);
    r.push(((x >> 32) & 0xff) as u8);
    r.push(((x >> 40) & 0xff) as u8);
    r.push(((x >> 48) & 0xff) as u8);
    r.push(((x >> 56) & 0xff) as u8);
    proof {
        assert(r@ =~= u64_le_bytes(x));
    }
    r
}

/// The `u32` stored little-endian at `offset` in `bytes`.
pub fn read_u32_le(bytes: &Vec<u8>, offset: usize) -> (r: u32)
    requires
        offset + 4 <= bytes@.len(),
    ensures
        r == le_bytes_to_u32(bytes@.subrange(offset as int, offset as int + 4)),
{
    let n: usize = bytes.len();
    assert(offset + 4 <= n);
    let b0 = bytes[offset];
    let b1 = bytes[offset + 1];
    let b2 = bytes[offset + 2];
    let b3 = bytes[offset + 3];
    proof {
        assert(bytes@.subrange(offset as int, offset as int + 4)[0] == b0);
        assert(bytes@.subrange(offset as int, offset as int + 4)[1] == b1);
        assert(bytes@.subrange(offset as int, offset as int + 4)[2] == b2);
        assert(bytes@.subrange(offset as int, offset as int + 4)[3] == b3);
    }
    (b0 as u32) | ((b1 as u32) << 8) | ((b2 as u32) << 16) | ((b3 as u32) << 24)
}

/// The `u64` stored little-endian at `offset` in `bytes`.
pub fn read_u64_le(bytes: &Vec<u8>, offset: usize) -> (r: u64)
    requires
        offset + 8 <= bytes@.len(),
    ensures
        r == le_bytes_to_u64(bytes@.subrange(offset as int, offset as int + 8)),
{
    let n: usize = bytes.len();
    assert(offset + 8 <= n);
    let b0 = bytes[offset];
    let b1 = bytes[offset + 1];
    let b2 = bytes[offset + 2];
    let b3 = bytes[offset + 3];
    let b4 = bytes[offset + 4];
    let b5 = bytes[offset + 5];
    let b6 = bytes[offset + 6];
    let b7 = bytes[offset + 7];
    proof {
        assert(bytes@.subrange(offset as int, offset as int + 8)[0] == b0);
        assert(bytes@.subrange(offset as int, offset as int + 8)[1] == b1);
        assert(bytes@.subrange(offset as int, offset as int + 8)[2] == b2);
        assert(bytes@.subrange(offset as int, offset as int + 8)[3] == b3);
        assert(bytes@.subrange(offset as int, offset as int + 8)[4] == b4);
        assert(bytes@.subrange(offset as int, offset as int + 8)[5] == b5);
        assert(bytes@.subrange(offset as int, offset as int + 8)[6] == b6);
        assert(bytes@.subrange(offset as int, offset as int + 8)[7] == b7);
    }
    (b0 as u64) | ((b1 as u64) << 8) | ((b2 as u64) << 16) | ((b3 as u64) << 24) | ((b4
        as u64) << 32) | ((b5 as u64) << 40) | ((b6 as u64) << 48) | ((b7 as u64) << 56)
}

/// A copy of `bytes[start..end]`.
pub fn sub_vec(bytes: &Vec<u8>, start: usize, end: usize) -> (r: Vec<u8>)
    requires
        start <= end <= bytes@.len(),
    ensures
        r@ == bytes@.subrange(start as int, end as int),
{
    let mut r: Vec<u8> = Vec::new();
    let mut i: usize = start;
    while i < end
        invariant
            start <= i <= end <= bytes@.len(),
            r@ == bytes@.subrange(start as int, i as int),
        decreases end - i,
    {
        r.push(bytes[i]);
        proof {
            assert(r@ =~= bytes@.subrange(start as int, i as int + 1));
        }
        i = i + 1;
    }
    r
}

} // verus!
