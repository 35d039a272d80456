//! Big-endian integer fields of the wire format.
//!
//! The catalog packet carries its count, every file size, and the byte
//! length of the name block as 8-byte big-endian unsigned integers; the
//! chunk packet carries a 2-byte big-endian header. These functions encode
//! and decode those fields and prove that the two directions invert each
//! other.

use vstd::prelude::*;

verus! {

/// The eight big-endian bytes of `x`, most significant first.
pub open spec fn be_bytes_of_u64(x: u64) -> Seq<u8> {
    seq![
        (x >> 56) as u8,
        (x >> 48) as u8,
        (x >> 40) as u8,
        (x >> 32) as u8,
        (x >> 24) as u8,
        (x >> 16) as u8,
        (x >> 8) as u8,
        x as u8,
    ]
}

/// The value an 8-byte big-endian field holds.
pub open spec fn u64_of_be(b: Seq<u8>) -> u64
    recommends
        b.len() == 8,
{
    ((b[0] as u64) << 56) | ((b[1] as u64) << 48) | ((b[2] as u64) << 40) | ((b[3] as u64) << 32)
        | ((b[4] as u64) << 24) | ((b[5] as u64) << 16) | ((b[6] as u64) << 8) | (b[7] as u64)
}

/// The two big-endian bytes of `x`, most significant first.
pub open spec fn be_bytes_of_u16(x: u16) -> Seq<u8> {
    seq![(x >> 8) as u8, x as u8]
}

/// The value a 2-byte big-endian field holds.
pub open spec fn u16_of_be(b: Seq<u8>) -> u16
    recommends
        b.len() == 2,
{
    ((b[0] as u16) << 8) | (b[1] as u16)
}

/// Decoding the eight big-endian bytes of a value gives the value back.
pub proof fn lemma_u64_be_round_trip(x: u64)
    ensures
        u64_of_be(be_bytes_of_u64(x)) == x,
{
    assert((((x >> 56) as u8 as u64) << 56) | (((x >> 48) as u8 as u64) << 48) | (((x
        >> 40) as u8 as u64) << 40) | (((x >> 32) as u8 as u64) << 32) | (((x
        >> 24) as u8 as u64) << 24) | (((x >> 16) as u8 as u64) << 16) | (((x >> 8) as u8 as u64)
        << 8) | (x as u8 as u64) == x) by (bit_vector);
}

/// Decoding the two big-endian bytes of a value gives the value back.
pub proof fn lemma_u16_be_round_trip(x: u16)
    ensures
        u16_of_be(be_bytes_of_u16(x)) == x,
{
    assert((((x >> 8) as u8 as u16) << 8) | (x as u8 as u16) == x) by (bit_vector);
}

/// Append the 8-byte big-endian encoding of `x` to `out`.
pub fn push_u64_be(out: &mut Vec<u8>, x: u64)
    ensures
        final(out)@ == old(out)@ + be_bytes_of_u64(x),
{
    out.push((x >> 56) as u8);
    out.push((x >> 48) as u8);
    out.push((x >> 40) as u8);
    out.push((x >> 32) as u8);
    out.push((x >> 24) as u8);
    out.push((x >> 16) as u8);
    out.push((x >> 8) as u8);
    out.push(x as u8);
    proof {
        assert(out@ =~= old(out)@ + be_bytes_of_u64(x));
    }
}

/// Append the 2-byte big-endian encoding of `x` to `out`.
pub fn push_u16_be(out: &mut Vec<u8>, x: u16)
    ensures
        final(out)@ == old(out)@ + be_bytes_of_u16(x),
{
    out.push((x >> 8) as u8);
    out.push(x as u8);
    proof {
        assert(out@ =~= old(out)@ + be_bytes_of_u16(x));
    }
}

/// Read the 8-byte big-endian field starting at `at`.
pub fn read_u64_be(data: &[u8], at: usize) -> (r: u64)
    requires
        at + 8 <= data@.len(),
    ensures
        r == u64_of_be(data@.subrange(at as int, at as int + 8)),
{
    let r = ((data[at] as u64) << 56) | ((data[at + 1] as u64) << 48) | ((data[at
        + 2] as u64) << 40) | ((data[at + 3] as u64) << 32) | ((data[at + 4] as u64) << 24) | ((
    data[at + 5] as u64) << 16) | ((data[at + 6] as u64) << 8) | (data[at + 7] as u64);
    proof {
        let b = data@.subrange(at as int, at as int + 8);
        assert(b[0] == data@[at as int] && b[1] == data@[at as int + 1] && b[2] == data@[at as int
            + 2] && b[3] == data@[at as int + 3] && b[4] == data@[at as int + 4] && b[5]
            == data@[at as int + 5] && b[6] == data@[at as int + 6] && b[7] == data@[at as int
            + 7]);
    }
    r
}

/// Read the 2-byte big-endian field starting at `at`.
pub fn read_u16_be(data: &[u8], at: usize) -> (r: u16)
    requires
        at + 2 <= data@.len(),
    ensures
        r == u16_of_be(data@.subrange(at as int, at as int + 2)),
{
    let r = ((data[at] as u16) << 8) | (data[at + 1] as u16);
    proof {
        let b = data@.subrange(at as int, at as int + 2);
        assert(b[0] == data@[at as int] && b[1] == data@[at as int + 1]);
    }
    r
}

} // verus!
