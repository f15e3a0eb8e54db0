//! Big-endian integers in byte buffers.

use vstd::prelude::*;

verus! {

/// The two big-endian bytes of a 16-bit word.
pub open spec fn be_bytes_u16(x: u16) -> Seq<u8> {
    seq![(x >> 8) as u8, (x & 0xff) as u8]
}

/// The four big-endian bytes of a 32-bit word.
pub open spec fn be_bytes_u32(x: u32) -> Seq<u8> {
    seq![(x >> 24) as u8, ((x >> 16) & 0xff) as u8, ((x >> 8) & 0xff) as u8, (x & 0xff) as u8]
}

/// The eight big-endian bytes of a 64-bit word.
pub open spec fn be_bytes_u64(x: u64) -> Seq<u8> {
    seq![
        (x >> 56) as u8,
        ((x >> 48) & 0xff) as u8,
        ((x >> 40) & 0xff) as u8,
        ((x >> 32) & 0xff) as u8,
        ((x >> 24) & 0xff) as u8,
        ((x >> 16) & 0xff) as u8,
        ((x >> 8) & 0xff) as u8,
        (x & 0xff) as u8,
    ]
}

/// The 32-bit word whose big-endian bytes are `b0 b1 b2 b3`.
pub open spec fn u32_from_be(b0: u8, b1: u8, b2: u8, b3: u8) -> u32 {
    ((b0 as u32) << 24) | ((b1 as u32) << 16) | ((b2 as u32) << 8) | (b3 as u32)
}

/// The 64-bit word whose big-endian bytes are the eight bytes of `s` from
/// `at` on.
pub open spec fn u64_from_be(s: Seq<u8>, at: int) -> u64 {
    ((u32_from_be(s[at], s[at + 1], s[at + 2], s[at + 3]) as u64) << 32) | (u32_from_be(
        s[at + 4],
        s[at + 5],
        s[at + 6],
        s[at + 7],
    ) as u64)
}

/// Reading the big-endian bytes of a 32-bit word gives the word.
pub proof fn lemma_u32_round_trip(x: u32)
    ensures
        u32_from_be(
            be_bytes_u32(x)[0],
            be_bytes_u32(x)[1],
            be_bytes_u32(x)[2],
            be_bytes_u32(x)[3],
        ) == x,
{
    assert(((((x >> 24) as u8) as u32) << 24) | (((((x >> 16) & 0xff) as u8) as u32) << 16) | (((((x
        >> 8) & 0xff) as u8) as u32) << 8) | (((x & 0xff) as u8) as u32) == x) by (bit_vector);
}

/// Reading the big-endian bytes of a 64-bit word gives the word.
pub proof fn lemma_u64_round_trip(x: u64)
    ensures
        u64_from_be(be_bytes_u64(x), 0) == x,
{
    let s = be_bytes_u64(x);
    let hi = u32_from_be(s[0], s[1], s[2], s[3]);
    let lo = u32_from_be(s[4], s[5], s[6], s[7]);
    assert(((((x >> 56) as u8) as u32) << 24) | (((((x >> 48) & 0xff) as u8) as u32) << 16) | (((((x
        >> 40) & 0xff) as u8) as u32) << 8) | ((((x >> 32) & 0xff) as u8) as u32) == (x
        >> 32) as u32) by (bit_vector);
    assert(((((x >> 24) & 0xff) as u8) as u32) << 24 | (((((x >> 16) & 0xff) as u8) as u32) << 16)
        | (((((x >> 8) & 0xff) as u8) as u32) << 8) | (((x & 0xff) as u8) as u32) == (x
        & 0xffff_ffff) as u32) by (bit_vector);
    assert(((((x >> 32) as u32) as u64) << 32) | (((x & 0xffff_ffff) as u32) as u64) == x)
        by (bit_vector);
}

/// The word whose big-endian bytes stand at `at` in `buf`.
pub fn read_u32(buf: &[u8], at: usize) -> (x: u32)
    requires
        at + 4 <= buf@.len(),
    ensures
        x == u32_from_be(buf@[at as int], buf@[at + 1], buf@[at + 2], buf@[at + 3]),
{
    ((buf[at] as u32) << 24) | ((buf[at + 1] as u32) << 16) | ((buf[at + 2] as u32) << 8) | (buf[at
        + 3] as u32)
}

/// The word whose big-endian bytes stand at `at` in `buf`.
pub fn read_u64(buf: &[u8], at: usize) -> (x: u64)
    requires
        at + 8 <= buf@.len(),
    ensures
        x == u64_from_be(buf@, at as int),
{
    proof {
        vstd::slice::axiom_spec_len(buf);
    }
    let hi = read_u32(buf, at);
    let lo = read_u32(buf, at + 4);
    ((hi as u64) << 32) | (lo as u64)
}

/// Writes `src` into `buf` from position `at` on; the other bytes stay.
pub fn put_bytes<const N: usize>(buf: &mut [u8; N], at: usize, src: &[u8])
    requires
        at + src@.len() <= N,
    ensures
        final(buf)@ == old(buf)@.subrange(0, at as int) + src@ + old(buf)@.subrange(
            at + src@.len(),
            N as int,
        ),
{
    let mut i: usize = 0;
    while i < src.len()
        invariant
            i <= src@.len(),
            at + src@.len() <= N,
            buf@.len() == N,
            old(buf)@.len() == N,
            buf@ == old(buf)@.subrange(0, at as int) + src@.subrange(0, i as int) + old(
                buf,
            )@.subrange(at + i, N as int),
        decreases src@.len() - i,
    {
        buf[at + i] = src[i];
        i += 1;
        assert(buf@ =~= old(buf)@.subrange(0, at as int) + src@.subrange(0, i as int) + old(
            buf,
        )@.subrange(at + i, N as int));
    }
    assert(src@.subrange(0, i as int) =~= src@);
}

/// Writes the big-endian bytes of `x` into `buf` at `at`.
pub fn put_u16<const N: usize>(buf: &mut [u8; N], at: usize, x: u16)
    requires
        at + 2 <= N,
    ensures
        final(buf)@ == old(buf)@.subrange(0, at as int) + be_bytes_u16(x) + old(buf)@.subrange(
            at + 2,
            N as int,
        ),
{
    let bytes: [u8; 2] = [(x >> 8) as u8, (x & 0xff) as u8];
    assert(bytes@ =~= be_bytes_u16(x));
    put_bytes(buf, at, bytes.as_slice());
}

/// Writes the big-endian bytes of `x` into `buf` at `at`.
pub fn put_u32<const N: usize>(buf: &mut [u8; N], at: usize, x: u32)
    requires
        at + 4 <= N,
    ensures
        final(buf)@ == old(buf)@.subrange(0, at as int) + be_bytes_u32(x) + old(buf)@.subrange(
            at + 4,
            N as int,
        ),
{
    let bytes: [u8; 4] = [
        (x >> 24) as u8,
        ((x >> 16) & 0xff) as u8,
        ((x >> 8) & 0xff) as u8,
        (x & 0xff) as u8,
    ];
    assert(bytes@ =~= be_bytes_u32(x));
    put_bytes(buf, at, bytes.as_slice());
}

/// Writes the big-endian bytes of `x` into `buf` at `at`.
pub fn put_u64<const N: usize>(buf: &mut [u8; N], at: usize, x: u64)
    requires
        at + 8 <= N,
    ensures
        final(buf)@ == old(buf)@.subrange(0, at as int) + be_bytes_u64(x) + old(buf)@.subrange(
            at + 8,
            N as int,
        ),
{
    let bytes: [u8; 8] = [
        (x >> 56) as u8,
        ((x >> 48) & 0xff) as u8,
        ((x >> 40) & 0xff) as u8,
        ((x >> 32) & 0xff) as u8,
        ((x >> 24) & 0xff) as u8,
        ((x >> 16) & 0xff) as u8,
        ((x >> 8) & 0xff) as u8,
        (x & 0xff) as u8,
    ];
    assert(bytes@ =~= be_bytes_u64(x));
    put_bytes(buf, at, bytes.as_slice());
}

} // verus!
