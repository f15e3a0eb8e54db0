//! The SHA-1 digest of a byte sequence.
//!
//! The digest is defined as a mathematical function on `Seq<u8>`
//! ([`sha1_spec`]) and computed by [`sha1`], which is proved to return
//! exactly that function's value.

use crate::endian::{be_bytes_u32, be_bytes_u64, u32_from_be};
use vstd::prelude::*;

verus! {

/// The five 32-bit words that are carried from one block to the next.
#[derive(Clone, Copy, Debug)]
pub struct HashState {
    pub h0: u32,
    pub h1: u32,
    pub h2: u32,
    pub h3: u32,
    pub h4: u32,
}

/// `x` rotated left by `n` bits, for `0 < n < 32`.
pub open spec fn rotl(x: u32, n: u32) -> u32 {
    (x << n) | (x >> ((32 - n) as u32))
}

/// The length of a message of `len` bytes, in bits, as the 64-bit field of
/// the padding holds it: reduced modulo 2^64.
pub open spec fn bit_length(len: nat) -> u64 {
    ((len * 8) % 0x1_0000_0000_0000_0000) as u64
}

/// Whether `zeros` zero bytes behind the `0x80` marker bring a message of
/// `len` bytes to a length of 56 modulo 64.
pub open spec fn reaches_length_field(len: nat, zeros: int) -> bool {
    (len + 1 + zeros) % 64 == 56
}

/// How many zero bytes follow the `0x80` marker of a message of `len`
/// bytes: the least number that brings the length to 56 modulo 64.
pub open spec fn zero_padding(len: nat) -> nat {
    ((119 - (len % 64)) % 64) as nat
}

/// The message followed by its padding: the byte `0x80`, zero bytes up to a
/// length of 56 modulo 64, and the message's bit length as 8 big-endian bytes.
pub open spec fn padded(msg: Seq<u8>) -> Seq<u8> {
    msg + seq![0x80u8] + Seq::new(zero_padding(msg.len()), |i: int| 0u8) + be_bytes_u64(
        bit_length(msg.len()),
    )
}

/// Word `j` of the message schedule of a 64-byte block: the block's own
/// sixteen big-endian words, extended to eighty.
pub open spec fn schedule_word(block: Seq<u8>, j: int) -> u32
    decreases j,
{
    if j < 0 {
        0
    } else if j < 16 {
        u32_from_be(block[4 * j], block[4 * j + 1], block[4 * j + 2], block[4 * j + 3])
    } else {
        rotl(
            schedule_word(block, j - 3) ^ schedule_word(block, j - 8) ^ schedule_word(block, j - 14)
                ^ schedule_word(block, j - 16),
            1,
        )
    }
}

/// The eighty words of the message schedule of a block.
pub open spec fn schedule(block: Seq<u8>) -> Seq<u32> {
    Seq::new(80, |j: int| schedule_word(block, j))
}

/// The bitwise function of round `j`: choice, parity, majority, parity, by
/// the stage of twenty rounds that `j` falls into.
pub open spec fn round_function(j: int, b: u32, c: u32, d: u32) -> u32 {
    if j < 20 {
        (b & c) | ((!b) & d)
    } else if j < 40 {
        b ^ c ^ d
    } else if j < 60 {
        (b & c) | (b & d) | (c & d)
    } else {
        b ^ c ^ d
    }
}

/// The constant of round `j`.
pub open spec fn round_constant(j: int) -> u32 {
    if j < 20 {
        0x5a827999
    } else if j < 40 {
        0x6ed9eba1
    } else if j < 60 {
        0x8f1bbcdc
    } else {
        0xca62c1d6
    }
}

/// The working variables after round `j`, which folds in schedule word `w`.
pub open spec fn round_step(s: HashState, j: int, w: u32) -> HashState {
    HashState {
        h0: rotl(s.h0, 5).wrapping_add(round_function(j, s.h1, s.h2, s.h3)).wrapping_add(
            s.h4,
        ).wrapping_add(round_constant(j)).wrapping_add(w),
        h1: s.h0,
        h2: rotl(s.h1, 30),
        h3: s.h2,
        h4: s.h3,
    }
}

/// The working variables after the first `n` rounds over the schedule `w`.
pub open spec fn rounds(s: HashState, w: Seq<u32>, n: int) -> HashState
    decreases n,
{
    if n <= 0 {
        s
    } else {
        round_step(rounds(s, w, n - 1), n - 1, w[n - 1])
    }
}

/// The state after a block with schedule `w`: eighty rounds, then each
/// working variable added to the state's word, modulo 2^32.
pub open spec fn compress(h: HashState, w: Seq<u32>) -> HashState {
    let r = rounds(h, w, 80);
    HashState {
        h0: h.h0.wrapping_add(r.h0),
        h1: h.h1.wrapping_add(r.h1),
        h2: h.h2.wrapping_add(r.h2),
        h3: h.h3.wrapping_add(r.h3),
        h4: h.h4.wrapping_add(r.h4),
    }
}

/// The state before the first block.
pub open spec fn initial_state() -> HashState {
    HashState { h0: 0x67452301, h1: 0xEFCDAB89, h2: 0x98BADCFE, h3: 0x10325476, h4: 0xC3D2E1F0 }
}

/// Block `i` of `data`.
pub open spec fn block_at(data: Seq<u8>, i: int) -> Seq<u8> {
    data.subrange(64 * i, 64 * i + 64)
}

/// The state after the first `n` blocks of `data`.
pub open spec fn state_after(data: Seq<u8>, n: int) -> HashState
    decreases n,
{
    if n <= 0 {
        initial_state()
    } else {
        compress(state_after(data, n - 1), schedule(block_at(data, n - 1)))
    }
}

/// The twenty bytes of a state: its five words, big-endian, in order.
pub open spec fn state_bytes(h: HashState) -> Seq<u8> {
    be_bytes_u32(h.h0) + be_bytes_u32(h.h1) + be_bytes_u32(h.h2) + be_bytes_u32(h.h3) + be_bytes_u32(h.h4)
}

/// The SHA-1 digest of `msg`.
pub open spec fn sha1_spec(msg: Seq<u8>) -> Seq<u8> {
    let data = padded(msg);
    state_bytes(state_after(data, data.len() as int / 64))
}

/// The padding is the shortest one that ends a block: the zero bytes bring
/// the length to 56 modulo 64, no fewer would, and with the eight bytes of
/// the length the padded message is a whole number of blocks. The message
/// itself stands at the start.
pub proof fn lemma_padded_len(msg: Seq<u8>)
    ensures
        padded(msg).len() == msg.len() + 1 + zero_padding(msg.len()) + 8,
        padded(msg).len() % 64 == 0,
        reaches_length_field(msg.len(), zero_padding(msg.len()) as int),
        forall|k: int|
            0 <= k < zero_padding(msg.len()) ==> !#[trigger] reaches_length_field(msg.len(), k),
        padded(msg).subrange(0, msg.len() as int) == msg,
{
    assert(padded(msg).subrange(0, msg.len() as int) =~= msg);
}

/// Digest stability: equal byte sequences have equal digests, and a digest
/// has twenty bytes. Every call of [`sha1`] returns `sha1_spec` of its
/// input, so two calls on equal inputs return equal digests.
pub proof fn lemma_digest_stable(x: Seq<u8>, y: Seq<u8>)
    requires
        x == y,
    ensures
        sha1_spec(x) == sha1_spec(y),
        sha1_spec(x).len() == 20,
{
}

fn rotate_left(x: u32, n: u32) -> (r: u32)
    requires
        0 < n < 32,
    ensures
        r == rotl(x, n),
{
    (x << n) | (x >> (32 - n))
}

fn push_word(out: &mut Vec<u8>, x: u32)
    ensures
        final(out)@ == old(out)@ + be_bytes_u32(x),
{
    out.push((x >> 24) as u8);
    out.push(((x >> 16) & 0xff) as u8);
    out.push(((x >> 8) & 0xff) as u8);
    out.push((x & 0xff) as u8);
    assert(out@ =~= old(out)@ + be_bytes_u32(x));
}

fn push_length(out: &mut Vec<u8>, x: u64)
    ensures
        final(out)@ == old(out)@ + be_bytes_u64(x),
{
    out.push((x >> 56) as u8);
    out.push(((x >> 48) & 0xff) as u8);
    out.push(((x >> 40) & 0xff) as u8);
    out.push(((x >> 32) & 0xff) as u8);
    out.push(((x >> 24) & 0xff) as u8);
    out.push(((x >> 16) & 0xff) as u8);
    out.push(((x >> 8) & 0xff) as u8);
    out.push((x & 0xff) as u8);
    assert(out@ =~= old(out)@ + be_bytes_u64(x));
}

/// The message with its padding appended.
fn pad_message(input: &[u8]) -> (data: Vec<u8>)
    ensures
        data@ == padded(input@),
{
    let mut data: Vec<u8> = Vec::new();
    data.extend_from_slice(input);
    data.push(0x80);
    let zeros: usize = (119 - input.len() % 64) % 64;
    let mut i: usize = 0;
    while i < zeros
        invariant
            i <= zeros,
            data@ == input@ + seq![0x80u8] + Seq::new(i as nat, |k: int| 0u8),
        decreases zeros - i,
    {
        data.push(0);
        i += 1;
        assert(data@ =~= input@ + seq![0x80u8] + Seq::new(i as nat, |k: int| 0u8));
    }
    let bits: u64 = (input.len() as u64).wrapping_mul(8);
    push_length(&mut data, bits);
    data
}

/// The message schedule of the block that starts at byte `start` of `data`.
fn expand_block(data: &Vec<u8>, start: usize) -> (w: Vec<u32>)
    requires
        start + 64 <= data.len(),
    ensures
        w@ == schedule(data@.subrange(start as int, start + 64)),
{
    let ghost block = data@.subrange(start as int, start + 64);
    let mut w: Vec<u32> = Vec::new();
    let mut j: usize = 0;
    while j < 16
        invariant
            j <= 16,
            start + 64 <= data.len(),
            block == data@.subrange(start as int, start + 64),
            w@.len() == j,
            forall|k: int| 0 <= k < j ==> w@[k] == schedule_word(block, k),
        decreases 16 - j,
    {
        let b0 = data[start + 4 * j];
        let b1 = data[start + 4 * j + 1];
        let b2 = data[start + 4 * j + 2];
        let b3 = data[start + 4 * j + 3];
        let word = ((b0 as u32) << 24) | ((b1 as u32) << 16) | ((b2 as u32) << 8) | (b3 as u32);
        w.push(word);
        j += 1;
    }
    while j < 80
        invariant
            16 <= j <= 80,
            w@.len() == j,
            forall|k: int| 0 <= k < j ==> w@[k] == schedule_word(block, k),
        decreases 80 - j,
    {
        let word = rotate_left(w[j - 3] ^ w[j - 8] ^ w[j - 14] ^ w[j - 16], 1);
        assert(word == schedule_word(block, j as int)) by {
            assert(w@[j - 3] == schedule_word(block, j - 3));
            assert(w@[j - 8] == schedule_word(block, j - 8));
            assert(w@[j - 14] == schedule_word(block, j - 14));
            assert(w@[j - 16] == schedule_word(block, j - 16));
        }
        w.push(word);
        j += 1;
    }
    assert(w@ =~= schedule(block));
    w
}

/// One block's compression: eighty rounds over the schedule `w`, then the
/// sum with the incoming state.
fn compress_block(h: HashState, w: &Vec<u32>) -> (r: HashState)
    requires
        w@.len() == 80,
    ensures
        r == compress(h, w@),
{
    let mut a = h.h0;
    let mut b = h.h1;
    let mut c = h.h2;
    let mut d = h.h3;
    let mut e = h.h4;
    let mut j: usize = 0;
    while j < 80
        invariant
            j <= 80,
            w@.len() == 80,
            (HashState { h0: a, h1: b, h2: c, h3: d, h4: e }) == rounds(h, w@, j as int),
        decreases 80 - j,
    {
        let f: u32;
        let k: u32;
        if j < 20 {
            f = (b & c) | ((!b) & d);
            k = 0x5a827999;
        } else if j < 40 {
            f = b ^ c ^ d;
            k = 0x6ed9eba1;
        } else if j < 60 {
            f = (b & c) | (b & d) | (c & d);
            k = 0x8f1bbcdc;
        } else {
            f = b ^ c ^ d;
            k = 0xca62c1d6;
        }
        let temp = rotate_left(a, 5).wrapping_add(f).wrapping_add(e).wrapping_add(k).wrapping_add(
            w[j],
        );
        e = d;
        d = c;
        c = rotate_left(b, 30);
        b = a;
        a = temp;
        j += 1;
    }
    HashState {
        h0: h.h0.wrapping_add(a),
        h1: h.h1.wrapping_add(b),
        h2: h.h2.wrapping_add(c),
        h3: h.h3.wrapping_add(d),
        h4: h.h4.wrapping_add(e),
    }
}

/// Computes the SHA-1 digest of `input`: twenty bytes, for every input, the
/// empty one included.
pub fn sha1(input: &[u8]) -> (digest: Vec<u8>)
    ensures
        digest@ == sha1_spec(input@),
        digest@.len() == 20,
{
    let data = pad_message(input);
    proof {
        lemma_padded_len(input@);
    }
    let blocks: usize = data.len() / 64;
    let mut h = HashState {
        h0: 0x67452301,
        h1: 0xEFCDAB89,
        h2: 0x98BADCFE,
        h3: 0x10325476,
        h4: 0xC3D2E1F0,
    };
    let mut i: usize = 0;
    while i < blocks
        invariant
            i <= blocks,
            blocks * 64 == data.len(),
            h == state_after(data@, i as int),
        decreases blocks - i,
    {
        let w = expand_block(&data, i * 64);
        h = compress_block(h, &w);
        i += 1;
    }
    let mut digest: Vec<u8> = Vec::new();
    push_word(&mut digest, h.h0);
    push_word(&mut digest, h.h1);
    push_word(&mut digest, h.h2);
    push_word(&mut digest, h.h3);
    push_word(&mut digest, h.h4);
    assert(digest@ =~= state_bytes(h));
    digest
}

} // verus!
