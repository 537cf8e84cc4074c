//! Big-endian 32-bit words and modular differences of 32-bit counters.

use vstd::prelude::*;

verus! {

/// The most significant byte of `u`.
pub open spec fn byte0(u: u32) -> u8 {
    ((u >> 24) & 0xff) as u8
}

/// The second byte of `u`, counted from the most significant one.
pub open spec fn byte1(u: u32) -> u8 {
    ((u >> 16) & 0xff) as u8
}

/// The third byte of `u`, counted from the most significant one.
pub open spec fn byte2(u: u32) -> u8 {
    ((u >> 8) & 0xff) as u8
}

/// The least significant byte of `u`.
pub open spec fn byte3(u: u32) -> u8 {
    (u & 0xff) as u8
}

/// The word whose big-endian bytes are `b0 b1 b2 b3`.
pub open spec fn be_word(b0: u8, b1: u8, b2: u8, b3: u8) -> u32 {
    ((b0 as u32) << 24) | ((b1 as u32) << 16) | ((b2 as u32) << 8) | (b3 as u32)
}

/// The four big-endian bytes of `u`.
pub open spec fn be_bytes(u: u32) -> Seq<u8> {
    seq![byte0(u), byte1(u), byte2(u), byte3(u)]
}

/// The word stored big-endian in `s` at `at`.
pub open spec fn word_at(s: Seq<u8>, at: int) -> u32
    recommends
        0 <= at,
        at + 4 <= s.len(),
{
    be_word(s[at], s[at + 1], s[at + 2], s[at + 3])
}

/// Splitting a word into its bytes and joining them again gives the word.
pub proof fn lemma_word_of_bytes(u: u32)
    ensures
        be_word(byte0(u), byte1(u), byte2(u), byte3(u)) == u,
{
    assert(((((((u >> 24) & 0xff) as u8) as u32) << 24) | (((((u >> 16) & 0xff) as u8) as u32)
        << 16) | (((((u >> 8) & 0xff) as u8) as u32) << 8) | (((u & 0xff) as u8) as u32)) == u)
        by (bit_vector);
}

/// Joining four bytes into a word and splitting it again gives the bytes.
pub proof fn lemma_bytes_of_word(b0: u8, b1: u8, b2: u8, b3: u8)
    ensures
        byte0(be_word(b0, b1, b2, b3)) == b0,
        byte1(be_word(b0, b1, b2, b3)) == b1,
        byte2(be_word(b0, b1, b2, b3)) == b2,
        byte3(be_word(b0, b1, b2, b3)) == b3,
{
    let w: u32 = be_word(b0, b1, b2, b3);
    assert(w == ((b0 as u32) << 24) | ((b1 as u32) << 16) | ((b2 as u32) << 8) | (b3 as u32));
    assert((((w >> 24) & 0xff) as u8) == b0 && (((w >> 16) & 0xff) as u8) == b1 && (((w >> 8)
        & 0xff) as u8) == b2 && ((w & 0xff) as u8) == b3) by (bit_vector)
        requires
            w == ((b0 as u32) << 24) | ((b1 as u32) << 16) | ((b2 as u32) << 8) | (b3 as u32),
    ;
}

/// `a - b` modulo 2^32: the distance from counter value `b` forward to `a`.
pub open spec fn wrap_sub(a: u32, b: u32) -> u32 {
    if a >= b {
        (a - b) as u32
    } else {
        (a + 0x1_0000_0000 - b) as u32
    }
}

/// Splits `u` into its big-endian bytes.
pub fn split_word(u: u32) -> (r: (u8, u8, u8, u8))
    ensures
        r.0 == byte0(u),
        r.1 == byte1(u),
        r.2 == byte2(u),
        r.3 == byte3(u),
{
    let b0: u8 = ((u >> 24) & 0xff) as u8;
    let b1: u8 = ((u >> 16) & 0xff) as u8;
    let b2: u8 = ((u >> 8) & 0xff) as u8;
    let b3: u8 = (u & 0xff) as u8;
    (b0, b1, b2, b3)
}

/// Joins four big-endian bytes into a word.
pub fn join_word(b0: u8, b1: u8, b2: u8, b3: u8) -> (r: u32)
    ensures
        r == be_word(b0, b1, b2, b3),
{
    ((b0 as u32) << 24) | ((b1 as u32) << 16) | ((b2 as u32) << 8) | (b3 as u32)
}

/// Computes `a - b` modulo 2^32.
pub fn wrapping_distance(a: u32, b: u32) -> (r: u32)
    ensures
        r == wrap_sub(a, b),
{
    if a >= b {
        a - b
    } else {
        (u32::MAX - b) + a + 1
    }
}

} // verus!
