//! The 32-bit murmur3 hash: a pure function of a byte sequence and a seed.
//!
//! The input is consumed in 4-byte little-endian chunks; each chunk is
//! scrambled (multiply, rotate, multiply), folded into the running state,
//! and the state is rotated and affinely mixed.  A trailing partial chunk
//! is packed little-endian and only folded in.  Finalization mixes the
//! byte count in and applies an avalanche of shift-xor / multiply steps.
//! All arithmetic is unsigned 32-bit with wraparound.

use vstd::prelude::*;

verus! {

pub const FOLD_M1: u32 = 0xcc9e_2d51;
pub const FOLD_M2: u32 = 0x1b87_3593;
pub const FINISH_M1: u32 = 0x85eb_ca6b;
pub const FINISH_M2: u32 = 0xc2b2_ae35;
pub const STEP_M: u32 = 5;
pub const STEP_A: u32 = 0xe654_6b64;

/// Unsigned 32-bit multiplication with wraparound.
pub open spec fn w_mul(a: u32, b: u32) -> u32 {
    ((a as nat * b as nat) % 0x1_0000_0000nat) as u32
}

/// Unsigned 32-bit addition with wraparound.
pub open spec fn w_add(a: u32, b: u32) -> u32 {
    ((a as nat + b as nat) % 0x1_0000_0000nat) as u32
}

/// Left rotation of a 32-bit word by `r` bits, `0 < r < 32`.
pub open spec fn rotl_spec(x: u32, r: u32) -> u32
    recommends
        0 < r < 32,
{
    (x << r) | (x >> ((32 - r) as u32))
}

/// The per-chunk scramble: multiply, rotate left by 15, multiply.
pub open spec fn scramble(k: u32) -> u32 {
    w_mul(rotl_spec(w_mul(k, FOLD_M1), 15), FOLD_M2)
}

/// The value of the 4-byte little-endian chunk at byte offset `i`.
pub open spec fn chunk_val(b: Seq<u8>, i: int) -> u32
    recommends
        0 <= i,
        i + 4 <= b.len(),
{
    (b[i] as u32) | ((b[i + 1] as u32) << 8u32) | ((b[i + 2] as u32) << 16u32) | ((b[i + 3] as u32)
        << 24u32)
}

/// Folding one scrambled chunk into the state: xor, rotate left by 13,
/// then multiply-add with fixed constants.
pub open spec fn chunk_step(state: u32, k: u32) -> u32 {
    w_add(w_mul(rotl_spec(state ^ scramble(k), 13), STEP_M), STEP_A)
}

/// The state after the first `n` full 4-byte chunks of `b`, starting from `seed`.
pub open spec fn state_after(b: Seq<u8>, seed: u32, n: int) -> u32
    decreases n,
{
    if n <= 0 {
        seed
    } else {
        chunk_step(state_after(b, seed, n - 1), chunk_val(b, 4 * (n - 1)))
    }
}

/// The 1-3 residual bytes packed into a little-endian integer
/// (zero if the length is a multiple of 4).
pub open spec fn tail_val(b: Seq<u8>) -> u32 {
    let base = b.len() - b.len() % 4;
    if b.len() % 4 == 3 {
        ((b[base + 2] as u32) << 16u32) | ((b[base + 1] as u32) << 8u32) | (b[base] as u32)
    } else if b.len() % 4 == 2 {
        ((b[base + 1] as u32) << 8u32) | (b[base] as u32)
    } else if b.len() % 4 == 1 {
        b[base] as u32
    } else {
        0
    }
}

/// The state after the residual bytes are folded in (xor only, no rotate
/// or affine step for the tail).
pub open spec fn mix_tail(state: u32, b: Seq<u8>) -> u32 {
    if b.len() % 4 == 0 {
        state
    } else {
        state ^ scramble(tail_val(b))
    }
}

/// Finalization: xor the byte count in, then avalanche.
pub open spec fn finish_spec(state: u32, processed: u32) -> u32 {
    let h0 = state ^ processed;
    let h1 = h0 ^ (h0 >> 16u32);
    let h2 = w_mul(h1, FINISH_M1);
    let h3 = h2 ^ (h2 >> 13u32);
    let h4 = w_mul(h3, FINISH_M2);
    h4 ^ (h4 >> 16u32)
}

/// The full hash of a byte sequence under a seed, as a mathematical
/// function: the same bytes and seed always give the same value.
pub open spec fn murmur3_spec(b: Seq<u8>, seed: u32) -> u32
    recommends
        b.len() <= u32::MAX,
{
    finish_spec(mix_tail(state_after(b, seed, b.len() as int / 4), b), b.len() as u32)
}

/// Left rotation of a 32-bit word.
fn rotl(x: u32, r: u32) -> (res: u32)
    requires
        0 < r < 32,
    ensures
        res == rotl_spec(x, r),
{
    (x << r) | (x >> (32 - r))
}

fn scramble_exec(k: u32) -> (res: u32)
    ensures
        res == scramble(k),
{
    rotl(k.wrapping_mul(FOLD_M1), 15).wrapping_mul(FOLD_M2)
}

fn finish(state: u32, processed: u32) -> (res: u32)
    ensures
        res == finish_spec(state, processed),
{
    let mut hash = state;
    hash = hash ^ processed;
    hash = hash ^ (hash >> 16);
    hash = hash.wrapping_mul(FINISH_M1);
    hash = hash ^ (hash >> 13);
    hash = hash.wrapping_mul(FINISH_M2);
    hash = hash ^ (hash >> 16);
    hash
}

/// The 32-bit murmur3 hash of `source` under `seed`.
///
/// The result is a pure function of the bytes and the seed, so repeated
/// calls on equal inputs always agree, across runs and platforms.
pub fn murmur3_32(source: &[u8], seed: u32) -> (res: u32)
    requires
        source@.len() <= u32::MAX,
    ensures
        res == murmur3_spec(source@, seed),
{
    let len = source.len();
    let nchunks = len / 4;
    let mut state = seed;
    let mut c: usize = 0;
    while c < nchunks
        invariant
            nchunks == len / 4,
            len == source@.len(),
            len <= u32::MAX,
            c <= nchunks,
            state == state_after(source@, seed, c as int),
        decreases nchunks - c,
    {
        let i = 4 * c;
        let k = (source[i] as u32) | ((source[i + 1] as u32) << 8) | ((source[i + 2] as u32) << 16)
            | ((source[i + 3] as u32) << 24);
        assert(k == chunk_val(source@, 4 * c as int));
        state = state ^ scramble_exec(k);
        state = rotl(state, 13);
        state = state.wrapping_mul(STEP_M).wrapping_add(STEP_A);
        c = c + 1;
    }
    let rem = len % 4;
    let base = len - rem;
    if rem == 3 {
        let k = ((source[base + 2] as u32) << 16) | ((source[base + 1] as u32) << 8) | (
        source[base] as u32);
        assert(k == tail_val(source@));
        state = state ^ scramble_exec(k);
    } else if rem == 2 {
        let k = ((source[base + 1] as u32) << 8) | (source[base] as u32);
        assert(k == tail_val(source@));
        state = state ^ scramble_exec(k);
    } else if rem == 1 {
        let k = source[base] as u32;
        assert(k == tail_val(source@));
        state = state ^ scramble_exec(k);
    }
    assert(state == mix_tail(state_after(source@, seed, source@.len() as int / 4), source@));
    finish(state, len as u32)
}

} // verus!
