//! The 32-bit murmur3 hash over a byte slice, used to key the token map.
//!
//! The whole computation is specified bit for bit: four-byte blocks are
//! mixed into the state in order, a shorter tail is folded in without the
//! block rotation, and the byte count (truncated to 32 bits) seasons the
//! final avalanche.

use vstd::prelude::*;

verus! {

pub const FIN_C1: u32 = 0x85eb_ca6b;

pub const FIN_C2: u32 = 0xc2b2_ae35;

pub const FIN_R1: u32 = 16;

pub const FIN_R2: u32 = 13;

pub const ROUND_M: u32 = 5;

pub const ROUND_N: u32 = 0xe654_6b64;

pub const MIX_C1: u32 = 0xcc9e_2d51;

pub const MIX_C2: u32 = 0x1b87_3593;

pub const MIX_R1: u32 = 15;

/// A 32-bit left rotation.
pub open spec fn rotl32(x: u32, r: u32) -> u32
    recommends
        0 < r < 32,
{
    (x << r) | (x >> (32 - r) as u32)
}

/// Rotates `x` left by `r` bits.
pub fn rotl(x: u32, r: u32) -> (y: u32)
    requires
        0 < r < 32,
    ensures
        y == rotl32(x, r),
{
    (x << r) | (x >> (32 - r))
}

/// The murmur3 mixing of one 32-bit block before it enters the state.
pub open spec fn spec_calc_k(k: u32) -> u32 {
    vstd::wrapping::u32_specs::wrapping_mul(
        rotl32(vstd::wrapping::u32_specs::wrapping_mul(k, MIX_C1), MIX_R1),
        MIX_C2,
    )
}

/// Mixes one 32-bit block, as the murmur3 block function prescribes.
pub fn calc_k(k: u32) -> (r: u32)
    ensures
        r == spec_calc_k(k),
{
    let a = k.wrapping_mul(MIX_C1);
    let b = rotl(a, MIX_R1);
    b.wrapping_mul(MIX_C2)
}

/// One full round: the mixed block enters the state, which is rotated,
/// scaled and offset.
pub open spec fn spec_round(state: u32, k: u32) -> u32 {
    vstd::wrapping::u32_specs::wrapping_add(
        vstd::wrapping::u32_specs::wrapping_mul(rotl32(state ^ spec_calc_k(k), FIN_R2), ROUND_M),
        ROUND_N,
    )
}

/// The final avalanche over the state and the (truncated) byte count.
pub open spec fn spec_finish(state: u32, processed: u32) -> u32 {
    let h0 = state ^ processed;
    let h1 = h0 ^ (h0 >> FIN_R1);
    let h2 = vstd::wrapping::u32_specs::wrapping_mul(h1, FIN_C1);
    let h3 = h2 ^ (h2 >> FIN_R2);
    let h4 = vstd::wrapping::u32_specs::wrapping_mul(h3, FIN_C2);
    h4 ^ (h4 >> FIN_R1)
}

/// Applies the final avalanche.
pub fn finish(state: u32, processed: u32) -> (h: u32)
    ensures
        h == spec_finish(state, processed),
{
    let mut hash = state;
    hash ^= processed;
    hash ^= hash >> FIN_R1;
    hash = hash.wrapping_mul(FIN_C1);
    hash ^= hash >> FIN_R2;
    hash = hash.wrapping_mul(FIN_C2);
    hash ^= hash >> FIN_R1;
    hash
}

/// The 32-bit little-endian block at index `i`.
pub open spec fn chunk_k(b: Seq<u8>, i: int) -> u32
    recommends
        0 <= i,
        i + 4 <= b.len(),
{
    (b[i] as u32) | ((b[i + 1] as u32) << 8u32) | ((b[i + 2] as u32) << 16u32) | ((b[i
        + 3] as u32) << 24u32)
}

/// What a tail of fewer than four bytes contributes before the finish.
pub open spec fn tail_k(b: Seq<u8>, i: int) -> u32
    recommends
        0 <= i <= b.len(),
        b.len() - i < 4,
{
    let rem = b.len() - i;
    if rem == 3 {
        ((b[i + 2] as u32) << 16u32) | ((b[i + 1] as u32) << 8u32) | (b[i] as u32)
    } else if rem == 2 {
        ((b[i + 1] as u32) << 8u32) | (b[i] as u32)
    } else {
        (b[i] as u32)
    }
}

/// The state after consuming the bytes from `i` on and finishing: full
/// blocks are mixed round by round, a non-empty tail is folded in by an
/// exclusive or with its mixed value, and the avalanche closes over the
/// truncated total byte count.
pub open spec fn spec_murmur_from(b: Seq<u8>, i: int, state: u32) -> u32
    recommends
        0 <= i <= b.len(),
    decreases b.len() - i,
{
    if i < 0 || i + 4 > b.len() {
        let st = if 0 <= i < b.len() {
            state ^ spec_calc_k(tail_k(b, i))
        } else {
            state
        };
        spec_finish(st, b.len() as u32)
    } else {
        spec_murmur_from(b, i + 4, spec_round(state, chunk_k(b, i)))
    }
}

/// The murmur3 32-bit hash of `b` under `seed`.
pub open spec fn spec_murmur(b: Seq<u8>, seed: u32) -> u32 {
    spec_murmur_from(b, 0, seed)
}

/// Hashes a byte slice with the 32-bit murmur3 variant. On inputs past
/// four gibibytes the byte count wraps in the final avalanche; the blocks
/// themselves are all consumed either way.
pub fn murmur3_32(bytes: &[u8], seed: u32) -> (h: u32)
    ensures
        h == spec_murmur(bytes@, seed),
{
    let n = bytes.len();
    let mut state = seed;
    let mut i: usize = 0;
    while n - i >= 4
        invariant
            n == bytes@.len(),
            i <= n,
            spec_murmur(bytes@, seed) == spec_murmur_from(bytes@, i as int, state),
        decreases n - i,
    {
        let ghost i0 = i as int;
        let ghost st0 = state;
        let k = (bytes[i] as u32) | ((bytes[i + 1] as u32) << 8) | ((bytes[i + 2] as u32) << 16)
            | ((bytes[i + 3] as u32) << 24);
        proof {
            assert(k == chunk_k(bytes@, i as int));
        }
        state = state ^ calc_k(k);
        state = rotl(state, FIN_R2);
        state = state.wrapping_mul(ROUND_M).wrapping_add(ROUND_N);
        i += 4;
        proof {
            assert(state == spec_round(st0, chunk_k(bytes@, i0)));
            assert(spec_murmur_from(bytes@, i0, st0) == spec_murmur_from(
                bytes@,
                i0 + 4,
                spec_round(st0, chunk_k(bytes@, i0)),
            ));
        }
    }
    let rem = n - i;
    let st = if rem == 3 {
        let k = ((bytes[i + 2] as u32) << 16) | ((bytes[i + 1] as u32) << 8) | (bytes[i] as u32);
        proof {
            assert(k == tail_k(bytes@, i as int));
        }
        state ^ calc_k(k)
    } else if rem == 2 {
        let k = ((bytes[i + 1] as u32) << 8) | (bytes[i] as u32);
        proof {
            assert(k == tail_k(bytes@, i as int));
        }
        state ^ calc_k(k)
    } else if rem == 1 {
        let k = bytes[i] as u32;
        proof {
            assert(k == tail_k(bytes@, i as int));
        }
        state ^ calc_k(k)
    } else {
        state
    };
    let processed = #[verifier::truncate] (n as u32);
    finish(st, processed)
}

/// The murmur3 32-bit hash of `b` with seed zero.
pub fn hash(b: &[u8]) -> (h: u32)
    ensures
        h == spec_murmur(b@, 0),
{
    murmur3_32(b, 0)
}

} // verus!
