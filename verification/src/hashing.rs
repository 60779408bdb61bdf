//! Content hashing for deduplication: an FNV-1a fold over a value sequence.
//!
//! The hash is the store's derived identity for an entry. Text entries hash
//! their character code points; image entries hash the raw encoded bytes at
//! insertion time, and, after a reload, the blob filename together with the
//! timestamp (raw bytes are not re-read on load).

use vstd::prelude::*;

verus! {

/// FNV-1a offset basis.
pub const FNV_OFFSET: u64 = 0xcbf2_9ce4_8422_2325;

/// FNV-1a prime.
pub const FNV_PRIME: u64 = 0x0000_0100_0000_01b3;

/// One FNV-1a step: folds the value `v` into the running hash `h`.
pub open spec fn fnv_step(h: u64, v: u64) -> u64 {
    vstd::wrapping::u64_specs::wrapping_mul(h ^ v, FNV_PRIME)
}

/// FNV-1a over the first `n` values of a sequence.
pub open spec fn fnv_prefix(vs: Seq<u64>, n: int) -> u64
    decreases n,
{
    if n <= 0 {
        FNV_OFFSET
    } else {
        fnv_step(fnv_prefix(vs, n - 1), vs[n - 1])
    }
}

/// FNV-1a hash of a sequence of values.
pub open spec fn fnv(vs: Seq<u64>) -> u64 {
    fnv_prefix(vs, vs.len() as int)
}

/// The hash of a text content: FNV-1a over its character code points.
pub open spec fn text_hash(s: Seq<char>) -> u64 {
    fnv(s.map(|_i: int, c: char| c as u64))
}

/// The hash of raw image bytes.
pub open spec fn bytes_hash(b: Seq<u8>) -> u64 {
    fnv(b.map(|_i: int, x: u8| x as u64))
}

/// The hash reconstructed for an image entry after a reload: the hash of the
/// blob filename, folded once more with the timestamp.
pub open spec fn image_meta_hash(name: Seq<char>, timestamp: i64) -> u64 {
    fnv_step(text_hash(name), timestamp as u64)
}

/// One exec FNV-1a step.
pub fn fnv_fold(h: u64, v: u64) -> (r: u64)
    ensures
        r == fnv_step(h, v),
{
    (h ^ v).wrapping_mul(FNV_PRIME)
}

/// Hashes the characters of a vector.
pub fn hash_chars(cs: &Vec<char>) -> (r: u64)
    ensures
        r == text_hash(cs@),
{
    let ghost vs = cs@.map(|_i: int, c: char| c as u64);
    let mut h: u64 = FNV_OFFSET;
    let mut i: usize = 0;
    while i < cs.len()
        invariant
            i <= cs@.len(),
            vs == cs@.map(|_i: int, c: char| c as u64),
            h == fnv_prefix(vs, i as int),
        decreases cs@.len() - i,
    {
        proof {
            assert(vs[i as int] == cs@[i as int] as u64);
        }
        h = fnv_fold(h, cs[i] as u64);
        i = i + 1;
    }
    h
}

/// Hashes a string's characters.
pub fn hash_str(s: &str) -> (r: u64)
    ensures
        r == text_hash(s@),
{
    let cs = crate::text::str_to_chars(s);
    hash_chars(&cs)
}

/// Hashes a byte vector.
pub fn hash_bytes(bs: &Vec<u8>) -> (r: u64)
    ensures
        r == bytes_hash(bs@),
{
    let ghost vs = bs@.map(|_i: int, x: u8| x as u64);
    let mut h: u64 = FNV_OFFSET;
    let mut i: usize = 0;
    while i < bs.len()
        invariant
            i <= bs@.len(),
            vs == bs@.map(|_i: int, x: u8| x as u64),
            h == fnv_prefix(vs, i as int),
        decreases bs@.len() - i,
    {
        proof {
            assert(vs[i as int] == bs@[i as int] as u64);
        }
        h = fnv_fold(h, bs[i] as u64);
        i = i + 1;
    }
    h
}

} // verus!
