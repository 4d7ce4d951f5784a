//! A 64-bit hash that stays the same across sessions and machines.
//!
//! The algorithm is FNV-1a 64 followed by the splitmix64 finalizer.
//! Equal inputs always give equal values; interoperating with other
//! implementations is not a goal.

use vstd::prelude::*;
use crate::le_bytes::{u32_le, u32_to_le, u64_le, u64_to_le};
use vstd::utf8::encode_utf8;

verus! {

#[derive(Debug, Clone, Copy, PartialEq, Eq, PartialOrd, Ord, Hash, Default, Structural)]
pub struct Hash64(pub u64);

impl Hash64 {
    #[inline]
    pub fn from_u64(v: u64) -> (r: Self)
        ensures
            r.0 == v,
    {
        Hash64(v)
    }

    #[inline]
    pub fn as_u64(&self) -> (r: u64)
        ensures
            r == self.0,
    {
        self.0
    }
}

/// Values that can stand for a hash directly.
pub trait AsHash64 {
    spec fn spec_as_hash64(&self) -> Hash64;

    fn as_hash64(&self) -> (r: Hash64)
        ensures
            r == self.spec_as_hash64(),
    ;
}

impl AsHash64 for u64 {
    open spec fn spec_as_hash64(&self) -> Hash64 {
        Hash64(*self)
    }

    fn as_hash64(&self) -> (r: Hash64) {
        Hash64(*self)
    }
}

pub const FNV_OFFSET_BASIS: u64 = 0xcbf2_9ce4_8422_2325;

pub const FNV_PRIME: u64 = 0x0000_0100_0000_01b3;

/// One FNV-1a step: xor the byte in, then multiply (modulo 2^64).
pub open spec fn fnv_step(state: u64, b: u8) -> u64 {
    (state ^ (b as u64)).wrapping_mul(FNV_PRIME)
}

/// The state after feeding `bytes`, in order, to a hasher in state `state`.
pub open spec fn fnv_fold(state: u64, bytes: Seq<u8>) -> u64
    decreases bytes.len(),
{
    if bytes.len() == 0 {
        state
    } else {
        fnv_step(fnv_fold(state, bytes.drop_last()), bytes.last())
    }
}

/// Feeding two byte strings one after the other is feeding their concatenation.
pub proof fn lemma_fnv_fold_concat(state: u64, a: Seq<u8>, b: Seq<u8>)
    ensures
        fnv_fold(fnv_fold(state, a), b) == fnv_fold(state, a + b),
    decreases b.len(),
{
    if b.len() == 0 {
        assert(a + b =~= a);
    } else {
        lemma_fnv_fold_concat(state, a, b.drop_last());
        assert((a + b).drop_last() =~= a + b.drop_last());
        assert((a + b).last() == b.last());
    }
}

/// The splitmix64 finalizer, applied by [`StableHasher64::finish`].
pub open spec fn splitmix_finish(s: u64) -> u64 {
    let x1 = s ^ (s >> 30u64);
    let x2 = x1.wrapping_mul(0xbf58_476d_1ce4_e5b9u64);
    let x3 = x2 ^ (x2 >> 27u64);
    let x4 = x3.wrapping_mul(0x94d0_49bb_1331_11ebu64);
    x4 ^ (x4 >> 31u64)
}

/// The bytes that [`StableHasher64::write_bytes`] feeds for `bytes`:
/// the length as a little-endian `u64`, then the bytes themselves.
pub open spec fn length_prefixed(bytes: Seq<u8>) -> Seq<u8> {
    u64_le(bytes.len() as u64) + bytes
}

/// The hash of a byte stream: FNV-1a from the offset basis, then the finalizer:
/// what a new hasher's `finish` gives after being fed `bytes`.
pub open spec fn stream_hash(bytes: Seq<u8>) -> u64 {
    splitmix_finish(fnv_fold(FNV_OFFSET_BASIS, bytes))
}

#[derive(Debug, Clone, Copy)]
pub struct StableHasher64 {
    pub state: u64,
}

impl StableHasher64 {
    pub fn new() -> (r: Self)
        ensures
            r.state == FNV_OFFSET_BASIS,
    {
        StableHasher64 { state: FNV_OFFSET_BASIS }
    }

    /// Mixes raw bytes in, without their length.
    ///
    /// For values of varying length use [`Self::write_bytes`] or
    /// [`Self::write_str`].
    pub fn hash(&mut self, bytes: &[u8])
        ensures
            final(self).state == fnv_fold(old(self).state, bytes@),
    {
        let ghost s0 = self.state;
        let mut i: usize = 0;
        while i < bytes.len()
            invariant
                i <= bytes@.len(),
                self.state == fnv_fold(s0, bytes@.subrange(0, i as int)),
            decreases bytes@.len() - i,
        {
            let b = bytes[i];
            self.state = (self.state ^ (b as u64)).wrapping_mul(FNV_PRIME);
            assert(bytes@.subrange(0, i + 1).drop_last() =~= bytes@.subrange(0, i as int));
            i = i + 1;
        }
        assert(bytes@.subrange(0, bytes@.len() as int) =~= bytes@);
    }

    #[inline]
    pub fn write_u8(&mut self, v: u8)
        ensures
            final(self).state == fnv_fold(old(self).state, seq![v]),
    {
        let a = [v];
        assert(a@ =~= seq![v]);
        self.hash(&a);
    }

    #[inline]
    pub fn write_u32(&mut self, v: u32)
        ensures
            final(self).state == fnv_fold(old(self).state, u32_le(v)),
    {
        let a = u32_to_le(v);
        self.hash(&a);
    }

    #[inline]
    pub fn write_u64(&mut self, v: u64)
        ensures
            final(self).state == fnv_fold(old(self).state, u64_le(v)),
    {
        let a = u64_to_le(v);
        self.hash(&a);
    }

    #[inline]
    pub fn write_usize(&mut self, v: usize)
        ensures
            final(self).state == fnv_fold(old(self).state, u64_le(v as u64)),
    {
        self.write_u64(v as u64);
    }

    /// Mixes in the length, then the bytes.
    ///
    /// Without the length, `("ab", "c")` and `("a", "bc")` would collide.
    pub fn write_bytes(&mut self, bytes: &[u8])
        ensures
            final(self).state == fnv_fold(old(self).state, length_prefixed(bytes@)),
    {
        self.write_usize(bytes.len());
        self.hash(bytes);
        proof {
            lemma_fnv_fold_concat(old(self).state, u64_le(bytes@.len() as u64), bytes@);
        }
    }

    #[inline]
    pub fn write_str(&mut self, s: &str)
        ensures
            final(self).state == fnv_fold(old(self).state, length_prefixed(encode_utf8(s@))),
    {
        self.write_bytes(s.as_bytes());
    }

    #[inline]
    pub fn write_hash(&mut self, h: Hash64)
        ensures
            final(self).state == fnv_fold(old(self).state, u64_le(h.0)),
    {
        self.write_u64(h.as_u64());
    }

    /// FNV-1a spreads the high bits poorly, so the state goes through the
    /// splitmix64 finalizer.
    pub fn finish(self) -> (r: Hash64)
        ensures
            r.0 == splitmix_finish(self.state),
    {
        let mut x = self.state;
        x = x ^ (x >> 30u64);
        x = x.wrapping_mul(0xbf58_476d_1ce4_e5b9u64);
        x = x ^ (x >> 27u64);
        x = x.wrapping_mul(0x94d0_49bb_1331_11ebu64);
        x = x ^ (x >> 31u64);
        Hash64(x)
    }
}

impl Default for StableHasher64 {
    fn default() -> (r: Self)
        ensures
            r.state == FNV_OFFSET_BASIS,
    {
        Self::new()
    }
}

} // verus!
