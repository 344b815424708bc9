//! Keys of the cache: what the index needs to file a key and find it again.

use std::collections::hash_map::DefaultHasher;
use std::hash::Hasher;
use vstd::prelude::*;
use vstd::std_specs::hash::DefaultHasherAdditionalSpecFns;

verus! {

/// The number of stripes of the index.
pub const BUCKETS: u64 = 16;

/// A type whose values can serve as keys of the cache.
///
/// Two keys are the same key when their views are equal. The digest decides
/// where a key is filed; it depends on the view alone, so a key is always
/// found where it was put.
pub trait CacheKey: View + Sized {
    /// The digest of a key with view `v`.
    spec fn digest(v: Self::V) -> u64;

    /// Computes the digest of this key.
    fn hash_key(&self) -> (h: u64)
        ensures
            h == Self::digest(self@),
    ;

    /// Tells whether `other` is the same key.
    fn same_key(&self, other: &Self) -> (b: bool)
        ensures
            b == (self@ == other@),
    ;

    /// A second copy of this key.
    fn copy_key(&self) -> (c: Self)
        ensures
            c@ == self@,
    ;
}

/// The digest that the standard hasher gives to one write of `bytes`.
pub open spec fn digest_of_bytes(bytes: Seq<u8>) -> u64 {
    DefaultHasher::spec_finish(seq![bytes])
}

/// Hashes one run of bytes with the standard hasher.
pub fn hash_bytes(bytes: &[u8]) -> (h: u64)
    ensures
        h == digest_of_bytes(bytes@),
{
    let mut state = DefaultHasher::new();
    state.write(bytes);
    assert(state@ =~= seq![bytes@]);
    state.finish()
}

impl CacheKey for String {
    open spec fn digest(v: Seq<char>) -> u64 {
        digest_of_bytes(vstd::utf8::encode_utf8(v))
    }

    fn hash_key(&self) -> (h: u64) {
        hash_bytes(self.as_str().as_bytes())
    }

    fn same_key(&self, other: &Self) -> (b: bool) {
        *self == *other
    }

    fn copy_key(&self) -> (c: Self) {
        self.clone()
    }
}

impl CacheKey for u64 {
    open spec fn digest(v: u64) -> u64 {
        v
    }

    fn hash_key(&self) -> (h: u64) {
        *self
    }

    fn same_key(&self, other: &Self) -> (b: bool) {
        *self == *other
    }

    fn copy_key(&self) -> (c: Self) {
        *self
    }
}

impl CacheKey for usize {
    open spec fn digest(v: usize) -> u64 {
        v as u64
    }

    fn hash_key(&self) -> (h: u64) {
        *self as u64
    }

    fn same_key(&self, other: &Self) -> (b: bool) {
        *self == *other
    }

    fn copy_key(&self) -> (c: Self) {
        *self
    }
}

impl CacheKey for u32 {
    open spec fn digest(v: u32) -> u64 {
        v as u64
    }

    fn hash_key(&self) -> (h: u64) {
        *self as u64
    }

    fn same_key(&self, other: &Self) -> (b: bool) {
        *self == *other
    }

    fn copy_key(&self) -> (c: Self) {
        *self
    }
}

impl CacheKey for i32 {
    open spec fn digest(v: i32) -> u64 {
        (v + 0x8000_0000) as u64
    }

    fn hash_key(&self) -> (h: u64) {
        (*self as i64 + 0x8000_0000) as u64
    }

    fn same_key(&self, other: &Self) -> (b: bool) {
        *self == *other
    }

    fn copy_key(&self) -> (c: Self) {
        *self
    }
}

impl CacheKey for i64 {
    open spec fn digest(v: i64) -> u64 {
        (v + 0x8000_0000_0000_0000) as u64
    }

    fn hash_key(&self) -> (h: u64) {
        (*self as i128 + 0x8000_0000_0000_0000) as u64
    }

    fn same_key(&self, other: &Self) -> (b: bool) {
        *self == *other
    }

    fn copy_key(&self) -> (c: Self) {
        *self
    }
}

} // verus!
