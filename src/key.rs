use std::rc::Rc;

use vstd::prelude::*;

verus! {

/// Odd multiplier that spreads consecutive integers over the table.
pub const HASH_MULTIPLIER: u64 = 0x9E37_79B9_7F4A_7C15;

/// The hash of an integer key, given its bits as a `u64`.
pub open spec fn mix(x: u64) -> u64 {
    vstd::wrapping::u64_specs::wrapping_mul(x, HASH_MULTIPLIER)
}

pub fn mix_bits(x: u64) -> (r: u64)
    ensures
        r == mix(x),
{
    x.wrapping_mul(HASH_MULTIPLIER)
}

/// A key that the map can place: a hash that depends on the key alone, and
/// an equality test that agrees with equality of values.
pub trait HashKey: Sized {
    /// The hash of this key, as a value.
    spec fn spec_hash(&self) -> u64;

    fn hash_key(&self) -> (r: u64)
        ensures
            r == self.spec_hash(),
    ;

    fn key_eq(&self, other: &Self) -> (r: bool)
        ensures
            r == (*self == *other),
    ;

    /// A copy of the key, equal to it.
    fn clone_key(&self) -> (r: Self)
        ensures
            r == *self,
    ;
}

impl HashKey for u32 {
    open spec fn spec_hash(&self) -> u64 {
        mix(*self as u64)
    }

    fn hash_key(&self) -> (r: u64) {
        mix_bits(*self as u64)
    }

    fn key_eq(&self, other: &Self) -> (r: bool) {
        *self == *other
    }

    fn clone_key(&self) -> (r: Self) {
        *self
    }
}

impl HashKey for u64 {
    open spec fn spec_hash(&self) -> u64 {
        mix(*self)
    }

    fn hash_key(&self) -> (r: u64) {
        mix_bits(*self)
    }

    fn key_eq(&self, other: &Self) -> (r: bool) {
        *self == *other
    }

    fn clone_key(&self) -> (r: Self) {
        *self
    }
}

impl HashKey for usize {
    open spec fn spec_hash(&self) -> u64 {
        mix(*self as u64)
    }

    fn hash_key(&self) -> (r: u64) {
        mix_bits(*self as u64)
    }

    fn key_eq(&self, other: &Self) -> (r: bool) {
        *self == *other
    }

    fn clone_key(&self) -> (r: Self) {
        *self
    }
}

impl HashKey for i32 {
    open spec fn spec_hash(&self) -> u64 {
        mix(*self as u64)
    }

    fn hash_key(&self) -> (r: u64) {
        mix_bits(*self as u64)
    }

    fn key_eq(&self, other: &Self) -> (r: bool) {
        *self == *other
    }

    fn clone_key(&self) -> (r: Self) {
        *self
    }
}

impl HashKey for i64 {
    open spec fn spec_hash(&self) -> u64 {
        mix(*self as u64)
    }

    fn hash_key(&self) -> (r: u64) {
        mix_bits(*self as u64)
    }

    fn key_eq(&self, other: &Self) -> (r: bool) {
        *self == *other
    }

    fn clone_key(&self) -> (r: Self) {
        *self
    }
}

impl HashKey for isize {
    open spec fn spec_hash(&self) -> u64 {
        mix(*self as u64)
    }

    fn hash_key(&self) -> (r: u64) {
        mix_bits(*self as u64)
    }

    fn key_eq(&self, other: &Self) -> (r: bool) {
        *self == *other
    }

    fn clone_key(&self) -> (r: Self) {
        *self
    }
}

/// A key tagged by a number that carries a shared token: every copy of it
/// holds the same token, so the token's count of holders tells how many
/// copies are alive. Equality and hashing go by the tag.
pub struct Dropable {
    pub k: usize,
    pub token: Rc<()>,
}

impl Dropable {
    pub fn new(k: usize) -> (r: Dropable)
        ensures
            r.k == k,
    {
        Dropable { k, token: Rc::new(()) }
    }

    /// A key tagged `k` that holds `token`.
    pub fn with_token(k: usize, token: Rc<()>) -> (r: Dropable)
        ensures
            r.k == k,
    {
        Dropable { k, token }
    }
}

impl Clone for Dropable {
    fn clone(&self) -> (r: Self)
        ensures
            r == *self,
    {
        Dropable { k: self.k, token: self.token.clone() }
    }
}

impl HashKey for Dropable {
    open spec fn spec_hash(&self) -> u64 {
        mix(self.k as u64)
    }

    fn hash_key(&self) -> (r: u64) {
        mix_bits(self.k as u64)
    }

    fn key_eq(&self, other: &Self) -> (r: bool) {
        self.k == other.k
    }

    fn clone_key(&self) -> (r: Self) {
        self.clone()
    }
}

} // verus!
