//! The hash primitive behind the router: one independent, stateless
//! hashing round per call. A fresh `DefaultHasher` consumes the four
//! bytes of a 32-bit value and yields a 64-bit digest; no hasher state
//! is retained across calls.

use core::hash::Hasher;
use std::collections::hash_map::DefaultHasher;
use vstd::prelude::*;
use vstd::std_specs::hash::DefaultHasherAdditionalSpecFns;

verus! {

/// The four bytes of a 32-bit value, least significant first: the byte
/// stream one hashing round feeds to the hasher.
pub open spec fn value_bytes(value: u32) -> Seq<u8> {
    seq![
        (value & 0xff) as u8,
        ((value >> 8) & 0xff) as u8,
        ((value >> 16) & 0xff) as u8,
        ((value >> 24) & 0xff) as u8,
    ]
}

/// The 64-bit digest of one hashing round on `value`: what a fresh
/// `DefaultHasher` returns after consuming `value_bytes(value)`.
pub open spec fn digest(value: u32) -> u64 {
    DefaultHasher::spec_finish(seq![value_bytes(value)])
}

/// Runs one hashing round: writes the bytes of `value` into a fresh
/// `DefaultHasher` and finishes it.
pub fn digest_of(value: u32) -> (d: u64)
    ensures
        d == digest(value),
{
    let mut bytes: Vec<u8> = Vec::new();
    bytes.push((value & 0xff) as u8);
    bytes.push(((value >> 8) & 0xff) as u8);
    bytes.push(((value >> 16) & 0xff) as u8);
    bytes.push(((value >> 24) & 0xff) as u8);
    let mut hasher = DefaultHasher::new();
    hasher.write(bytes.as_slice());
    proof {
        assert(bytes@ =~= value_bytes(value));
        assert(hasher@ =~= seq![value_bytes(value)]);
    }
    hasher.finish()
}

} // verus!
