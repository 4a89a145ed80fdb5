//! Zigzag transforms for 32- and 64-bit signed integers.
//!
//! Zigzag encoding maps a signed integer to an unsigned one so that values of
//! small magnitude stay small, which keeps their varint form short.

use vstd::prelude::*;

verus! {

/// The zigzag image of a 32-bit signed integer: `0, -1, 1, -2, 2, ...` map to
/// `0, 1, 2, 3, 4, ...`.
pub open spec fn zigzag32(n: i32) -> u32 {
    if n >= 0 {
        (2 * n) as u32
    } else {
        (-2 * n - 1) as u32
    }
}

/// The zigzag image of a 64-bit signed integer.
pub open spec fn zigzag64(n: i64) -> u64 {
    if n >= 0 {
        (2 * n) as u64
    } else {
        (-2 * n - 1) as u64
    }
}

/// The inverse transform: even codes are non-negative, odd codes negative.
pub open spec fn unzigzag32(u: u32) -> i32 {
    if u % 2 == 0 {
        (u / 2) as i32
    } else {
        (-((u + 1) / 2)) as i32
    }
}

/// The inverse transform for 64-bit codes.
pub open spec fn unzigzag64(u: u64) -> i64 {
    if u % 2 == 0 {
        (u / 2) as i64
    } else {
        (-((u + 1) / 2)) as i64
    }
}

/// Zigzag-encode a 32-bit signed integer.
pub fn from_i32(n: i32) -> (r: u32)
    ensures
        r == zigzag32(n),
{
    if n >= 0 {
        2 * (n as u32)
    } else {
        let m: i64 = n as i64;
        let t: i64 = -1 - m - m;
        t as u32
    }
}

/// Zigzag-encode a 64-bit signed integer.
pub fn from_i64(n: i64) -> (r: u64)
    ensures
        r == zigzag64(n),
{
    if n >= 0 {
        2 * (n as u64)
    } else {
        let m: i128 = n as i128;
        let t: i128 = -1 - m - m;
        t as u64
    }
}

/// Decoding a zigzag code recovers the signed value it came from: the
/// transform loses nothing on any representable input.
pub proof fn lemma_zigzag32_round_trip(n: i32)
    ensures
        unzigzag32(zigzag32(n)) == n,
{
}

/// Decoding a 64-bit zigzag code recovers the signed value it came from.
pub proof fn lemma_zigzag64_round_trip(n: i64)
    ensures
        unzigzag64(zigzag64(n)) == n,
{
}

/// Every 32-bit code is the zigzag image of the value it decodes to: together
/// with the round trip above, the transform is a bijection.
pub proof fn lemma_unzigzag32_round_trip(u: u32)
    ensures
        zigzag32(unzigzag32(u)) == u,
{
}

/// Every 64-bit code is the zigzag image of the value it decodes to.
pub proof fn lemma_unzigzag64_round_trip(u: u64)
    ensures
        zigzag64(unzigzag64(u)) == u,
{
}

} // verus!
