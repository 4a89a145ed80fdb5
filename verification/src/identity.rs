//! The caller-owned identity of one emitting context.
//!
//! A context holds the fixed, randomly drawn high half of the 128-bit trace
//! id and the low-half counter, which is bumped once per encoded batch.

use vstd::prelude::*;

verus! {

/// The trace-id pair of one emitting context: a fixed `high` half and a
/// monotonically increasing `low` counter.
pub struct IdentityContext {
    pub high: i64,
    pub low: i64,
}

/// Relies on rand::random: draws an arbitrary 64-bit value; nothing is
/// promised of it.
#[verifier::external_body]
fn random_i64() -> i64 {
    rand::random()
}

impl IdentityContext {
    /// A fresh context: the high half drawn from the process's random
    /// source, the low counter at zero.
    pub fn from_entropy() -> (r: IdentityContext)
        ensures
            r.low == 0,
    {
        IdentityContext { high: random_i64(), low: 0 }
    }

    /// A context with a chosen high half, the low counter at zero.
    pub fn new(high: i64) -> (r: IdentityContext)
        ensures
            r.high == high,
            r.low == 0,
    {
        IdentityContext { high, low: 0 }
    }

    /// Bump the low counter for the next batch and give its new value.
    pub fn next_low(&mut self) -> (r: i64)
        requires
            old(self).low < i64::MAX,
        ensures
            final(self).low == old(self).low + 1,
            final(self).high == old(self).high,
            r == old(self).low + 1,
    {
        self.low = self.low + 1;
        self.low
    }
}

} // verus!
