//! The capability set of the encryption scheme that the protocol relies on.
//!
//! Values travel in the debug encoding, where a ciphertext carries its plaintext,
//! so every operation here is data-independent and equals its plaintext meaning.
use vstd::prelude::*;

verus! {

/// `x <= y` on encrypted timestamps.
pub fn le(x: u64, y: u64) -> (r: bool)
    ensures
        r == (x <= y),
{
    x <= y
}

/// `x == y` on encrypted 64-bit values.
pub fn eq(x: u64, y: u64) -> (r: bool)
    ensures
        r == (x == y),
{
    x == y
}

/// Negation of an encrypted boolean.
pub fn not(c: bool) -> (r: bool)
    ensures
        r == !c,
{
    !c
}

/// Oblivious selection: `x` when `c` holds, else `y`.
pub fn select(c: bool, x: u16, y: u16) -> (r: u16)
    ensures
        r == (if c { x } else { y }),
{
    if c {
        x
    } else {
        y
    }
}

/// Value of `x + n`, held at `u64::MAX` where it would exceed it.
pub open spec fn bumped(x: u64, n: int) -> u64 {
    if x + n > u64::MAX {
        u64::MAX
    } else {
        (x + n) as u64
    }
}

/// Bumping twice is bumping by the sum.
pub proof fn lemma_bumped_twice(x: u64, n: int, m: int)
    requires
        n >= 0,
        m >= 0,
    ensures
        bumped(bumped(x, n), m) == bumped(x, n + m),
{
}

/// Running counters of homomorphic operations, kept for cost measurement.
#[derive(Clone, Copy, Debug)]
pub struct OperationCounts {
    pub case_id_comparisons: u64,
    pub timestamp_comparisons: u64,
    pub selections: u64,
}

impl OperationCounts {
    /// All counters at zero.
    pub fn new() -> (r: OperationCounts)
        ensures
            r.case_id_comparisons == 0,
            r.timestamp_comparisons == 0,
            r.selections == 0,
    {
        OperationCounts { case_id_comparisons: 0, timestamp_comparisons: 0, selections: 0 }
    }

    /// Adds `n` case-ID comparisons.
    pub fn add_case_id_comparisons(&mut self, n: u64)
        ensures
            final(self).case_id_comparisons == bumped(old(self).case_id_comparisons, n as int),
            final(self).timestamp_comparisons == old(self).timestamp_comparisons,
            final(self).selections == old(self).selections,
    {
        self.case_id_comparisons = self.case_id_comparisons.saturating_add(n);
    }

    /// Adds `n` timestamp comparisons.
    pub fn add_timestamp_comparisons(&mut self, n: u64)
        ensures
            final(self).timestamp_comparisons == bumped(old(self).timestamp_comparisons, n as int),
            final(self).case_id_comparisons == old(self).case_id_comparisons,
            final(self).selections == old(self).selections,
    {
        self.timestamp_comparisons = self.timestamp_comparisons.saturating_add(n);
    }

    /// Adds `n` selections.
    pub fn add_selections(&mut self, n: u64)
        ensures
            final(self).selections == bumped(old(self).selections, n as int),
            final(self).case_id_comparisons == old(self).case_id_comparisons,
            final(self).timestamp_comparisons == old(self).timestamp_comparisons,
    {
        self.selections = self.selections.saturating_add(n);
    }
}

} // verus!
