//! The order of the data.

use crate::binary32::grid::{lemma_scaled_increasing, lemma_scaled_monotone, lemma_scaled_zero};
use crate::binary32::Binary32;
use vstd::prelude::*;

verus! {

/// Whether `a` is greater than `b`: false where either is a NaN; the zeros of
/// both signs are equal.
#[verifier::opaque]
pub open spec fn greater(a: Binary32, b: Binary32) -> bool {
    !a.is_nan() && !b.is_nan() && a.value() > b.value()
}

impl Binary32 {
    /// Whether `self` is greater than `other`.
    pub fn greater_than(self, other: Binary32) -> (r: bool)
        ensures
            r == greater(self, other),
    {
        reveal(greater);
        if self.is_nan() || other.is_nan() {
            return false;
        }
        let pa: u32 = self.magnitude_bits();
        let pb: u32 = other.magnitude_bits();
        proof {
            lemma_scaled_zero();
            if pa > 0 {
                lemma_scaled_increasing(0, pa as nat);
            }
            if pb > 0 {
                lemma_scaled_increasing(0, pb as nat);
            }
            if pa > pb {
                lemma_scaled_increasing(pb as nat, pa as nat);
            } else {
                lemma_scaled_monotone(pa as nat, pb as nat);
            }
            if pb > pa {
                lemma_scaled_increasing(pa as nat, pb as nat);
            }
        }
        if self.is_negative() {
            other.is_negative() && pa < pb
        } else if other.is_negative() {
            pa > 0 || pb > 0
        } else {
            pa > pb
        }
    }
}

} // verus!
