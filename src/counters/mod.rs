//! Accumulators of signed sums of powers of two.
use vstd::arithmetic::power2::pow2;
use vstd::prelude::*;

pub mod bignum;

verus! {

/// An integer changed only by adding or subtracting a power of two, and
/// compared only against a power of two.
pub trait Counter: Sized {
    /// The representation invariant.
    spec fn wf(&self) -> bool;

    /// The integer held.
    spec fn value(&self) -> int;

    /// Zero, with room for magnitudes up to `2^max_bit_hint`.
    fn new(max_bit_hint: u32) -> (r: Self)
        ensures
            r.wf(),
            r.value() == 0,
    ;

    /// Whether the value is exactly `2^power_of_two`.
    fn equal(&self, power_of_two: u32) -> (r: bool)
        requires
            self.wf(),
        ensures
            r == (self.value() == pow2(power_of_two as nat)),
    ;

    /// Whether the value is below `2^power_of_two`.
    fn less_than(&self, power_of_two: u32) -> (r: bool)
        requires
            self.wf(),
        ensures
            r == (self.value() < pow2(power_of_two as nat)),
    ;

    /// Adds `2^power_of_two`.
    fn add(&mut self, power_of_two: u32)
        requires
            old(self).wf(),
        ensures
            final(self).wf(),
            final(self).value() == old(self).value() + pow2(power_of_two as nat),
    ;

    /// Subtracts `2^power_of_two`.
    fn sub(&mut self, power_of_two: u32)
        requires
            old(self).wf(),
        ensures
            final(self).wf(),
            final(self).value() == old(self).value() - pow2(power_of_two as nat),
    ;
}

} // verus!
