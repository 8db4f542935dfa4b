//! The interface every QPP-RNG variant offers.

use vstd::prelude::*;

verus! {

/// Self-reported internals of the most recent output byte.
#[derive(Debug, Clone, Copy)]
pub struct RngDiagnostics {
    /// `floor(log2(N!))`: the entropy in bits of one uniformly drawn
    /// permutation of the generator's array width `N`.
    pub permutation_size_bits: u8,
    /// Pads drawn in the most recent convergence cycle.
    pub last_permutation_count: u64,
    /// Elapsed ticks of the most recent convergence cycle, in the timer's
    /// native units.
    pub last_jitter_ns: Option<u64>,
}

/// A byte source with self-reported diagnostics.
pub trait QppRngSource {
    /// The source's internal invariant, which every operation keeps.
    spec fn well_formed(&self) -> bool;

    /// Whether `diagnostics` can be computed for this source.
    spec fn diagnostics_available(&self) -> bool;

    /// What producing the output bytes `out` does to the source: from
    /// this state to `after`.
    spec fn produced(&self, after: &Self, out: Seq<u8>) -> bool;

    /// Fills `dst` entirely with output bytes.
    fn fill_bytes(&mut self, dst: &mut [u8])
        requires
            old(self).well_formed(),
        ensures
            final(self).well_formed(),
            final(dst)@.len() == old(dst)@.len(),
            old(self).produced(final(self), final(dst)@),
    ;

    /// Four output bytes, little-endian.
    fn next_u32(&mut self) -> (r: u32)
        requires
            old(self).well_formed(),
        ensures
            final(self).well_formed(),
            exists|bytes: Seq<u8>|
                bytes.len() == 4 && #[trigger] old(self).produced(final(self), bytes) && r
                    == vstd::bytes::spec_u32_from_le_bytes(bytes),
    ;

    /// Eight output bytes, little-endian.
    fn next_u64(&mut self) -> (r: u64)
        requires
            old(self).well_formed(),
        ensures
            final(self).well_formed(),
            exists|bytes: Seq<u8>|
                bytes.len() == 8 && #[trigger] old(self).produced(final(self), bytes) && r
                    == vstd::bytes::spec_u64_from_le_bytes(bytes),
    ;

    /// What `diagnostics` reports.
    spec fn diagnostics_spec(&self) -> RngDiagnostics;

    /// Internals of the most recent output byte.
    fn diagnostics(&self) -> (d: RngDiagnostics)
        requires
            self.diagnostics_available(),
        ensures
            d == self.diagnostics_spec(),
    ;
}

/// A clock reporting elapsed time in nanoseconds.
pub trait JitterClock {
    /// Current reading, in nanoseconds.
    fn tick(&mut self) -> u64;
}

/// A source whose output is a function of its state: from one state,
/// outputs of equal length are equal and leave the source in the same
/// state.
pub open spec fn produces_deterministically<R: QppRngSource>() -> bool {
    forall|s: R, a: R, b: R, x: Seq<u8>, y: Seq<u8>|
        #![trigger s.produced(&a, x), s.produced(&b, y)]
        s.produced(&a, x) && s.produced(&b, y) && x.len() == y.len() ==> x == y && a == b
}

} // verus!
