//! The sample every size-measurement firmware image produces: a fixed
//! number of bytes from one candidate, seeded like the other harness
//! tracks.

use crate::rng_core::QppRngSource;
use vstd::prelude::*;

verus! {

/// The seed every harness track uses by default.
pub const SEED: u128 = 0x5EED_0000_1111_2222_3333_4444_5555_6666;

/// Bytes each firmware image generates: small, since the images exist to
/// be measured for size, not throughput.
pub const SAMPLE_BYTES: usize = 64;

/// The next `SAMPLE_BYTES` output bytes of `rng`.
pub fn firmware_sample<R: QppRngSource>(rng: &mut R) -> (sample: [u8; SAMPLE_BYTES])
    requires
        old(rng).well_formed(),
    ensures
        final(rng).well_formed(),
        old(rng).produced(final(rng), sample@),
{
    let mut buf = [0u8; SAMPLE_BYTES];
    rng.fill_bytes(&mut buf);
    buf
}

} // verus!
