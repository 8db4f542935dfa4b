//! Elapsed timer ticks per output byte, as a power proxy: nanoseconds on
//! host clocks, cycles on cycle-counter backends.

use crate::rng_core::QppRngSource;
use crate::timer::HighResTimer;
use vstd::prelude::*;

verus! {

/// Generates `n_bytes` from `rng`, reading `timer` just before and just
/// after, and returns the elapsed ticks between the two readings (with
/// wrapping, so a counter that wrapped around in between still gives the
/// elapsed count).
pub fn measure_fill_ticks<R: QppRngSource, T: HighResTimer>(
    rng: &mut R,
    timer: &mut T,
    n_bytes: usize,
) -> (total_ticks: u64)
    requires
        old(rng).well_formed(),
    ensures
        final(rng).well_formed(),
        exists|out: Seq<u8>| out.len() == n_bytes && #[trigger] old(rng).produced(final(rng), out),
        T::is_scripted() ==> ({
            let (t1, a) = old(timer).tick_spec();
            let (t2, b) = t1.tick_spec();
            *final(timer) == t2 && total_ticks == b.wrapping_sub(a)
        }),
{
    let mut buf: Vec<u8> = vec![0u8; n_bytes];
    let t0 = timer.tick();
    rng.fill_bytes(buf.as_mut_slice());
    let t1 = timer.tick();
    t1.wrapping_sub(t0)
}

} // verus!
