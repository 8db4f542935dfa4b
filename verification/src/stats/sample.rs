//! Raw sample generation: byte streams pulled from a QPP-RNG source in
//! fixed-size chunks, for the external tools that read sample files.

use crate::rng_core::QppRngSource;
use vstd::prelude::*;

verus! {

/// SP 800-90B's minimum recommended sample size for an entropy source
/// evaluation: one million one-byte samples.
pub const MIN_SAMPLE_BYTES: usize = 1_000_000;

/// Bytes pulled from the source per `fill_bytes` call while streaming a
/// sample.
pub const CHUNK_BYTES: usize = 65536;

/// `sample` splits into chunks of `CHUNK_BYTES` (the last possibly
/// shorter), and `states` is the chain of source states from `s0` to
/// `s1` in which state `i` produced chunk `i`.
pub open spec fn chunk_chain<R: QppRngSource>(states: Seq<R>, s0: R, s1: R, sample: Seq<u8>) -> bool {
    let n = (sample.len() + CHUNK_BYTES - 1) / (CHUNK_BYTES as int);
    &&& states.len() == n + 1
    &&& states[0] == s0
    &&& states.last() == s1
    &&& forall|i: int|
        0 <= i < n ==> (#[trigger] states[i]).produced(
            &states[i + 1],
            sample.subrange(
                i * CHUNK_BYTES,
                if (i + 1) * CHUNK_BYTES < sample.len() {
                    (i + 1) * CHUNK_BYTES
                } else {
                    sample.len() as int
                },
            ),
        )
}

/// The source went from `s0` to `s1` producing `sample` a chunk at a
/// time.
pub open spec fn produced_in_chunks<R: QppRngSource>(s0: R, s1: R, sample: Seq<u8>) -> bool {
    exists|states: Seq<R>| #[trigger] chunk_chain(states, s0, s1, sample)
}

/// Appends `n_bytes` of raw output from `rng` to `out`, pulled a chunk of
/// `CHUNK_BYTES` at a time. A sample smaller than `MIN_SAMPLE_BYTES` is
/// not one the external tools are validated for, so it is never made.
pub fn generate_sample<R: QppRngSource>(rng: &mut R, out: &mut Vec<u8>, n_bytes: usize)
    requires
        n_bytes >= MIN_SAMPLE_BYTES,
        old(rng).well_formed(),
    ensures
        final(rng).well_formed(),
        final(out)@.len() == old(out)@.len() + n_bytes,
        final(out)@.take(old(out)@.len() as int) == old(out)@,
        produced_in_chunks(*old(rng), *final(rng), final(out)@.skip(old(out)@.len() as int)),
{
    let ghost start = out@.len();
    let ghost s0 = *rng;
    let ghost mut states: Seq<R> = seq![s0];
    let mut remaining = n_bytes;
    while remaining > 0
        invariant
            rng.well_formed(),
            remaining <= n_bytes,
            out@.len() == start + (n_bytes - remaining),
            out@.take(start as int) == old(out)@,
            start == old(out)@.len(),
            (n_bytes - remaining) % (CHUNK_BYTES as int) == 0 || remaining == 0,
            chunk_chain(states, s0, *rng, out@.skip(start as int)),
        decreases remaining,
    {
        let take = if remaining < CHUNK_BYTES {
            remaining
        } else {
            CHUNK_BYTES
        };
        let mut chunk: Vec<u8> = vec![0u8; take];
        let ghost before = *rng;
        let ghost old_out = out@;
        rng.fill_bytes(chunk.as_mut_slice());
        let ghost piece = chunk@;
        out.append(&mut chunk);
        proof {
            let done = (n_bytes - remaining) as int;
            let k = done / (CHUNK_BYTES as int);
            let sample = out@.skip(start as int);
            let prev = old_out.skip(start as int);
            assert(done == k * CHUNK_BYTES);
            assert(prev.len() == done);
            assert(sample.len() == done + take);
            assert((done + CHUNK_BYTES - 1) / (CHUNK_BYTES as int) == k) by {
                assert(done + CHUNK_BYTES - 1 == k * CHUNK_BYTES + (CHUNK_BYTES - 1));
            }
            assert((done + take + CHUNK_BYTES - 1) / (CHUNK_BYTES as int) == k + 1) by {
                assert(done + take + CHUNK_BYTES - 1 == (k + 1) * CHUNK_BYTES + (take - 1));
            }
            let st = states.push(*rng);
            assert forall|i: int| 0 <= i < k + 1 implies (#[trigger] st[i]).produced(
                &st[i + 1],
                sample.subrange(
                    i * CHUNK_BYTES,
                    if (i + 1) * CHUNK_BYTES < sample.len() {
                        (i + 1) * CHUNK_BYTES
                    } else {
                        sample.len() as int
                    },
                ),
            ) by {
                if i < k {
                    assert(st[i] == states[i]);
                    assert(st[i + 1] == states[i + 1]);
                    assert((i + 1) * CHUNK_BYTES <= done) by (nonlinear_arith)
                        requires
                            i + 1 <= k,
                            done == k * CHUNK_BYTES,
                    ;
                    assert(i * CHUNK_BYTES <= (i + 1) * CHUNK_BYTES) by (nonlinear_arith)
                        requires
                            i >= 0,
                    ;
                    let hi_new = if (i + 1) * CHUNK_BYTES < sample.len() {
                        (i + 1) * CHUNK_BYTES
                    } else {
                        sample.len() as int
                    };
                    let hi_old = if (i + 1) * CHUNK_BYTES < prev.len() {
                        (i + 1) * CHUNK_BYTES
                    } else {
                        prev.len() as int
                    };
                    assert(hi_new == hi_old);
                    assert(sample.subrange(i * CHUNK_BYTES, hi_new) =~= prev.subrange(
                        i * CHUNK_BYTES,
                        hi_old,
                    ));
                } else {
                    assert(i == k);
                    assert(st[i] == before);
                    assert(sample.subrange(i * CHUNK_BYTES, sample.len() as int) =~= piece);
                    if (i + 1) * CHUNK_BYTES < sample.len() {
                        assert(false);
                    }
                }
            }
            assert(out@.take(start as int) =~= old_out.take(start as int));
            states = st;
        }
        remaining = remaining - take;
    }
    proof {
        assert(chunk_chain(states, s0, *rng, out@.skip(start as int)));
    }
}

} // verus!
