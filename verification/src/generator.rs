//! The QPP-RNG engine: a permutation-sort convergence walk timed by a
//! jitter clock, with the elapsed ticks folded back into the seed.
//!
//! One output byte runs `oversample` convergence cycles. Each cycle
//! reseeds the internal PRNG from the 128-bit seed, walks the symmetric
//! group from the identity by composing freshly drawn permutation pads
//! until the identity is reached again (counting the draws `n_p`), times
//! the walk, and folds the normalized elapsed ticks into the seed:
//! `seed = (seed << 8) | normalize(Δt)`. The byte is the XOR of the
//! cycles' `n_p mod 256`.

use crate::permutation::{apply_permutation, compose, generate_permutation, identity_permutation, identity_seq, is_permutation, lemma_compose_is_permutation, lemma_identity_is_permutation, lemma_pad_is_permutation, pad_spec};
use crate::prng::InternalPrng;
use crate::rng_core::{produces_deterministically, QppRngSource, RngDiagnostics};
use crate::timer::{normalize_tick, normalized_tick, HighResTimer};
use vstd::prelude::*;

verus! {

/// Default permutation-array width.
pub const DEFAULT_ARRAY_SIZE: usize = 5;

/// Default number of convergence cycles per output byte for arrays of
/// fewer than 6 elements.
pub const DEFAULT_OVERSAMPLE: u8 = 5;

/// Largest array width whose factorial fits in 64 bits.
pub const MAX_DIAGNOSED_ARRAY_SIZE: usize = 20;

/// The convergence walk: starting from arrangement `current` after
/// `count` draws, draw a pad, compose it on, and repeat until the
/// identity is reached. Returns the generator state after the walk and
/// the total number of draws. The count stops at `u64::MAX`.
pub open spec fn walk<P: InternalPrng>(p: P, current: Seq<u8>, n: nat, count: u64) -> (P, u64)
    decreases u64::MAX - count,
{
    if count == u64::MAX {
        (p, count)
    } else {
        let (p1, pad) = pad_spec(p, n);
        let next = compose(current, pad);
        let c1 = (count + 1) as u64;
        if next == identity_seq(n) || c1 == u64::MAX {
            (p1, c1)
        } else {
            walk(p1, next, n, c1)
        }
    }
}

/// A walk always draws at least one pad.
pub proof fn lemma_walk_draws<P: InternalPrng>(p: P, current: Seq<u8>, n: nat, count: u64)
    requires
        count < u64::MAX,
    ensures
        walk(p, current, n, count).1 > count,
    decreases u64::MAX - count,
{
    let (p1, pad) = pad_spec(p, n);
    let next = compose(current, pad);
    let c1 = (count + 1) as u64;
    if !(next == identity_seq(n) || c1 == u64::MAX) {
        lemma_walk_draws(p1, next, n, c1);
    }
}

/// One convergence cycle from `seed`: reseed, then walk from the
/// identity. `(generator state after, draws n_p)`.
pub open spec fn cycle_spec<P: InternalPrng>(seed: u128, n: nat) -> (P, u64) {
    walk(P::seeded(seed), identity_seq(n), n, 0)
}

/// Seed evolution: shift the 128-bit seed left one byte and put the
/// normalized elapsed ticks in the freed low byte.
pub open spec fn evolved_seed(seed: u128, delta: u64, k: u8) -> u128 {
    (seed << 8u128) | (normalized_tick(delta, k) as u128)
}

/// `(timer state after, elapsed ticks of each cycle)` for `m` cycles
/// timed by a scripted timer: two ticks per cycle.
pub open spec fn jitter_script<T: HighResTimer>(t: T, m: nat) -> (T, Seq<u64>)
    decreases m,
{
    if m == 0 {
        (t, Seq::empty())
    } else {
        let (t1, ds) = jitter_script(t, (m - 1) as nat);
        let (t2, a) = t1.tick_spec();
        let (t3, b) = t2.tick_spec();
        (t3, ds.push(b.wrapping_sub(a)))
    }
}

/// `floor(log2(x))` for `x >= 1`.
pub open spec fn floor_log2(x: nat) -> nat
    decreases x,
{
    if x <= 1 {
        0
    } else {
        1 + floor_log2(x / 2)
    }
}

/// `n!`.
pub open spec fn factorial(n: nat) -> nat
    decreases n,
{
    if n == 0 {
        1
    } else {
        n * factorial((n - 1) as nat)
    }
}

/// The XOR of a sequence of bytes (`0` for none).
pub open spec fn xor_all(bytes: Seq<u8>) -> u8
    decreases bytes.len(),
{
    if bytes.len() == 0 {
        0
    } else {
        xor_all(bytes.drop_last()) ^ bytes.last()
    }
}

/// `seeds` are the seeds before and after each of the cycles timed
/// `ds`: each cycle's elapsed ticks are folded into the seed it ran on.
pub open spec fn seed_chain(seeds: Seq<u128>, ds: Seq<u64>, k: u8) -> bool {
    &&& seeds.len() == ds.len() + 1
    &&& forall|i: int|
        0 <= i < ds.len() ==> seeds[i + 1] == evolved_seed(#[trigger] seeds[i], ds[i], k)
}

/// The low byte (`n_p mod 256`) of the draw count of each of the first
/// `m` cycles, cycle `i` run on `seeds[i]` with an array of width `n`.
pub open spec fn cycle_low_bytes<P: InternalPrng>(seeds: Seq<u128>, m: nat, n: nat) -> Seq<u8> {
    Seq::new(m, |i: int| (cycle_spec::<P>(seeds[i], n).1 % 256) as u8)
}

/// Every entry of `s` is below `n`.
pub open spec fn entries_below(s: Seq<u8>, n: nat) -> bool {
    forall|i: int| 0 <= i < s.len() ==> (#[trigger] s[i]) < n
}

/// Pads of any width index within their width.
proof fn lemma_pad_entries_below<P: InternalPrng>(p: P, n: nat)
    requires
        n <= 0xFFFF_FFFF,
    ensures
        pad_spec(p, n).1.len() == n,
        entries_below(pad_spec(p, n).1, n),
{
    crate::permutation::lemma_pad_len(p, n);
    if n <= 256 {
        lemma_pad_is_permutation(p, n);
    } else {
        assert forall|i: int| 0 <= i < pad_spec(p, n).1.len() implies (#[trigger] pad_spec(
            p,
            n,
        ).1[i]) < n by {
            let v = pad_spec(p, n).1[i];
            assert(v <= 255);
        }
    }
}

/// Calls `core::hint::black_box` on the arrangement so the optimizer
/// treats every iteration's array as observed memory traffic; it changes
/// nothing and returns nothing.
#[verifier::external_body]
fn observe(arrangement: &Vec<u8>) {
    core::hint::black_box(arrangement);
}

/// Whether two arrangements are equal.
fn same_arrangement(a: &Vec<u8>, b: &Vec<u8>) -> (r: bool)
    ensures
        r == (a@ == b@),
{
    if a.len() != b.len() {
        return false;
    }
    let mut i: usize = 0;
    while i < a.len()
        invariant
            a@.len() == b@.len(),
            i <= a@.len(),
            forall|j: int| 0 <= j < i ==> a@[j] == b@[j],
        decreases a@.len() - i,
    {
        if a[i] != b[i] {
            return false;
        }
        i = i + 1;
    }
    assert(a@ =~= b@);
    true
}

/// The QPP-RNG engine: array width `N`, internal PRNG `P` drawing the
/// permutation pads, and jitter clock `T`.
pub struct QppRng<P, T, const N: usize> {
    prng: P,
    timer: T,
    tuning: Tuning<N>,
    seed: u128,
    last_permutation_count: u64,
    last_jitter_ticks: u64,
}

/// The fixed parameters of a generator: native timer resolution `k` and
/// convergence cycles per byte, both at least `1`, for an array width
/// `N` that fits in 32 bits.
struct Tuning<const N: usize> {
    k: u8,
    oversample: u8,
}

impl<const N: usize> Tuning<N> {
    #[verifier::type_invariant]
    spec fn well_formed(self) -> bool {
        &&& self.k >= 1
        &&& self.oversample >= 1
        &&& N <= 0xFFFF_FFFF
    }
}

impl<P: InternalPrng, T: HighResTimer, const N: usize> QppRng<P, T, N> {
    /// The internal PRNG's state.
    pub closed spec fn prng_state(self) -> P {
        self.prng
    }

    /// The jitter clock's state.
    pub closed spec fn timer_state(self) -> T {
        self.timer
    }

    /// The native timer resolution `k`.
    pub closed spec fn resolution(self) -> u8 {
        self.tuning.k
    }

    /// The evolving 128-bit seed.
    pub closed spec fn seed_value(self) -> u128 {
        self.seed
    }

    /// Convergence cycles per output byte.
    pub closed spec fn cycles_per_byte(self) -> u8 {
        self.tuning.oversample
    }

    /// Pads drawn in the most recent convergence cycle.
    pub closed spec fn last_count(self) -> u64 {
        self.last_permutation_count
    }

    /// Elapsed ticks of the most recent convergence cycle.
    pub closed spec fn last_jitter(self) -> u64 {
        self.last_jitter_ticks
    }

    /// The same generator with its clock replaced by `t`.
    pub closed spec fn with_timer(self, t: T) -> Self {
        QppRng { timer: t, ..self }
    }

    /// The same generator with `m` convergence cycles per byte.
    pub closed spec fn with_cycles(self, m: u8) -> Self {
        QppRng { tuning: Tuning { oversample: m, ..self.tuning }, ..self }
    }

    /// The generator after one convergence cycle that took `delta` ticks,
    /// and the running output byte `out` combined with that cycle's draw.
    pub closed spec fn after_cycle(self, out: u8, delta: u64) -> (Self, u8) {
        let (p1, n_p) = cycle_spec::<P>(self.seed, N as nat);
        (
            QppRng {
                prng: p1,
                seed: evolved_seed(self.seed, delta, self.tuning.k),
                last_permutation_count: n_p,
                last_jitter_ticks: delta,
                ..self
            },
            out ^ ((n_p % 256) as u8),
        )
    }

    /// The generator and output byte after cycles that took `deltas`
    /// ticks each, in order (the clock is left as it was).
    pub closed spec fn rounds(self, deltas: Seq<u64>) -> (Self, u8)
        decreases deltas.len(),
    {
        if deltas.len() == 0 {
            (self, 0u8)
        } else {
            let (s1, out) = self.rounds(deltas.drop_last());
            s1.after_cycle(out, deltas.last())
        }
    }

    /// What one `next_byte` call does: for some elapsed-tick readings
    /// `ds`, one per cycle, the generator advances by `rounds(ds)` and
    /// returns its byte; with a scripted clock `ds` are the script's.
    pub closed spec fn next_byte_post(s0: Self, s1: Self, r: u8) -> bool {
        exists|ds: Seq<u64>|
            {
                &&& ds.len() == s0.tuning.oversample
                &&& s1.last_permutation_count >= 1
                &&& #[trigger] s0.rounds(ds) == (s1.with_timer(s0.timer), r)
                &&& T::is_scripted() ==> jitter_script(s0.timer, s0.tuning.oversample as nat) == (
                    s1.timer,
                    ds,
                )
            }
    }

    /// After producing at least one byte, the most recent cycle drew at
    /// least one pad.
    pub proof fn lemma_bytes_report_activity(s0: Self, s1: Self, out: Seq<u8>)
        requires
            Self::bytes_post(s0, s1, out),
            out.len() > 0,
        ensures
            s1.last_count() >= 1,
    {
        let states = choose|states: Seq<Self>| #[trigger] Self::byte_chain(states, s0, s1, out);
        assert(Self::next_byte_post(states[out.len() - 1], states[out.len() as int], out[out.len() - 1]));
    }

    /// The seeds rounds run their cycles on, and the seed they leave.
    spec fn round_seeds(seed: u128, ds: Seq<u64>, k: u8) -> Seq<u128>
        decreases ds.len(),
    {
        if ds.len() == 0 {
            seq![seed]
        } else {
            let prev = Self::round_seeds(seed, ds.drop_last(), k);
            prev.push(evolved_seed(prev.last(), ds.last(), k))
        }
    }

    proof fn lemma_round_seeds_chain(seed: u128, ds: Seq<u64>, k: u8)
        ensures
            Self::round_seeds(seed, ds, k)[0] == seed,
            seed_chain(Self::round_seeds(seed, ds, k), ds, k),
        decreases ds.len(),
    {
        if ds.len() > 0 {
            Self::lemma_round_seeds_chain(seed, ds.drop_last(), k);
            let prev = Self::round_seeds(seed, ds.drop_last(), k);
            let cur = Self::round_seeds(seed, ds, k);
            assert forall|i: int| 0 <= i < ds.len() implies cur[i + 1] == evolved_seed(
                #[trigger] cur[i],
                ds[i],
                k,
            ) by {
                if i < ds.len() - 1 {
                    assert(cur[i] == prev[i]);
                    assert(cur[i + 1] == prev[i + 1]);
                    assert(ds[i] == ds.drop_last()[i]);
                }
            }
        }
    }

    /// Rounds XOR together the low bytes of their cycles' draw counts,
    /// each cycle run on the seed the previous ones left.
    proof fn lemma_rounds_xor(s: Self, ds: Seq<u64>)
        ensures
            s.rounds(ds).1 == xor_all(
                cycle_low_bytes::<P>(
                    Self::round_seeds(s.seed, ds, s.tuning.k),
                    ds.len(),
                    N as nat,
                ),
            ),
            s.rounds(ds).0.seed == Self::round_seeds(s.seed, ds, s.tuning.k).last(),
            s.rounds(ds).0.tuning == s.tuning,
        decreases ds.len(),
    {
        let k = s.tuning.k;
        if ds.len() == 0 {
            assert(cycle_low_bytes::<P>(Self::round_seeds(s.seed, ds, k), 0, N as nat) =~= Seq::<
                u8,
            >::empty());
        } else {
            Self::lemma_rounds_xor(s, ds.drop_last());
            let prev = Self::round_seeds(s.seed, ds.drop_last(), k);
            let cur = Self::round_seeds(s.seed, ds, k);
            Self::lemma_round_seeds_chain(s.seed, ds.drop_last(), k);
            assert(prev.len() == ds.len());
            assert(cur == prev.push(evolved_seed(prev.last(), ds.last(), k)));
            let lows = cycle_low_bytes::<P>(cur, ds.len(), N as nat);
            assert forall|i: int| 0 <= i < ds.len() - 1 implies cur[i] == prev[i] by {}
            assert(lows.drop_last() =~= cycle_low_bytes::<P>(prev, ds.drop_last().len(), N as nat));
            assert(cur[ds.len() - 1] == prev.last());
            let (s1, out) = s.rounds(ds.drop_last());
            assert(s.rounds(ds) == s1.after_cycle(out, ds.last()));
            assert(lows.last() == (cycle_spec::<P>(s1.seed, N as nat).1 % 256) as u8);
        }
    }

    /// Each output byte is the XOR of the low bytes (`n_p mod 256`) of
    /// its cycles' draw counts: with `ds` the elapsed ticks of the byte's
    /// cycles (the clock's script, for a scripted clock), cycle `i` runs on
    /// seed `seeds[i]`, starting from the generator's seed, and each
    /// cycle's ticks are folded into the next seed.
    pub proof fn lemma_next_byte_from_cycle_counts(s0: Self, s1: Self, r: u8)
        requires
            Self::next_byte_post(s0, s1, r),
        ensures
            exists|ds: Seq<u64>, seeds: Seq<u128>|
                {
                    &&& ds.len() == s0.cycles_per_byte()
                    &&& #[trigger] seed_chain(seeds, ds, s0.resolution())
                    &&& seeds[0] == s0.seed_value()
                    &&& seeds.last() == s1.seed_value()
                    &&& r == xor_all(cycle_low_bytes::<P>(seeds, ds.len(), N as nat))
                    &&& T::is_scripted() ==> ds == jitter_script(
                        s0.timer_state(),
                        s0.cycles_per_byte() as nat,
                    ).1
                },
    {
        let ds = choose|ds: Seq<u64>|
            {
                &&& ds.len() == s0.tuning.oversample
                &&& s1.last_permutation_count >= 1
                &&& #[trigger] s0.rounds(ds) == (s1.with_timer(s0.timer), r)
                &&& T::is_scripted() ==> jitter_script(s0.timer, s0.tuning.oversample as nat) == (
                    s1.timer,
                    ds,
                )
            };
        Self::lemma_rounds_xor(s0, ds);
        Self::lemma_round_seeds_chain(s0.seed, ds, s0.tuning.k);
        let seeds = Self::round_seeds(s0.seed, ds, s0.tuning.k);
        assert(seed_chain(seeds, ds, s0.resolution()));
    }

    /// A byte of a single cycle is that cycle's draw count modulo 256:
    /// all eight bits of its low byte, run on the generator's seed.
    pub proof fn lemma_single_cycle_byte(s0: Self, s1: Self, r: u8)
        requires
            s0.cycles_per_byte() == 1,
            Self::next_byte_post(s0, s1, r),
        ensures
            r as int == cycle_spec::<P>(s0.seed_value(), N as nat).1 as int % 256,
    {
        Self::lemma_next_byte_from_cycle_counts(s0, s1, r);
        let (ds, seeds) = choose|ds: Seq<u64>, seeds: Seq<u128>|
            {
                &&& ds.len() == s0.cycles_per_byte()
                &&& #[trigger] seed_chain(seeds, ds, s0.resolution())
                &&& seeds[0] == s0.seed_value()
                &&& seeds.last() == s1.seed_value()
                &&& r == xor_all(cycle_low_bytes::<P>(seeds, ds.len(), N as nat))
                &&& T::is_scripted() ==> ds == jitter_script(
                    s0.timer_state(),
                    s0.cycles_per_byte() as nat,
                ).1
            };
        let lows = cycle_low_bytes::<P>(seeds, 1, N as nat);
        assert(ds.len() == 1);
        assert(lows.drop_last() =~= Seq::<u8>::empty());
        let c = cycle_spec::<P>(s0.seed_value(), N as nat).1;
        assert(lows[0] == (c % 256) as u8);
        assert(lows.last() == (c % 256) as u8);
        assert(xor_all(lows) == xor_all(lows.drop_last()) ^ lows.last());
        assert(xor_all(lows.drop_last()) == 0);
        assert(0u8 ^ ((c % 256) as u8) == (c % 256) as u8) by (bit_vector);
    }

    /// Rounds of at least one cycle leave the last cycle's elapsed ticks
    /// as the last jitter reading, and keep the settings.
    proof fn lemma_rounds_last_jitter(s: Self, ds: Seq<u64>)
        requires
            ds.len() > 0,
        ensures
            s.rounds(ds).0.last_jitter_ticks == ds.last(),
        decreases ds.len(),
    {
    }

    /// With a scripted clock, one output byte times its cycles by the
    /// clock's script: the clock ends where `cycles_per_byte` timed
    /// cycles leave it, and the diagnosed jitter is the last cycle's
    /// elapsed ticks.
    pub proof fn lemma_next_byte_timing(s0: Self, s1: Self, r: u8)
        requires
            T::is_scripted(),
            s0.cycles_per_byte() >= 1,
            Self::next_byte_post(s0, s1, r),
        ensures
            s1.timer_state() == jitter_script(s0.timer_state(), s0.cycles_per_byte() as nat).0,
            s1.last_jitter() == jitter_script(s0.timer_state(), s0.cycles_per_byte() as nat).1.last(),
            s1.cycles_per_byte() == s0.cycles_per_byte(),
            s1.last_count() >= 1,
    {
        let ds = choose|ds: Seq<u64>|
            {
                &&& ds.len() == s0.tuning.oversample
                &&& s1.last_permutation_count >= 1
                &&& #[trigger] s0.rounds(ds) == (s1.with_timer(s0.timer), r)
                &&& T::is_scripted() ==> jitter_script(s0.timer, s0.tuning.oversample as nat) == (
                    s1.timer,
                    ds,
                )
            };
        Self::lemma_rounds_last_jitter(s0, ds);
        Self::lemma_rounds_keep_tuning(s0, ds);
    }

    /// Rounds keep the settings.
    proof fn lemma_rounds_keep_tuning(s: Self, ds: Seq<u64>)
        ensures
            s.rounds(ds).0.tuning == s.tuning,
        decreases ds.len(),
    {
        if ds.len() > 0 {
            Self::lemma_rounds_keep_tuning(s, ds.drop_last());
        }
    }

    /// Changing the cycles per byte changes nothing else.
    pub proof fn lemma_with_cycles(s: Self, m: u8)
        ensures
            s.with_cycles(m).cycles_per_byte() == m,
            s.with_cycles(m).prng_state() == s.prng_state(),
            s.with_cycles(m).timer_state() == s.timer_state(),
            s.with_cycles(m).resolution() == s.resolution(),
            s.with_cycles(m).seed_value() == s.seed_value(),
            s.with_cycles(m).last_count() == s.last_count(),
            s.with_cycles(m).last_jitter() == s.last_jitter(),
    {
    }

    /// Replacing the clock changes nothing else.
    pub proof fn lemma_with_timer(s: Self, t: T)
        ensures
            s.with_timer(t).timer_state() == t,
            s.with_timer(t).prng_state() == s.prng_state(),
            s.with_timer(t).cycles_per_byte() == s.cycles_per_byte(),
            s.with_timer(t).resolution() == s.resolution(),
            s.with_timer(t).seed_value() == s.seed_value(),
            s.with_timer(t).last_count() == s.last_count(),
            s.with_timer(t).last_jitter() == s.last_jitter(),
    {
    }

    /// Rounds on a one-element array: every cycle draws exactly one pad,
    /// so the byte is the parity of the number of cycles.
    proof fn lemma_unit_rounds(s: Self, ds: Seq<u64>)
        requires
            N == 1,
        ensures
            s.rounds(ds).1 == (ds.len() % 2) as u8,
            ds.len() > 0 ==> s.rounds(ds).0.last_permutation_count == 1,
            s.rounds(ds).0.tuning == s.tuning,
        decreases ds.len(),
    {
        if ds.len() > 0 {
            let (s1, out) = s.rounds(ds.drop_last());
            Self::lemma_unit_rounds(s, ds.drop_last());
            let id = identity_seq(1);
            assert(pad_spec(P::seeded(s1.seed), 1).1 == id);
            assert(compose(id, id) =~= id);
            assert(cycle_spec::<P>(s1.seed, N as nat).1 == 1);
            assert(0u8 ^ 1u8 == 1u8) by (bit_vector);
            assert(1u8 ^ 1u8 == 0u8) by (bit_vector);
        }
    }

    /// With a one-element array every convergence cycle draws exactly
    /// one pad, so each output byte is the parity of the cycles per byte:
    /// `1` under the default five cycles. (Every generator has at least
    /// one cycle per byte, as `oversample` reports.)
    pub proof fn lemma_unit_width_byte(s0: Self, s1: Self, r: u8)
        requires
            N == 1,
            s0.cycles_per_byte() >= 1,
            Self::next_byte_post(s0, s1, r),
        ensures
            r == (s0.cycles_per_byte() % 2) as u8,
            s1.last_count() == 1,
            s1.cycles_per_byte() == s0.cycles_per_byte(),
    {
        let ds = choose|ds: Seq<u64>|
            {
                &&& ds.len() == s0.tuning.oversample
                &&& s1.last_permutation_count >= 1
                &&& #[trigger] s0.rounds(ds) == (s1.with_timer(s0.timer), r)
                &&& T::is_scripted() ==> jitter_script(s0.timer, s0.tuning.oversample as nat) == (
                    s1.timer,
                    ds,
                )
            };
        Self::lemma_unit_rounds(s0, ds);
    }

    /// What producing the bytes `out` does: a chain of `out.len()`
    /// successive `next_byte` steps from `s0` to `s1`, step `i` producing
    /// `out[i]`.
    pub closed spec fn bytes_post(s0: Self, s1: Self, out: Seq<u8>) -> bool {
        exists|states: Seq<Self>| #[trigger] Self::byte_chain(states, s0, s1, out)
    }

    /// `states` is a chain of `next_byte` steps from `s0` to `s1`
    /// producing `out`.
    pub closed spec fn byte_chain(states: Seq<Self>, s0: Self, s1: Self, out: Seq<u8>) -> bool {
        &&& states.len() == out.len() + 1
        &&& states[0] == s0
        &&& states.last() == s1
        &&& forall|i: int|
            0 <= i < out.len() ==> Self::next_byte_post(
                #[trigger] states[i],
                states[i + 1],
                out[i],
            )
    }

    /// Runs one permutation-sort convergence cycle: reseed, then walk from
    /// the identity by composing freshly drawn pads until the identity is
    /// reached again. Returns `(n_p, Δt)`: the pads drawn and the elapsed
    /// ticks of the whole cycle.
    fn run_convergence_cycle(&mut self) -> (r: (u64, u64))
        ensures
            (final(self).prng, r.0) == cycle_spec::<P>(old(self).seed, N as nat),
            r.0 >= 1,
            final(self).seed == old(self).seed,
            final(self).tuning == old(self).tuning,
            final(self).last_permutation_count == old(self).last_permutation_count,
            final(self).last_jitter_ticks == old(self).last_jitter_ticks,
            T::is_scripted() ==> ({
                let (t1, a) = old(self).timer.tick_spec();
                let (t2, b) = t1.tick_spec();
                final(self).timer == t2 && r.1 == b.wrapping_sub(a)
            }),
    {
        proof {
            use_type_invariant(&self.tuning);
        }
        let ghost s0 = *self;
        self.prng.seed(self.seed);
        let identity = identity_permutation(N);
        let mut current = identity_permutation(N);
        let mut n_p: u64 = 0;
        let ghost target = cycle_spec::<P>(s0.seed, N as nat);
        proof {
            lemma_walk_draws(self.prng, identity_seq(N as nat), N as nat, 0);
        }
        let t0 = self.timer.tick();
        let ghost timer_mid = self.timer;
        loop
            invariant_except_break
                n_p < u64::MAX,
                walk(self.prng, current@, N as nat, n_p) == target,
            invariant
                N <= 0xFFFF_FFFF,
                current@.len() == N,
                identity@ == identity_seq(N as nat),
                entries_below(current@, N as nat),
                self.seed == s0.seed,
                self.tuning == s0.tuning,
                self.last_permutation_count == s0.last_permutation_count,
                self.last_jitter_ticks == s0.last_jitter_ticks,
                self.timer == timer_mid,
            ensures
                (self.prng, n_p) == target,
            decreases u64::MAX - n_p,
        {
            n_p = n_p + 1;
            proof {
                lemma_pad_entries_below(self.prng, N as nat);
            }
            let pad = generate_permutation(&mut self.prng, N);
            current = apply_permutation(&current, &pad);
            observe(&current);
            if same_arrangement(&current, &identity) || n_p == u64::MAX {
                break;
            }
        }
        let t1 = self.timer.tick();
        (n_p, t1.wrapping_sub(t0))
    }

    /// Folds one cycle's elapsed ticks into the seed:
    /// `seed = (seed << 8) | normalize_tick(delta, k)`.
    fn evolve_seed(&mut self, delta_ticks: u64)
        ensures
            final(self).seed == evolved_seed(old(self).seed, delta_ticks, old(self).tuning.k),
            final(self).prng == old(self).prng,
            final(self).timer == old(self).timer,
            final(self).tuning == old(self).tuning,
            final(self).last_permutation_count == old(self).last_permutation_count,
            final(self).last_jitter_ticks == old(self).last_jitter_ticks,
    {
        proof {
            use_type_invariant(&self.tuning);
        }
        let normalized = normalize_tick(delta_ticks, self.tuning.k);
        self.seed = (self.seed << 8) | (normalized as u128);
    }

    /// Generates the next raw output byte: runs `oversample` convergence
    /// cycles, evolving the seed after each, and XORs their
    /// `n_p mod 256` together.
    pub fn next_byte(&mut self) -> (b: u8)
        ensures
            Self::next_byte_post(*old(self), *final(self), b),
            final(self).last_count() >= 1,
    {
        proof {
            use_type_invariant(&self.tuning);
        }
        let ghost s0 = *self;
        let mut out: u8 = 0;
        let ghost mut ds: Seq<u64> = Seq::empty();
        let mut i: u8 = 0;
        while i < self.tuning.oversample
            invariant
                self.tuning == s0.tuning,
                i <= s0.tuning.oversample,
                ds.len() == i,
                i > 0 ==> self.last_permutation_count >= 1,
                s0.rounds(ds) == (self.with_timer(s0.timer), out),
                T::is_scripted() ==> jitter_script(s0.timer, i as nat) == (self.timer, ds),
            decreases s0.tuning.oversample - i,
        {
            let ghost before = *self;
            let (n_p, delta_ticks) = self.run_convergence_cycle();
            self.last_permutation_count = n_p;
            self.last_jitter_ticks = delta_ticks;
            self.evolve_seed(delta_ticks);
            let ghost out_before = out;
            out = out ^ ((n_p % 256) as u8);
            proof {
                let ds1 = ds.push(delta_ticks);
                assert(ds1.drop_last() =~= ds);
                assert(s0.rounds(ds1) == before.with_timer(s0.timer).after_cycle(out_before, delta_ticks));
                assert(self.with_timer(s0.timer) == before.with_timer(s0.timer).after_cycle(out_before, delta_ticks).0);
                ds = ds1;
            }
            i = i + 1;
        }
        proof {
            assert(s0.rounds(ds) == (self.with_timer(s0.timer), out));
        }
        out
    }

    /// Builds a generator from a PRNG, a jitter clock and a seed, with the
    /// default oversample policy: 5 cycles per byte for `N < 6`, 1
    /// otherwise.
    pub fn new(prng: P, timer: T, seed: u128) -> (r: Self)
        requires
            N <= 0xFFFF_FFFF,
        ensures
            r.prng_state() == prng,
            r.seed_value() == seed,
            r.cycles_per_byte() == (if N < 6 {
                DEFAULT_OVERSAMPLE
            } else {
                1u8
            }),
            r.last_count() == 0,
            r.last_jitter() == 0,
            r.resolution() >= 1,
            T::is_scripted() ==> (r.timer_state(), r.resolution()) == timer.init_spec(),
    {
        let mut timer = timer;
        let k = timer.init();
        let oversample = if N < 6 {
            DEFAULT_OVERSAMPLE
        } else {
            1
        };
        QppRng {
            prng,
            timer,
            tuning: Tuning { k, oversample },
            seed,
            last_permutation_count: 0,
            last_jitter_ticks: 0,
        }
    }

    /// Overrides the number of convergence cycles per output byte, which
    /// must be at least `1`.
    pub fn with_oversample(self, oversample: u8) -> (r: Self)
        requires
            oversample >= 1,
        ensures
            r == self.with_cycles(oversample),
    {
        proof {
            use_type_invariant(&self.tuning);
        }
        let mut s = self;
        s.tuning = Tuning { k: s.tuning.k, oversample };
        s
    }

    /// Number of convergence cycles combined into each output byte.
    pub fn oversample(&self) -> (r: u8)
        ensures
            r == self.cycles_per_byte(),
            r >= 1,
    {
        proof {
            use_type_invariant(&self.tuning);
        }
        self.tuning.oversample
    }
}

impl<P: InternalPrng, T: HighResTimer, const N: usize> QppRng<P, T, N> {
    /// With a scripted clock, one output byte and the state after it are
    /// determined by the state before it.
    pub proof fn lemma_next_byte_deterministic(s: Self, a: Self, b: Self, x: u8, y: u8)
        requires
            T::is_scripted(),
            Self::next_byte_post(s, a, x),
            Self::next_byte_post(s, b, y),
        ensures
            a == b,
            x == y,
    {
        let da = choose|ds: Seq<u64>|
            {
                &&& ds.len() == s.tuning.oversample
                &&& a.last_permutation_count >= 1
                &&& #[trigger] s.rounds(ds) == (a.with_timer(s.timer), x)
                &&& T::is_scripted() ==> jitter_script(s.timer, s.tuning.oversample as nat) == (
                    a.timer,
                    ds,
                )
            };
        let db = choose|ds: Seq<u64>|
            {
                &&& ds.len() == s.tuning.oversample
                &&& b.last_permutation_count >= 1
                &&& #[trigger] s.rounds(ds) == (b.with_timer(s.timer), y)
                &&& T::is_scripted() ==> jitter_script(s.timer, s.tuning.oversample as nat) == (
                    b.timer,
                    ds,
                )
            };
        assert(da == db);
        assert(a.with_timer(s.timer) == b.with_timer(s.timer));
        assert(a.timer == b.timer);
        assert(a == a.with_timer(s.timer).with_timer(a.timer));
        assert(b == b.with_timer(s.timer).with_timer(b.timer));
    }

    /// With a scripted clock the generator's output is a function of its
    /// state.
    pub proof fn lemma_scripted_is_deterministic()
        requires
            T::is_scripted(),
        ensures
            produces_deterministically::<Self>(),
    {
        assert forall|s: Self, a: Self, b: Self, x: Seq<u8>, y: Seq<u8>|
            s.produced(&a, x) && s.produced(&b, y) && x.len() == y.len() implies x == y && a
            == b by {
            Self::lemma_same_state_same_script_same_bytes(s, a, b, x, y);
        }
    }

    /// Determinism: with a scripted clock, two runs from the same
    /// generator state producing the same number of bytes produce the same
    /// bytes and end in the same state -- the same seed and the same jitter
    /// script reproduce the same output.
    pub proof fn lemma_same_state_same_script_same_bytes(
        s: Self,
        a: Self,
        b: Self,
        xs: Seq<u8>,
        ys: Seq<u8>,
    )
        requires
            T::is_scripted(),
            Self::bytes_post(s, a, xs),
            Self::bytes_post(s, b, ys),
            xs.len() == ys.len(),
        ensures
            a == b,
            xs == ys,
    {
        let sa = choose|states: Seq<Self>| #[trigger] Self::byte_chain(states, s, a, xs);
        let sb = choose|states: Seq<Self>| #[trigger] Self::byte_chain(states, s, b, ys);
        Self::lemma_chains_agree(sa, sb, s, a, b, xs, ys, xs.len() as int);
        assert(xs =~= ys);
    }

    proof fn lemma_chains_agree(
        sa: Seq<Self>,
        sb: Seq<Self>,
        s: Self,
        a: Self,
        b: Self,
        xs: Seq<u8>,
        ys: Seq<u8>,
        i: int,
    )
        requires
            T::is_scripted(),
            Self::byte_chain(sa, s, a, xs),
            Self::byte_chain(sb, s, b, ys),
            xs.len() == ys.len(),
            0 <= i <= xs.len(),
        ensures
            sa[i] == sb[i],
            forall|j: int| 0 <= j < i ==> xs[j] == ys[j],
        decreases i,
    {
        if i > 0 {
            Self::lemma_chains_agree(sa, sb, s, a, b, xs, ys, i - 1);
            assert(Self::next_byte_post(sa[i - 1], sa[i], xs[i - 1]));
            assert(Self::next_byte_post(sb[i - 1], sb[i], ys[i - 1]));
            Self::lemma_next_byte_deterministic(sa[i - 1], sa[i], sb[i], xs[i - 1], ys[i - 1]);
        }
    }

    /// The same generator up to alike clocks.
    pub closed spec fn alike(a: Self, b: Self) -> bool {
        a.with_timer(b.timer) == b && a.timer.reads_alike(b.timer)
    }

    proof fn lemma_jitter_alike(t1: T, t2: T, m: nat)
        requires
            T::is_scripted(),
            t1.reads_alike(t2),
        ensures
            jitter_script(t1, m).1 == jitter_script(t2, m).1,
            jitter_script(t1, m).0.reads_alike(jitter_script(t2, m).0),
        decreases m,
    {
        if m > 0 {
            Self::lemma_jitter_alike(t1, t2, (m - 1) as nat);
            let u1 = jitter_script(t1, (m - 1) as nat).0;
            let u2 = jitter_script(t2, (m - 1) as nat).0;
            T::lemma_reads_alike(u1, u2);
            T::lemma_reads_alike(u1.tick_spec().0, u2.tick_spec().0);
        }
    }

    proof fn lemma_rounds_with_timer(s: Self, t: T, ds: Seq<u64>)
        ensures
            s.with_timer(t).rounds(ds) == (s.rounds(ds).0.with_timer(t), s.rounds(ds).1),
        decreases ds.len(),
    {
        if ds.len() > 0 {
            Self::lemma_rounds_with_timer(s, t, ds.drop_last());
        }
    }

    /// With a scripted clock, generators that are the same up to alike
    /// clocks produce the same byte and stay alike.
    pub proof fn lemma_next_byte_alike(s: Self, s2: Self, a: Self, b: Self, x: u8, y: u8)
        requires
            T::is_scripted(),
            Self::alike(s, s2),
            Self::next_byte_post(s, a, x),
            Self::next_byte_post(s2, b, y),
        ensures
            Self::alike(a, b),
            x == y,
    {
        let da = choose|ds: Seq<u64>|
            {
                &&& ds.len() == s.tuning.oversample
                &&& a.last_permutation_count >= 1
                &&& #[trigger] s.rounds(ds) == (a.with_timer(s.timer), x)
                &&& T::is_scripted() ==> jitter_script(s.timer, s.tuning.oversample as nat) == (
                    a.timer,
                    ds,
                )
            };
        let db = choose|ds: Seq<u64>|
            {
                &&& ds.len() == s2.tuning.oversample
                &&& b.last_permutation_count >= 1
                &&& #[trigger] s2.rounds(ds) == (b.with_timer(s2.timer), y)
                &&& T::is_scripted() ==> jitter_script(s2.timer, s2.tuning.oversample as nat) == (
                    b.timer,
                    ds,
                )
            };
        Self::lemma_jitter_alike(s.timer, s2.timer, s.tuning.oversample as nat);
        assert(da == db);
        Self::lemma_rounds_with_timer(s, s2.timer, da);
        assert(a.with_timer(b.timer) == b);
    }

    proof fn lemma_alike_chains_agree(
        sa: Seq<Self>,
        sb: Seq<Self>,
        s: Self,
        s2: Self,
        a: Self,
        b: Self,
        xs: Seq<u8>,
        ys: Seq<u8>,
        i: int,
    )
        requires
            T::is_scripted(),
            Self::alike(s, s2),
            Self::byte_chain(sa, s, a, xs),
            Self::byte_chain(sb, s2, b, ys),
            xs.len() == ys.len(),
            0 <= i <= xs.len(),
        ensures
            Self::alike(sa[i], sb[i]),
            forall|j: int| 0 <= j < i ==> xs[j] == ys[j],
        decreases i,
    {
        if i > 0 {
            Self::lemma_alike_chains_agree(sa, sb, s, s2, a, b, xs, ys, i - 1);
            assert(Self::next_byte_post(sa[i - 1], sa[i], xs[i - 1]));
            assert(Self::next_byte_post(sb[i - 1], sb[i], ys[i - 1]));
            Self::lemma_next_byte_alike(sa[i - 1], sb[i - 1], sa[i], sb[i], xs[i - 1], ys[i - 1]);
        }
    }

    /// Determinism across instances: with a scripted clock, two
    /// generators that are the same up to alike clocks (the same seed,
    /// PRNG state and settings, replaying the same jitter script) produce
    /// the same bytes and stay alike.
    pub proof fn lemma_alike_same_bytes(
        s: Self,
        s2: Self,
        a: Self,
        b: Self,
        xs: Seq<u8>,
        ys: Seq<u8>,
    )
        requires
            T::is_scripted(),
            Self::alike(s, s2),
            Self::bytes_post(s, a, xs),
            Self::bytes_post(s2, b, ys),
            xs.len() == ys.len(),
        ensures
            Self::alike(a, b),
            xs == ys,
    {
        let sa = choose|states: Seq<Self>| #[trigger] Self::byte_chain(states, s, a, xs);
        let sb = choose|states: Seq<Self>| #[trigger] Self::byte_chain(states, s2, b, ys);
        Self::lemma_alike_chains_agree(sa, sb, s, s2, a, b, xs, ys, xs.len() as int);
        assert(xs =~= ys);
    }

    /// With a scripted clock, generators built from the same PRNG state and
    /// seed on alike clocks are alike.
    pub proof fn lemma_new_alike(prng: P, t1: T, t2: T, seed: u128, a: Self, b: Self)
        requires
            T::is_scripted(),
            t1.reads_alike(t2),
            a.prng_state() == prng && b.prng_state() == prng,
            a.seed_value() == seed && b.seed_value() == seed,
            a.cycles_per_byte() == b.cycles_per_byte(),
            a.last_count() == 0 && b.last_count() == 0,
            a.last_jitter() == 0 && b.last_jitter() == 0,
            (a.timer_state(), a.resolution()) == t1.init_spec(),
            (b.timer_state(), b.resolution()) == t2.init_spec(),
        ensures
            Self::alike(a, b),
    {
        T::lemma_reads_alike(t1, t2);
        assert(a.tuning == b.tuning);
    }

    /// `a` and `b` are the same generator up to their PRNG states and
    /// alike clocks. Every cycle reseeds the PRNG from the seed before
    /// drawing, so the PRNG state a generator starts from never shows.
    pub closed spec fn alike_up_to_prng(a: Self, b: Self) -> bool {
        &&& QppRng { prng: b.prng, timer: b.timer, ..a } == b
        &&& a.timer.reads_alike(b.timer)
    }

    /// Rounds of at least one cycle do not depend on the PRNG state they
    /// start from.
    proof fn lemma_rounds_ignore_prng(s: Self, p: P, ds: Seq<u64>)
        requires
            ds.len() > 0,
        ensures
            (QppRng { prng: p, ..s }).rounds(ds) == s.rounds(ds),
        decreases ds.len(),
    {
        let t = QppRng { prng: p, ..s };
        if ds.len() > 1 {
            Self::lemma_rounds_ignore_prng(s, p, ds.drop_last());
        } else {
            assert(ds.drop_last() =~= Seq::<u64>::empty());
            assert(t.rounds(ds.drop_last()) == (t, 0u8));
            assert(s.rounds(ds.drop_last()) == (s, 0u8));
            assert(t.after_cycle(0u8, ds.last()) == s.after_cycle(0u8, ds.last()));
        }
        assert(t.rounds(ds) == t.rounds(ds.drop_last()).0.after_cycle(
            t.rounds(ds.drop_last()).1,
            ds.last(),
        ));
    }

    /// With a scripted clock, generators alike up to their PRNG states
    /// produce the same byte and are then alike.
    proof fn lemma_next_byte_alike_up_to_prng(s: Self, s2: Self, a: Self, b: Self, x: u8, y: u8)
        requires
            T::is_scripted(),
            Self::alike_up_to_prng(s, s2),
            s.cycles_per_byte() >= 1,
            Self::next_byte_post(s, a, x),
            Self::next_byte_post(s2, b, y),
        ensures
            Self::alike(a, b),
            x == y,
    {
        let da = choose|ds: Seq<u64>|
            {
                &&& ds.len() == s.tuning.oversample
                &&& a.last_permutation_count >= 1
                &&& #[trigger] s.rounds(ds) == (a.with_timer(s.timer), x)
                &&& T::is_scripted() ==> jitter_script(s.timer, s.tuning.oversample as nat) == (
                    a.timer,
                    ds,
                )
            };
        let db = choose|ds: Seq<u64>|
            {
                &&& ds.len() == s2.tuning.oversample
                &&& b.last_permutation_count >= 1
                &&& #[trigger] s2.rounds(ds) == (b.with_timer(s2.timer), y)
                &&& T::is_scripted() ==> jitter_script(s2.timer, s2.tuning.oversample as nat) == (
                    b.timer,
                    ds,
                )
            };
        Self::lemma_jitter_alike(s.timer, s2.timer, s.tuning.oversample as nat);
        assert(da == db);
        let s3 = QppRng { prng: s2.prng, ..s };
        Self::lemma_rounds_ignore_prng(s, s2.prng, da);
        assert(s3.with_timer(s2.timer) == s2);
        Self::lemma_rounds_with_timer(s3, s2.timer, da);
        assert(a.with_timer(b.timer) == b);
    }

    /// Determinism whatever the PRNG starts from: with a scripted clock,
    /// generators that are the same up to their PRNG states and alike
    /// clocks (two generators built with the same seed from any two PRNG
    /// values, say two `P::default()` values, on clocks replaying the same
    /// script) produce the same bytes, and are alike once they have
    /// produced any.
    pub proof fn lemma_alike_up_to_prng_same_bytes(
        s: Self,
        s2: Self,
        a: Self,
        b: Self,
        xs: Seq<u8>,
        ys: Seq<u8>,
    )
        requires
            T::is_scripted(),
            Self::alike_up_to_prng(s, s2),
            s.cycles_per_byte() >= 1,
            Self::bytes_post(s, a, xs),
            Self::bytes_post(s2, b, ys),
            xs.len() == ys.len(),
        ensures
            xs == ys,
            xs.len() > 0 ==> Self::alike(a, b),
    {
        if xs.len() > 0 {
            let sa = choose|states: Seq<Self>| #[trigger] Self::byte_chain(states, s, a, xs);
            let sb = choose|states: Seq<Self>| #[trigger] Self::byte_chain(states, s2, b, ys);
            assert(Self::next_byte_post(sa[0], sa[1], xs[0]));
            assert(Self::next_byte_post(sb[0], sb[1], ys[0]));
            Self::lemma_next_byte_alike_up_to_prng(s, s2, sa[1], sb[1], xs[0], ys[0]);
            let ta = sa.drop_first();
            let tb = sb.drop_first();
            assert(Self::byte_chain(ta, sa[1], a, xs.drop_first())) by {
                assert forall|i: int| 0 <= i < xs.drop_first().len() implies Self::next_byte_post(
                    #[trigger] ta[i],
                    ta[i + 1],
                    xs.drop_first()[i],
                ) by {
                    assert(Self::next_byte_post(sa[i + 1], sa[i + 2], xs[i + 1]));
                }
            }
            assert(Self::byte_chain(tb, sb[1], b, ys.drop_first())) by {
                assert forall|i: int| 0 <= i < ys.drop_first().len() implies Self::next_byte_post(
                    #[trigger] tb[i],
                    tb[i + 1],
                    ys.drop_first()[i],
                ) by {
                    assert(Self::next_byte_post(sb[i + 1], sb[i + 2], ys[i + 1]));
                }
            }
            Self::lemma_alike_same_bytes(sa[1], sb[1], a, b, xs.drop_first(), ys.drop_first());
            assert(xs =~= seq![xs[0]] + xs.drop_first());
            assert(ys =~= seq![ys[0]] + ys.drop_first());
        } else {
            assert(xs =~= ys);
        }
    }

    /// With a scripted clock, generators built with the same seed on alike
    /// clocks from any two PRNG values are alike up to their PRNG states.
    pub proof fn lemma_new_alike_up_to_prng(
        p1: P,
        p2: P,
        t1: T,
        t2: T,
        seed: u128,
        a: Self,
        b: Self,
    )
        requires
            T::is_scripted(),
            t1.reads_alike(t2),
            a.prng_state() == p1 && b.prng_state() == p2,
            a.seed_value() == seed && b.seed_value() == seed,
            a.cycles_per_byte() == b.cycles_per_byte(),
            a.last_count() == 0 && b.last_count() == 0,
            a.last_jitter() == 0 && b.last_jitter() == 0,
            (a.timer_state(), a.resolution()) == t1.init_spec(),
            (b.timer_state(), b.resolution()) == t2.init_spec(),
        ensures
            Self::alike_up_to_prng(a, b),
    {
        T::lemma_reads_alike(t1, t2);
        assert(a.tuning == b.tuning);
    }

    /// With a scripted clock, construction is a function of the PRNG, the
    /// clock and the seed.
    pub proof fn lemma_new_deterministic(prng: P, timer: T, seed: u128, a: Self, b: Self)
        requires
            T::is_scripted(),
            N <= 0xFFFF_FFFF,
            a.prng_state() == prng && b.prng_state() == prng,
            a.seed_value() == seed && b.seed_value() == seed,
            a.cycles_per_byte() == b.cycles_per_byte(),
            a.last_count() == 0 && b.last_count() == 0,
            a.last_jitter() == 0 && b.last_jitter() == 0,
            (a.timer_state(), a.resolution()) == timer.init_spec(),
            (b.timer_state(), b.resolution()) == timer.init_spec(),
        ensures
            a == b,
    {
        assert(a.tuning == b.tuning);
    }
}

impl<P: InternalPrng, T: HighResTimer + Default, const N: usize> QppRng<P, T, N> {
    /// Builds a generator from a fresh PRNG and a fresh clock.
    pub fn from_seed(seed: u128) -> (r: Self)
        requires
            N <= 0xFFFF_FFFF,
        ensures
            r.seed_value() == seed,
            r.cycles_per_byte() == (if N < 6 {
                DEFAULT_OVERSAMPLE
            } else {
                1u8
            }),
            r.last_count() == 0,
            r.last_jitter() == 0,
            r.well_formed(),
            N <= MAX_DIAGNOSED_ARRAY_SIZE ==> r.diagnostics_available(),
    {
        Self::new(P::default(), T::default(), seed)
    }
}

impl<P: InternalPrng, T: HighResTimer, const N: usize> QppRngSource for QppRng<P, T, N> {
    /// Kept by the type's own invariant.
    open spec fn well_formed(&self) -> bool {
        true
    }

    open spec fn diagnostics_available(&self) -> bool {
        N <= MAX_DIAGNOSED_ARRAY_SIZE
    }

    /// A chain of `next_byte` steps, one per output byte.
    open spec fn produced(&self, after: &Self, out: Seq<u8>) -> bool {
        Self::bytes_post(*self, *after, out)
    }

    /// Fills `dst` with successive `next_byte` outputs.
    fn fill_bytes(&mut self, dst: &mut [u8]) {
        let ghost s0 = *self;
        let ghost len = dst@.len();
        let ghost mut states: Seq<Self> = seq![s0];
        let mut i: usize = 0;
        while i < dst.len()
            invariant
                dst@.len() == len,
                i <= len,
                Self::byte_chain(states, s0, *self, dst@.subrange(0, i as int)),
            decreases len - i,
        {
            let ghost mid = *self;
            let ghost prefix = dst@.subrange(0, i as int);
            let b = self.next_byte();
            dst[i] = b;
            proof {
                let out = dst@.subrange(0, i + 1);
                let st = states.push(*self);
                assert forall|j: int| 0 <= j < out.len() implies Self::next_byte_post(
                    #[trigger] st[j],
                    st[j + 1],
                    out[j],
                ) by {
                    if j < i {
                        assert(out[j] == prefix[j]);
                        assert(st[j] == states[j]);
                        assert(st[j + 1] == states[j + 1]);
                    }
                }
                states = st;
            }
            i = i + 1;
        }
        assert(dst@.subrange(0, len as int) =~= dst@);
        assert(Self::byte_chain(states, s0, *self, dst@));
    }

    /// Four output bytes, little-endian.
    fn next_u32(&mut self) -> (r: u32)
        ensures
            exists|bytes: Seq<u8>|
                bytes.len() == 4 && #[trigger] Self::bytes_post(*old(self), *final(self), bytes) && r
                    == vstd::bytes::spec_u32_from_le_bytes(bytes),
    {
        let mut buf: Vec<u8> = vec![0u8; 4];
        self.fill_bytes(buf.as_mut_slice());
        vstd::bytes::u32_from_le_bytes(buf.as_slice())
    }

    /// Eight output bytes, little-endian.
    fn next_u64(&mut self) -> (r: u64)
        ensures
            exists|bytes: Seq<u8>|
                bytes.len() == 8 && #[trigger] Self::bytes_post(*old(self), *final(self), bytes) && r
                    == vstd::bytes::spec_u64_from_le_bytes(bytes),
    {
        let mut buf: Vec<u8> = vec![0u8; 8];
        self.fill_bytes(buf.as_mut_slice());
        vstd::bytes::u64_from_le_bytes(buf.as_slice())
    }

    /// The array's permutation entropy `floor(log2(N!))` and the most
    /// recent cycle's draw count and elapsed ticks.
    open spec fn diagnostics_spec(&self) -> RngDiagnostics {
        RngDiagnostics {
            permutation_size_bits: floor_log2(factorial(N as nat)) as u8,
            last_permutation_count: self.last_count(),
            last_jitter_ns: Some(self.last_jitter()),
        }
    }

    /// The array's permutation entropy and the most recent cycle's draw
    /// count and elapsed ticks.
    fn diagnostics(&self) -> (d: RngDiagnostics) {
        RngDiagnostics {
            permutation_size_bits: permutation_entropy_bits(N),
            last_permutation_count: self.last_permutation_count,
            last_jitter_ns: Some(self.last_jitter_ticks),
        }
    }
}

proof fn lemma_factorial_monotone(a: nat, b: nat)
    requires
        a <= b,
    ensures
        1 <= factorial(a) <= factorial(b),
    decreases b,
{
    if b > 0 {
        if a < b {
            lemma_factorial_monotone(a, (b - 1) as nat);
        }
        lemma_factorial_monotone((b - 1) as nat, (b - 1) as nat);
        assert(factorial((b - 1) as nat) <= b * factorial((b - 1) as nat)) by (nonlinear_arith)
            requires
                b >= 1,
                factorial((b - 1) as nat) >= 1,
        ;
    }
}

proof fn lemma_leading_zeros_is_log2(x: u64)
    requires
        x >= 1,
    ensures
        63 - vstd::std_specs::bits::u64_leading_zeros(x) == floor_log2(x as nat),
    decreases x,
{
    reveal(vstd::std_specs::bits::u64_leading_zeros);
    if x > 1 {
        lemma_leading_zeros_is_log2(x / 2);
    } else {
        assert(vstd::std_specs::bits::u64_leading_zeros(0) == 64);
    }
}

proof fn lemma_log2_bound(x: nat, b: nat)
    requires
        1 <= x < vstd::arithmetic::power2::pow2(b),
    ensures
        floor_log2(x) < b,
    decreases x,
{
    if x > 1 {
        assert(b >= 1) by {
            vstd::arithmetic::power2::lemma2_to64();
        }
        vstd::arithmetic::power2::lemma_pow2_unfold(b);
        assert(x / 2 < vstd::arithmetic::power2::pow2((b - 1) as nat));
        assert(x / 2 >= 1);
        lemma_log2_bound(x / 2, (b - 1) as nat);
        assert(floor_log2(x) == 1 + floor_log2(x / 2));
    } else {
        vstd::arithmetic::power2::lemma2_to64();
        assert(b != 0);
    }
}

proof fn lemma_factorial_20()
    ensures
        factorial(20) == 2432902008176640000,
{
    assert(factorial(0) == 1);
    assert(factorial(1) == 1);
    assert(factorial(2) == 2);
    assert(factorial(3) == 6);
    assert(factorial(4) == 24);
    assert(factorial(5) == 120);
    assert(factorial(6) == 720);
    assert(factorial(7) == 5040);
    assert(factorial(8) == 40320);
    assert(factorial(9) == 362880);
    assert(factorial(10) == 3628800);
    assert(factorial(11) == 39916800);
    assert(factorial(12) == 479001600);
    assert(factorial(13) == 6227020800);
    assert(factorial(14) == 87178291200);
    assert(factorial(15) == 1307674368000);
    assert(factorial(16) == 20922789888000);
    assert(factorial(17) == 355687428096000);
    assert(factorial(18) == 6402373705728000);
    assert(factorial(19) == 121645100408832000);
    assert(factorial(20) == 2432902008176640000);
}

/// The default width's permutation entropy: `floor(log2(5!)) = 6` bits.
pub proof fn lemma_default_width_entropy()
    ensures
        factorial(DEFAULT_ARRAY_SIZE as nat) == 120,
        floor_log2(factorial(DEFAULT_ARRAY_SIZE as nat)) == 6,
{
    assert(factorial(0) == 1);
    assert(factorial(1) == 1);
    assert(factorial(2) == 2);
    assert(factorial(3) == 6);
    assert(factorial(4) == 24);
    assert(factorial(5) == 120);
    assert(floor_log2(1) == 0);
    assert(floor_log2(3) == 1);
    assert(floor_log2(7) == 2);
    assert(floor_log2(15) == 3);
    assert(floor_log2(30) == 4);
    assert(floor_log2(60) == 5);
    assert(floor_log2(120) == 6);
}

/// `floor(log2(n!))`, computed from the integer bit-length of `n!`:
/// the entropy in bits of one uniformly drawn permutation of `n`
/// elements. Defined for `n <= 20`, the widths whose factorial fits in 64
/// bits.
pub fn permutation_entropy_bits(n: usize) -> (r: u8)
    requires
        n <= MAX_DIAGNOSED_ARRAY_SIZE,
    ensures
        r == floor_log2(factorial(n as nat)),
{
    proof {
        lemma_factorial_monotone(n as nat, 20);
        lemma_factorial_20();
    }
    let mut factorial_value: u64 = 1;
    let mut i: u64 = 1;
    while i <= n as u64
        invariant
            1 <= i <= n + 1,
            n <= 20,
            factorial_value == factorial((i - 1) as nat),
        decreases n + 1 - i,
    {
        proof {
            lemma_factorial_monotone(i as nat, 20);
            lemma_factorial_20();
            assert(factorial(i as nat) == i * factorial((i - 1) as nat));
            assert(factorial_value * i == i * factorial_value) by (nonlinear_arith);
        }
        factorial_value = factorial_value * i;
        i = i + 1;
    }
    if factorial_value <= 1 {
        proof {
            reveal_with_fuel(floor_log2, 2);
        }
        0
    } else {
        proof {
            lemma_leading_zeros_is_log2(factorial_value);
            lemma_factorial_monotone(n as nat, 20);
            lemma_factorial_20();
            vstd::arithmetic::power2::lemma2_to64_rest();
            lemma_log2_bound(factorial_value as nat, 62);
        }
        (63 - factorial_value.leading_zeros()) as u8
    }
}

} // verus!
