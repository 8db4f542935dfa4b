//! High-resolution tick sources and the tick normalization the generator
//! folds into its seed.

use core::time::Duration;
use std::time::Instant;
use vstd::prelude::*;

verus! {

/// A free-running tick source.
///
/// Units vary by backend (nanoseconds on host OSes, raw counter cycles on
/// bare-metal counters); callers only use differences of consecutive
/// ticks, computed with wrapping arithmetic.
///
/// `is_scripted` marks implementations whose readings are a pure function
/// of their own state (replayed scripts); for those, `init_spec` and
/// `tick_spec` give the exact readings. Hardware and OS clocks are not
/// scripted and promise nothing about the values they read.
pub trait HighResTimer: Sized {
    /// Whether readings are a pure function of the timer's state.
    spec fn is_scripted() -> bool;

    /// `(state after, resolution)` of `init` on a scripted timer.
    spec fn init_spec(self) -> (Self, u8);

    /// `(state after, reading)` of `tick` on a scripted timer.
    spec fn tick_spec(self) -> (Self, u64);

    /// Two scripted timer states that read alike: they give the same
    /// readings, and stay alike, tick after tick.
    spec fn reads_alike(self, other: Self) -> bool;

    /// Alike states of a scripted timer give equal readings and alike
    /// successor states.
    proof fn lemma_reads_alike(a: Self, b: Self)
        requires
            a.reads_alike(b),
        ensures
            a.tick_spec().1 == b.tick_spec().1,
            a.tick_spec().0.reads_alike(b.tick_spec().0),
            a.init_spec().1 == b.init_spec().1,
            a.init_spec().0.reads_alike(b.init_spec().0),
    ;

    /// One-time setup; returns the native timer resolution `k` (ticks per
    /// unit of jitter), which is at least `1`.
    fn init(&mut self) -> (k: u8)
        ensures
            k >= 1,
            Self::is_scripted() ==> (*final(self), k) == old(self).init_spec(),
    ;

    /// Cheapest read of the underlying counter.
    fn tick(&mut self) -> (t: u64)
        ensures
            Self::is_scripted() ==> (*final(self), t) == old(self).tick_spec(),
    ;
}

/// `floor(delta_tick / k) mod 256`.
pub open spec fn normalized_tick(delta_tick: u64, k: u8) -> u8 {
    ((delta_tick / (k as u64)) % 256) as u8
}

/// Normalization of a tick difference to one byte:
/// `floor(delta_tick / k) mod 256`, where `k` is the native timer
/// resolution.
pub fn normalize_tick(delta_tick: u64, k: u8) -> (r: u8)
    requires
        k >= 1,
    ensures
        r == normalized_tick(delta_tick, k),
        r as int == (delta_tick as int / k as int) % 256,
{
    let k_u64 = k as u64;
    ((delta_tick / k_u64) % 256) as u8
}

/// Difference between tick `i + 1` and tick `i`, with wrapping.
pub open spec fn tick_delta(ticks: Seq<u64>, i: int) -> u64 {
    ticks[i + 1].wrapping_sub(ticks[i])
}

/// The smallest nonzero delta among the first `count` consecutive-tick
/// deltas, or `None` when every one of them is zero.
pub open spec fn min_nonzero_delta(ticks: Seq<u64>, count: nat) -> Option<u64>
    decreases count,
{
    if count == 0 {
        None
    } else {
        let m = min_nonzero_delta(ticks, (count - 1) as nat);
        let d = tick_delta(ticks, count - 1);
        if d == 0 {
            m
        } else {
            match m {
                Some(prev) => if d < prev {
                    Some(d)
                } else {
                    Some(prev)
                },
                None => Some(d),
            }
        }
    }
}

/// The calibrated resolution for a run of consecutive ticks: the smallest
/// nonzero delta, clamped to `1..=255`, or `max(fallback, 1)` when the
/// counter never visibly advanced.
pub open spec fn calibrated_resolution(ticks: Seq<u64>, fallback: u8) -> u8 {
    match min_nonzero_delta(ticks, (ticks.len() - 1) as nat) {
        None => if fallback >= 1 {
            fallback
        } else {
            1
        },
        Some(m) => if m > 255 {
            255
        } else {
            m as u8
        },
    }
}

/// `(state after, readings)` of `count` consecutive ticks of a scripted
/// timer.
pub open spec fn tick_run<T: HighResTimer>(t: T, count: nat) -> (T, Seq<u64>)
    decreases count,
{
    if count == 0 {
        (t, Seq::empty())
    } else {
        let (t1, v) = t.tick_spec();
        let (t2, vs) = tick_run(t1, (count - 1) as nat);
        (t2, seq![v] + vs)
    }
}

/// Number of ticks read and discarded before calibration samples.
pub const CALIBRATION_WARMUP: u32 = 8;

/// Number of ticks `calibrate_resolution` reads: one, the warm-up, and
/// one per sample.
pub open spec fn calibration_reads(samples: u32) -> nat {
    (samples + CALIBRATION_WARMUP + 1) as nat
}

/// The minimum is `None` exactly when every delta is zero; otherwise it
/// is one of the deltas, nonzero, and no larger than any nonzero delta.
pub proof fn lemma_min_nonzero_delta(ticks: Seq<u64>, count: nat)
    requires
        count < ticks.len(),
    ensures
        min_nonzero_delta(ticks, count) is None <==> forall|i: int|
            0 <= i < count ==> #[trigger] tick_delta(ticks, i) == 0,
        min_nonzero_delta(ticks, count) matches Some(m) ==> m != 0 && (exists|i: int|
            0 <= i < count && #[trigger] tick_delta(ticks, i) == m) && forall|i: int|
            0 <= i < count && tick_delta(ticks, i) != 0 ==> m <= #[trigger] tick_delta(ticks, i),
    decreases count,
{
    if count > 0 {
        lemma_min_nonzero_delta(ticks, (count - 1) as nat);
        let d = tick_delta(ticks, count - 1);
        if d != 0 {
            assert(tick_delta(ticks, count - 1) == d);
        }
    }
}

/// Computes the calibrated resolution from a run of consecutive tick
/// readings `ticks[0], ticks[1], ...`: the smallest nonzero delta between
/// neighbours, clamped into `1..=255`, or `max(fallback, 1)` if no delta
/// was nonzero (a frozen or exceptionally coarse counter).
pub fn resolution_from_ticks(ticks: &[u64], fallback: u8) -> (k: u8)
    requires
        ticks@.len() >= 1,
    ensures
        k == calibrated_resolution(ticks@, fallback),
        k >= 1,
{
    let mut min_delta: Option<u64> = None;
    let mut i: usize = 1;
    while i < ticks.len()
        invariant
            1 <= i <= ticks@.len(),
            min_delta == min_nonzero_delta(ticks@, (i - 1) as nat),
        decreases ticks@.len() - i,
    {
        let delta = ticks[i].wrapping_sub(ticks[i - 1]);
        if delta != 0 {
            min_delta = match min_delta {
                Some(prev) => if delta < prev {
                    Some(delta)
                } else {
                    Some(prev)
                },
                None => Some(delta),
            };
        }
        i = i + 1;
    }
    proof {
        lemma_min_nonzero_delta(ticks@, (ticks@.len() - 1) as nat);
    }
    match min_delta {
        None => if fallback >= 1 {
            fallback
        } else {
            1
        },
        Some(m) => if m > 255 {
            255
        } else {
            m as u8
        },
    }
}

/// Measures a timer's real granularity: reads a warm-up of ticks, then
/// `samples` more, and returns the smallest nonzero delta between
/// consecutive readings clamped into `1..=255`, or `max(fallback, 1)` if
/// the counter never visibly advanced.
///
/// The readings of a hardware clock are not known in advance; the result
/// is `calibrated_resolution` of the `samples + 1` readings taken after
/// the warm-up, whatever they were. For a scripted timer those readings
/// are the script's.
pub fn calibrate_resolution<T: HighResTimer>(timer: &mut T, samples: u32, fallback: u8) -> (k: u8)
    ensures
        k >= 1,
        exists|ticks: Seq<u64>|
            ticks.len() == samples + 1 && k == calibrated_resolution(ticks, fallback) && (
            T::is_scripted() ==> ticks == tick_run(*old(timer), calibration_reads(samples)).1.subrange(
                CALIBRATION_WARMUP as int,
                calibration_reads(samples) as int,
            )),
        T::is_scripted() ==> *final(timer) == tick_run(*old(timer), calibration_reads(samples)).0,
{
    let ghost t0 = *timer;
    let ghost total: nat = calibration_reads(samples);
    let mut prev = timer.tick();
    let ghost mut read: Seq<u64> = seq![prev];
    let mut w: u32 = 0;
    while w < CALIBRATION_WARMUP
        invariant
            w <= CALIBRATION_WARMUP,
            total == calibration_reads(samples),
            read.len() == w + 1,
            prev == read.last(),
            T::is_scripted() ==> tick_run(t0, total) == (tick_run(*timer, (total - read.len()) as nat).0,
                read + tick_run(*timer, (total - read.len()) as nat).1),
        decreases CALIBRATION_WARMUP - w,
    {
        let ghost before = *timer;
        prev = timer.tick();
        proof {
            if T::is_scripted() {
                let rest = (total - read.len()) as nat;
                assert(tick_run(before, rest).1 =~= seq![prev] + tick_run(*timer, (rest - 1) as nat).1);
                assert(read + tick_run(before, rest).1 =~= (read + seq![prev]) + tick_run(*timer, (rest - 1) as nat).1);
            }
            read = read + seq![prev];
        }
        w = w + 1;
    }
    let mut ticks: Vec<u64> = Vec::new();
    ticks.push(prev);
    let ghost warm = read.len();
    let mut s: u32 = 0;
    while s < samples
        invariant
            s <= samples,
            total == calibration_reads(samples),
            warm == CALIBRATION_WARMUP + 1,
            read.len() == warm + s,
            ticks@.len() == s + 1,
            ticks@ == read.subrange(warm - 1, read.len() as int),
            T::is_scripted() ==> tick_run(t0, total) == (tick_run(*timer, (total - read.len()) as nat).0,
                read + tick_run(*timer, (total - read.len()) as nat).1),
        decreases samples - s,
    {
        let ghost before = *timer;
        let now = timer.tick();
        proof {
            if T::is_scripted() {
                let rest = (total - read.len()) as nat;
                assert(tick_run(before, rest).1 =~= seq![now] + tick_run(*timer, (rest - 1) as nat).1);
                assert(read + tick_run(before, rest).1 =~= (read + seq![now]) + tick_run(*timer, (rest - 1) as nat).1);
            }
            read = read + seq![now];
        }
        ticks.push(now);
        s = s + 1;
        assert(ticks@ =~= read.subrange(warm - 1, read.len() as int));
    }
    proof {
        if T::is_scripted() {
            assert(tick_run(*timer, 0).1 =~= Seq::<u64>::empty());
            assert(read + Seq::<u64>::empty() =~= read);
        }
    }
    resolution_from_ticks(ticks.as_slice(), fallback)
}

#[verifier::external_type_specification]
#[verifier::external_body]
pub struct ExInstant(std::time::Instant);

/// Calls `std::time::Instant::now`; the reading depends on the time, so
/// nothing is stated of it.
#[verifier::external_body]
fn instant_now() -> Instant {
    Instant::now()
}

/// Calls `std::time::Instant::elapsed`; the reading depends on the time,
/// so nothing is stated of it.
#[verifier::external_body]
fn instant_elapsed(origin: &Instant) -> Duration {
    origin.elapsed()
}

/// Calls `core::time::Duration::as_nanos`: the whole duration in
/// nanoseconds. Nothing is stated of the value, since every duration
/// handed to it here comes from a clock reading.
#[verifier::external_body]
fn duration_as_nanos(d: &Duration) -> u128 {
    d.as_nanos()
}

/// The operating system's monotonic clock (`CLOCK_MONOTONIC` on Unix),
/// read in nanoseconds since the timer was created. Native resolution
/// `1` (nanoseconds).
pub struct PosixFallbackTimer {
    origin: Instant,
}

impl PosixFallbackTimer {
    /// A timer whose readings count from now.
    pub fn new() -> Self {
        PosixFallbackTimer { origin: instant_now() }
    }
}

impl Default for PosixFallbackTimer {
    fn default() -> Self {
        PosixFallbackTimer::new()
    }
}

impl HighResTimer for PosixFallbackTimer {
    open spec fn is_scripted() -> bool {
        false
    }

    /// Unused: this timer is not scripted.
    open spec fn init_spec(self) -> (Self, u8) {
        (self, 1)
    }

    /// Unused: this timer is not scripted.
    open spec fn tick_spec(self) -> (Self, u64) {
        (self, 0)
    }

    /// Only a state reads alike itself.
    open spec fn reads_alike(self, other: Self) -> bool {
        self == other
    }

    proof fn lemma_reads_alike(a: Self, b: Self) {
    }

    /// The clock needs no setup; its native resolution is one nanosecond.
    fn init(&mut self) -> (k: u8)
        ensures
            k == 1,
            *final(self) == *old(self),
    {
        1
    }

    /// Nanoseconds elapsed since the timer was created, truncated to 64
    /// bits. The reading depends on the time, so only that the timer is
    /// left as it was is stated.
    fn tick(&mut self) -> (t: u64)
        ensures
            *final(self) == *old(self),
    {
        let elapsed = instant_elapsed(&self.origin);
        let nanos = duration_as_nanos(&elapsed);
        #[verifier::truncate]
        (nanos as u64)
    }
}

/// The tick source for the build target: the operating system's
/// monotonic clock.
pub type PlatformTimer = PosixFallbackTimer;

} // verus!
