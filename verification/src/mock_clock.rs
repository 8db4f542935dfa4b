//! A scripted [`HighResTimer`] for pinning exact jitter sequences.

use crate::generator::jitter_script;
use crate::timer::HighResTimer;
use vstd::prelude::*;

verus! {

/// Replays a fixed sequence of per-cycle deltas as consecutive ticks:
/// every pair of calls (the start and stop of one convergence cycle)
/// differs by exactly the next scripted delta. The sequence repeats once
/// exhausted.
#[derive(Debug)]
pub struct MockClock {
    deltas: Vec<u64>,
    idx: usize,
    cumulative: u64,
}

impl MockClock {
    #[verifier::type_invariant]
    spec fn has_script(self) -> bool {
        self.deltas@.len() > 0
    }

    /// The scripted deltas.
    pub closed spec fn script(self) -> Seq<u64> {
        self.deltas@
    }

    /// Number of ticks read so far (wrapping after `usize::MAX`).
    pub closed spec fn ticks_read(self) -> usize {
        self.idx
    }

    /// The last value read (the running sum of applied deltas).
    pub closed spec fn reading(self) -> u64 {
        self.cumulative
    }

    /// The delta applied between the two ticks of pair `pair`.
    pub open spec fn scripted_delta(self, pair: int) -> u64 {
        self.script()[pair % (self.script().len() as int)]
    }

    /// A clock replaying `deltas`, starting at reading `0`.
    pub fn new(deltas: Vec<u64>) -> (c: Self)
        requires
            deltas@.len() > 0,
        ensures
            c.script() == deltas@,
            c.ticks_read() == 0,
            c.reading() == 0,
    {
        MockClock { deltas, idx: 0, cumulative: 0 }
    }
}

impl Clone for MockClock {
    fn clone(&self) -> (r: Self)
        ensures
            r.script() == self.script(),
            r.ticks_read() == self.ticks_read(),
            r.reading() == self.reading(),
    {
        proof {
            use_type_invariant(self);
        }
        MockClock { deltas: self.deltas.clone(), idx: self.idx, cumulative: self.cumulative }
    }
}

impl HighResTimer for MockClock {
    open spec fn is_scripted() -> bool {
        true
    }

    open spec fn init_spec(self) -> (Self, u8) {
        (self, 1)
    }

    /// An even-numbered tick repeats the current reading; an odd-numbered
    /// tick first adds the pair's scripted delta (wrapping).
    closed spec fn tick_spec(self) -> (Self, u64) {
        let c = if self.idx % 2 == 1 {
            self.cumulative.wrapping_add(
                self.deltas@[(self.idx as int / 2) % (self.deltas@.len() as int)],
            )
        } else {
            self.cumulative
        };
        (MockClock { deltas: self.deltas, idx: self.idx.wrapping_add(1), cumulative: c }, c)
    }

    /// Same script, same position, same reading.
    open spec fn reads_alike(self, other: Self) -> bool {
        &&& self.script() == other.script()
        &&& self.ticks_read() == other.ticks_read()
        &&& self.reading() == other.reading()
    }

    proof fn lemma_reads_alike(a: Self, b: Self) {
    }

    fn init(&mut self) -> (k: u8) {
        1
    }

    fn tick(&mut self) -> (t: u64) {
        proof {
            use_type_invariant(&*self);
        }
        if self.idx % 2 == 1 {
            let d = self.deltas[(self.idx / 2) % self.deltas.len()];
            self.cumulative = self.cumulative.wrapping_add(d);
        }
        let value = self.cumulative;
        self.idx = self.idx.wrapping_add(1);
        value
    }
}

/// Two consecutive ticks starting at an even position differ by exactly
/// that pair's scripted delta.
pub proof fn lemma_tick_pair_differs_by_delta(c: MockClock)
    requires
        c.ticks_read() % 2 == 0,
        c.ticks_read() < usize::MAX,
        c.script().len() > 0,
    ensures
        ({
            let (c1, a) = c.tick_spec();
            let (c2, b) = c1.tick_spec();
            b.wrapping_sub(a) == c.scripted_delta(c.ticks_read() as int / 2)
        }),
{
    let (c1, a) = c.tick_spec();
    assert(c1.idx == c.idx + 1);
    assert((c.idx + 1) / 2 == c.idx / 2);
    let d = c.deltas@[(c.idx as int / 2) % (c.deltas@.len() as int)];
    let (c2, b) = c1.tick_spec();
    assert(b == a.wrapping_add(d));
}

/// The reading of tick `k` (counted from 0) of a clock replaying
/// `script` from the start: tick `k` repeats the previous reading when
/// `k` is even and adds the next scripted delta (wrapping) when `k` is
/// odd. `[7, 13, 5]` reads `0, 7, 7, 20, 20, 25, ...`.
pub open spec fn mock_reading(script: Seq<u64>, k: nat) -> u64
    decreases k,
{
    if k == 0 {
        0
    } else {
        let prev = mock_reading(script, (k - 1) as nat);
        if k % 2 == 1 {
            prev.wrapping_add(script[((k / 2) as int) % (script.len() as int)])
        } else {
            prev
        }
    }
}

/// The clock is replaying its script from the start: its last reading is
/// that of tick `ticks_read() - 1` (or `0` before any tick), as for a
/// fresh clock from [`MockClock::new`].
pub open spec fn replaying(c: MockClock) -> bool {
    c.reading() == if c.ticks_read() == 0 {
        0
    } else {
        mock_reading(c.script(), (c.ticks_read() - 1) as nat)
    }
}

/// One tick of a replaying clock reads `mock_reading` of its position,
/// keeps the script, advances the position by one and stays replaying.
pub proof fn lemma_tick_reading(c: MockClock)
    requires
        replaying(c),
        c.ticks_read() < usize::MAX,
        c.script().len() > 0,
    ensures
        c.tick_spec().1 == mock_reading(c.script(), c.ticks_read() as nat),
        c.tick_spec().0.script() == c.script(),
        c.tick_spec().0.ticks_read() == c.ticks_read() + 1,
        replaying(c.tick_spec().0),
{
    let k = c.idx as nat;
    if k > 0 {
        assert(mock_reading(c.deltas@, k) == if k % 2 == 1 {
            mock_reading(c.deltas@, (k - 1) as nat).wrapping_add(
                c.deltas@[((k / 2) as int) % (c.deltas@.len() as int)],
            )
        } else {
            mock_reading(c.deltas@, (k - 1) as nat)
        });
    }
}

/// The elapsed ticks a replaying clock at an even position gives `m`
/// timed cycles (two ticks each): the next `m` scripted deltas, in
/// order. The clock ends `2 * m` ticks further on, still replaying.
pub proof fn lemma_jitter_script(c: MockClock, m: nat)
    requires
        replaying(c),
        c.ticks_read() % 2 == 0,
        c.ticks_read() + 2 * m < usize::MAX,
        c.script().len() > 0,
    ensures
        jitter_script(c, m).1 == Seq::new(m, |i: int| c.scripted_delta(c.ticks_read() / 2 + i)),
        jitter_script(c, m).0.script() == c.script(),
        jitter_script(c, m).0.ticks_read() == c.ticks_read() + 2 * m,
        replaying(jitter_script(c, m).0),
    decreases m,
{
    if m > 0 {
        lemma_jitter_script(c, (m - 1) as nat);
        let (t1, ds) = jitter_script(c, (m - 1) as nat);
        let k = t1.ticks_read();
        lemma_tick_reading(t1);
        let (t2, a) = t1.tick_spec();
        lemma_tick_reading(t2);
        let (t3, b) = t2.tick_spec();
        let d = c.scripted_delta(c.ticks_read() / 2 + (m - 1));
        assert(k == c.ticks_read() + 2 * (m - 1));
        assert(((k + 1) / 2) as int == c.ticks_read() / 2 + (m - 1));
        assert(b == a.wrapping_add(d));
        assert(a.wrapping_add(d).wrapping_sub(a) == d) by (bit_vector);
        assert(ds.push(b.wrapping_sub(a)) =~= Seq::new(
            m,
            |i: int| c.scripted_delta(c.ticks_read() / 2 + i),
        ));
    }
}

} // verus!
