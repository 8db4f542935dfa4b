//! Internal pseudo-random word sources used to draw permutation pads.
//!
//! These are not the entropy source: they turn the evolving 128-bit seed
//! into the stream of draws the Fisher–Yates shuffle consumes.

use vstd::prelude::*;

verus! {

/// A reseedable pseudo-random word source consuming a 128-bit seed.
///
/// `seeded` and `next_word` are the mathematical model of an
/// implementation: reseeding replaces the whole state, and every draw is
/// a pure function of the current state.
pub trait InternalPrng: Sized + Default {
    /// State after `seed(seed)`.
    spec fn seeded(seed: u128) -> Self;

    /// `(state after, word)` of one `next_u64` draw.
    spec fn next_word(self) -> (Self, u64);

    /// (Re)initializes the generator's state from a 128-bit seed.
    fn seed(&mut self, seed: u128)
        ensures
            *final(self) == Self::seeded(seed),
    ;

    /// Next pseudo-random 64-bit word.
    fn next_u64(&mut self) -> (word: u64)
        ensures
            (*final(self), word) == old(self).next_word(),
    ;

    /// Next pseudo-random 32-bit word: the upper half of one 64-bit draw.
    fn next_u32(&mut self) -> (word: u32)
        ensures
            *final(self) == old(self).next_word().0,
            word == (old(self).next_word().1 >> 32u64) as u32,
    {
        let w = self.next_u64();
        (w >> 32) as u32
    }
}

/// Vigna's `xorshift128+`.
#[derive(Debug, Clone, Copy)]
pub struct Xorshift128Plus {
    state: [u64; 2],
}

/// Fallback first state word used when both seed halves are zero.
pub const XORSHIFT_FALLBACK_S0: u64 = 0x9E3779B97F4A7C15;

/// Fallback second state word used when both seed halves are zero.
pub const XORSHIFT_FALLBACK_S1: u64 = 0xBF58476D1CE4E5B9;

/// The two state words `xorshift128+` is seeded with: the high and low
/// halves of the seed, or fixed nonzero constants when both are zero.
pub open spec fn xorshift_seed_words(seed: u128) -> (u64, u64) {
    let s0 = (seed >> 64u128) as u64;
    let s1 = seed as u64;
    if s0 == 0 && s1 == 0 {
        (XORSHIFT_FALLBACK_S0, XORSHIFT_FALLBACK_S1)
    } else {
        (s0, s1)
    }
}

/// One `xorshift128+` step on state `(a, b)`: the output word and the
/// next state.
pub open spec fn xorshift_step(a: u64, b: u64) -> (u64, u64, u64) {
    let result = b.wrapping_add(a);
    let t = a ^ (a << 23u64);
    let nb = t ^ b ^ (t >> 18u64) ^ (b >> 5u64);
    (result, b, nb)
}

/// Vigna's `xorshift128+` step, with its shift constants 23, 18 and 5:
/// from state `(a, b)` the output is `a + b` (wrapping) and the next state
/// is `(b, t ^ b ^ (t >> 18) ^ (b >> 5))` with `t = a ^ (a << 23)`.
pub proof fn lemma_xorshift_step_constants(a: u64, b: u64)
    ensures
        xorshift_step(a, b).0 == a.wrapping_add(b),
        xorshift_step(a, b).1 == b,
        xorshift_step(a, b).2 == (a ^ (a << 23u64)) ^ b ^ ((a ^ (a << 23u64)) >> 18u64) ^ (b
            >> 5u64),
{
    assert(b.wrapping_add(a) == a.wrapping_add(b)) by (bit_vector);
}

/// Seeding: the high half of the seed is the first state word and the low
/// half the second, unless both are zero, when the fixed nonzero
/// constants `0x9E3779B97F4A7C15` and `0xBF58476D1CE4E5B9` stand in (the
/// generator must not start from the all-zero state, which it never
/// leaves).
pub proof fn lemma_xorshift_seed_words(seed: u128)
    ensures
        seed >> 64u128 != 0 || seed % 0x1_0000_0000_0000_0000 != 0 ==> xorshift_seed_words(seed)
            == ((seed >> 64u128) as u64, (seed % 0x1_0000_0000_0000_0000) as u64),
        seed >> 64u128 == 0 && seed % 0x1_0000_0000_0000_0000 == 0 ==> xorshift_seed_words(seed)
            == (0x9E3779B97F4A7C15u64, 0xBF58476D1CE4E5B9u64),
        xorshift_seed_words(seed) != (0u64, 0u64),
{
    assert((seed as u64) == (seed % 0x1_0000_0000_0000_0000) as u64) by (bit_vector);
    assert(((seed as u64) == 0) == (seed % 0x1_0000_0000_0000_0000 == 0)) by (bit_vector);
    assert((((seed >> 64u128) as u64) == 0) == (seed >> 64u128 == 0)) by (bit_vector);
}

impl Xorshift128Plus {
    /// The two state words.
    pub closed spec fn words(self) -> (u64, u64) {
        (self.state[0], self.state[1])
    }

    /// The state words are the whole state: generators with the same
    /// words are the same generator (two `default()` values among them).
    pub proof fn lemma_words_identify(a: Self, b: Self)
        requires
            a.words() == b.words(),
        ensures
            a == b,
    {
        assert(a.state =~= b.state);
    }
}

impl Default for Xorshift128Plus {
    /// The all-zero (unseeded) state.
    fn default() -> (r: Self)
        ensures
            r.words() == (0u64, 0u64),
    {
        Xorshift128Plus { state: [0, 0] }
    }
}

impl InternalPrng for Xorshift128Plus {
    closed spec fn seeded(seed: u128) -> Self {
        let (s0, s1) = xorshift_seed_words(seed);
        Xorshift128Plus { state: [s0, s1] }
    }

    closed spec fn next_word(self) -> (Self, u64) {
        let (r, a, b) = xorshift_step(self.state[0], self.state[1]);
        (Xorshift128Plus { state: [a, b] }, r)
    }

    /// The state words become the seed's halves, or the fallback
    /// constants when both halves are zero.
    fn seed(&mut self, seed: u128)
        ensures
            final(self).words() == xorshift_seed_words(seed),
    {
        let mut s0 = (seed >> 64) as u64;
        let mut s1 = seed as u64;
        if s0 == 0 && s1 == 0 {
            s0 = XORSHIFT_FALLBACK_S0;
            s1 = XORSHIFT_FALLBACK_S1;
        }
        self.state = [s0, s1];
    }

    /// One `xorshift128+` step.
    fn next_u64(&mut self) -> (word: u64)
        ensures
            (word, final(self).words().0, final(self).words().1) == xorshift_step(
                old(self).words().0,
                old(self).words().1,
            ),
            word == old(self).words().1.wrapping_add(old(self).words().0),
            final(self).words().0 == old(self).words().1,
            final(self).words().1 == ({
                let a = old(self).words().0;
                let b = old(self).words().1;
                let t = a ^ (a << 23u64);
                t ^ b ^ (t >> 18u64) ^ (b >> 5u64)
            }),
    {
        let mut s1 = self.state[0];
        let s0 = self.state[1];
        let result = s0.wrapping_add(s1);
        s1 = s1 ^ (s1 << 23);
        let nb = s1 ^ s0 ^ (s1 >> 18) ^ (s0 >> 5);
        self.state = [s0, nb];
        result
    }
}

/// The `java.util.Random` multiplier.
pub const LCG_MULTIPLIER: u64 = 0x5DEECE66D;

/// The `java.util.Random` increment.
pub const LCG_INCREMENT: u64 = 0xB;

/// Mask keeping the low 48 bits of the LCG state.
pub const LCG_MASK48: u64 = 0xFFFF_FFFF_FFFF;

/// One advance of the 48-bit LCG.
pub open spec fn lcg_advance(s: u64) -> u64 {
    s.wrapping_mul(LCG_MULTIPLIER).wrapping_add(LCG_INCREMENT) & LCG_MASK48
}

/// The top `bits` of a 48-bit state, as `java.util.Random.next(bits)`
/// returns them.
pub open spec fn lcg_top_bits(s: u64, bits: u32) -> u32 {
    (s >> ((48 - bits) as u64)) as u32
}

/// `NEXT_X48`: the 48-bit linear congruential generator of
/// `java.util.Random` (multiplier `0x5DEECE66D`, increment `0xB`).
/// Only the low 64 bits of the 128-bit seed are used.
#[derive(Debug, Clone, Copy)]
pub struct NextX48 {
    state: u64,
}

impl NextX48 {
    /// The 48-bit LCG state.
    pub closed spec fn lcg_state(self) -> u64 {
        self.state
    }

    /// The LCG state is the whole state: generators with the same state
    /// are the same generator (two `default()` values among them).
    pub proof fn lemma_state_identifies(a: Self, b: Self)
        requires
            a.lcg_state() == b.lcg_state(),
        ensures
            a == b,
    {
    }

    /// Advances the LCG once and returns its top `bits` bits, as
    /// `java.util.Random.next(bits)` does.
    pub fn next_bits(&mut self, bits: u32) -> (r: u32)
        requires
            bits <= 48,
        ensures
            final(self).lcg_state() == lcg_advance(old(self).lcg_state()),
            r == lcg_top_bits(final(self).lcg_state(), bits),
    {
        self.state = self.state.wrapping_mul(LCG_MULTIPLIER).wrapping_add(LCG_INCREMENT) & LCG_MASK48;
        (self.state >> (48 - bits)) as u32
    }
}

/// The LCG state `NextX48` is seeded with: the low 64 bits of the seed
/// scrambled with the multiplier, masked to 48 bits.
pub open spec fn lcg_seed_state(seed: u128) -> u64 {
    ((seed as u64) ^ LCG_MULTIPLIER) & LCG_MASK48
}

/// `java.util.Random`'s seed scramble: the low 64 bits of the seed XORed
/// with the multiplier `0x5DEECE66D`, kept to 48 bits.
pub proof fn lemma_lcg_seed_scramble(seed: u128)
    ensures
        lcg_seed_state(seed) == ((seed % 0x1_0000_0000_0000_0000) as u64 ^ 0x5DEECE66Du64)
            & 0xFFFF_FFFF_FFFFu64,
        lcg_seed_state(seed) < 0x1_0000_0000_0000,
{
    assert((seed as u64) == (seed % 0x1_0000_0000_0000_0000) as u64) by (bit_vector);
    let x = ((seed as u64) ^ 0x5DEECE66Du64);
    assert(x & 0xFFFF_FFFF_FFFFu64 < 0x1_0000_0000_0000u64) by (bit_vector);
}

/// `java.util.Random`'s advance: `s * 0x5DEECE66D + 0xB` modulo `2^48`.
pub proof fn lemma_lcg_advance_constants(s: u64)
    ensures
        lcg_advance(s) as int == (s as int * 0x5DEECE66D + 0xB) % 0x1_0000_0000_0000,
{
    let m = s.wrapping_mul(0x5DEECE66Du64);
    assert(m as int == (s as int * 0x5DEECE66D) % 0x1_0000_0000_0000_0000) by {
        vstd::arithmetic::mul::lemma_mul_nonnegative(s as int, 0x5DEECE66D);
    }
    let a = m.wrapping_add(0xBu64);
    assert(a as int == (m as int + 0xB) % 0x1_0000_0000_0000_0000);
    assert(a & 0xFFFF_FFFF_FFFFu64 == a % 0x1_0000_0000_0000u64) by (bit_vector);
    assert(((s as int * 0x5DEECE66D) % 0x1_0000_0000_0000_0000 + 0xB) % 0x1_0000_0000_0000_0000
        % 0x1_0000_0000_0000 == (s as int * 0x5DEECE66D + 0xB) % 0x1_0000_0000_0000) by {
        let p = s as int * 0x5DEECE66D;
        vstd::arithmetic::div_mod::lemma_mod_mod(p + 0xB, 0x1_0000_0000_0000, 0x1_0000);
        vstd::arithmetic::div_mod::lemma_add_mod_noop(p, 0xB, 0x1_0000_0000_0000_0000);
        vstd::arithmetic::div_mod::lemma_mod_twice(0xB, 0x1_0000_0000_0000_0000);
    }
}

/// `java.util.Random.nextLong()`: two 32-bit draws packed high then low.
pub open spec fn lcg_next_long(s: u64) -> (u64, u64) {
    let s1 = lcg_advance(s);
    let s2 = lcg_advance(s1);
    let hi = lcg_top_bits(s1, 32) as u64;
    let lo = lcg_top_bits(s2, 32) as u64;
    (s2, (hi << 32u64) | lo)
}

/// A 64-bit word of `NEXT_X48`: two LCG advances `s1`, `s2` from state
/// `s`, and the word is the top 32 of the 48 bits of `s1` followed by the
/// top 32 bits of `s2`; the state becomes `s2`.
pub proof fn lemma_lcg_next_long_words(s: u64)
    ensures
        ({
            let s1 = (s as int * 0x5DEECE66D + 0xB) % 0x1_0000_0000_0000;
            let s2 = (s1 * 0x5DEECE66D + 0xB) % 0x1_0000_0000_0000;
            &&& lcg_next_long(s).0 as int == s2
            &&& lcg_next_long(s).1 as int == (s1 / 0x1_0000) * 0x1_0000_0000 + s2 / 0x1_0000
        }),
{
    lemma_lcg_advance_constants(s);
    let a1 = lcg_advance(s);
    lemma_lcg_advance_constants(a1);
    let a2 = lcg_advance(a1);
    assert(a1 < 0x1_0000_0000_0000u64 && a2 < 0x1_0000_0000_0000u64);
    let hi = lcg_top_bits(a1, 32) as u64;
    let lo = lcg_top_bits(a2, 32) as u64;
    assert(hi == a1 / 0x1_0000u64) by (bit_vector)
        requires
            a1 < 0x1_0000_0000_0000u64,
            hi == ((a1 >> 16u64) as u32) as u64,
    ;
    assert(lo == a2 / 0x1_0000u64) by (bit_vector)
        requires
            a2 < 0x1_0000_0000_0000u64,
            lo == ((a2 >> 16u64) as u32) as u64,
    ;
    assert((hi << 32u64) | lo == hi * 0x1_0000_0000u64 + lo) by (bit_vector)
        requires
            hi < 0x1_0000_0000u64,
            lo < 0x1_0000_0000u64,
    ;
}

impl Default for NextX48 {
    /// The zero (unseeded) state.
    fn default() -> (r: Self)
        ensures
            r.lcg_state() == 0,
    {
        NextX48 { state: 0 }
    }
}

impl InternalPrng for NextX48 {
    closed spec fn seeded(seed: u128) -> Self {
        NextX48 { state: lcg_seed_state(seed) }
    }

    closed spec fn next_word(self) -> (Self, u64) {
        let (s, w) = lcg_next_long(self.state);
        (NextX48 { state: s }, w)
    }

    /// The LCG state becomes the scrambled low half of the seed.
    fn seed(&mut self, seed: u128)
        ensures
            final(self).lcg_state() == lcg_seed_state(seed),
            final(self).lcg_state() == ((seed % 0x1_0000_0000_0000_0000) as u64
                ^ 0x5DEECE66Du64) & 0xFFFF_FFFF_FFFFu64,
    {
        proof {
            lemma_lcg_seed_scramble(seed);
        }
        let raw = seed as u64;
        self.state = (raw ^ LCG_MULTIPLIER) & LCG_MASK48;
    }

    /// Two LCG advances, packed as `java.util.Random.nextLong()` does.
    fn next_u64(&mut self) -> (word: u64)
        ensures
            (final(self).lcg_state(), word) == lcg_next_long(old(self).lcg_state()),
    {
        let hi = self.next_bits(32) as u64;
        let lo = self.next_bits(32) as u64;
        (hi << 32) | lo
    }
}

} // verus!
