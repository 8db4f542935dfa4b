use qpp_rng::permutation::{apply_permutation, bounded, generate_permutation, identity_permutation};
use qpp_rng::prng::{InternalPrng, NextX48, Xorshift128Plus};

/// A counting stream: checks the shuffle logic, not the generator.
#[derive(Default)]
struct CountingPrng {
    next: u64,
}

impl InternalPrng for CountingPrng {
    fn seeded(seed: u128) -> Self {
        CountingPrng { next: seed as u64 }
    }
    fn next_word(self) -> (Self, u64) {
        let next = self.next.wrapping_add(0x9E3779B97F4A7C15);
        (CountingPrng { next }, next)
    }
    fn seed(&mut self, seed: u128) {
        self.next = seed as u64;
    }
    fn next_u64(&mut self) -> u64 {
        self.next = self.next.wrapping_add(0x9E3779B97F4A7C15);
        self.next
    }
}

#[test]
fn generate_permutation_is_always_a_bijection() {
    let mut prng = CountingPrng::default();
    prng.seed(1);
    for _ in 0..1000 {
        let perm = generate_permutation(&mut prng, 8);
        assert_eq!(perm.len(), 8);
        let mut seen = [false; 8];
        for &v in &perm {
            assert!(!seen[v as usize], "duplicate value {v} in {perm:?}");
            seen[v as usize] = true;
        }
    }
}

#[test]
fn generate_permutation_is_a_bijection_with_a_real_prng() {
    let mut prng = Xorshift128Plus::default();
    prng.seed(0xDEAD_BEEF_CAFE_F00D_1234_5678_9ABC_DEF0);
    for _ in 0..1000 {
        let perm = generate_permutation(&mut prng, 5);
        let mut seen = [false; 5];
        for &v in &perm {
            assert!(!seen[v as usize]);
            seen[v as usize] = true;
        }
    }
}

#[test]
fn apply_permutation_identity_is_a_no_op() {
    let identity: Vec<u8> = (0..5u8).collect();
    let result = apply_permutation(&identity, &identity);
    assert_eq!(result, identity);
    assert_eq!(identity_permutation(5), identity);
}

#[test]
fn bounded_draws_stay_within_range_and_cover_it() {
    let mut prng = Xorshift128Plus::default();
    prng.seed(7);
    const BOUND: u32 = 6;
    const SAMPLES: u32 = 60_000;
    let mut counts = [0u32; BOUND as usize];
    for _ in 0..SAMPLES {
        let v = bounded(&mut prng, BOUND);
        assert!(v < BOUND);
        counts[v as usize] += 1;
    }
    let expected = SAMPLES / BOUND;
    for &c in &counts {
        assert!(
            c > expected / 2 && c < expected * 3 / 2,
            "bucket count {c} too far from expected {expected}: {counts:?}"
        );
    }
}

#[test]
fn apply_permutation_composes_index_wise() {
    let base: Vec<u8> = vec![10, 20, 30, 40];
    let perm: Vec<u8> = vec![2, 0, 3, 1];
    assert_eq!(apply_permutation(&base, &perm), vec![30, 10, 40, 20]);
}

#[test]
fn xorshift128plus_all_zero_seed_does_not_stick_at_zero() {
    let mut prng = Xorshift128Plus::default();
    prng.seed(0);
    assert_ne!(prng.next_u64(), 0);
}

#[test]
fn xorshift128plus_is_deterministic_per_seed() {
    let mut a = Xorshift128Plus::default();
    let mut b = Xorshift128Plus::default();
    a.seed(0x1234_5678_9abc_def0_1122_3344_5566_7788);
    b.seed(0x1234_5678_9abc_def0_1122_3344_5566_7788);
    for _ in 0..64 {
        assert_eq!(a.next_u64(), b.next_u64());
    }
}

#[test]
fn xorshift128plus_different_seeds_diverge() {
    let mut a = Xorshift128Plus::default();
    let mut b = Xorshift128Plus::default();
    a.seed(1);
    b.seed(2);
    let seq_a: [u64; 8] = core::array::from_fn(|_| a.next_u64());
    let seq_b: [u64; 8] = core::array::from_fn(|_| b.next_u64());
    assert_ne!(seq_a, seq_b);
}

#[test]
fn xorshift128plus_first_word_is_the_sum_of_the_seed_halves() {
    let mut prng = Xorshift128Plus::default();
    prng.seed((3u128 << 64) | 5);
    assert_eq!(prng.next_u64(), 8);
    let mut fallback = Xorshift128Plus::default();
    fallback.seed(0);
    assert_eq!(fallback.next_u64(), 0x9E3779B97F4A7C15u64.wrapping_add(0xBF58476D1CE4E5B9));
}

#[test]
fn next_u32_takes_the_upper_half_of_next_u64() {
    let mut a = Xorshift128Plus::default();
    let mut b = Xorshift128Plus::default();
    a.seed(77);
    b.seed(77);
    assert_eq!(a.next_u32(), (b.next_u64() >> 32) as u32);
}

#[test]
fn next_x48_is_deterministic_per_seed() {
    let mut a = NextX48::default();
    let mut b = NextX48::default();
    a.seed(42);
    b.seed(42);
    for _ in 0..64 {
        assert_eq!(a.next_u64(), b.next_u64());
    }
}

#[test]
fn next_x48_different_seeds_diverge() {
    let mut a = NextX48::default();
    let mut b = NextX48::default();
    a.seed(1);
    b.seed(2);
    let seq_a: [u64; 8] = core::array::from_fn(|_| a.next_u64());
    let seq_b: [u64; 8] = core::array::from_fn(|_| b.next_u64());
    assert_ne!(seq_a, seq_b);
}

#[test]
fn next_x48_matches_the_java_random_recurrence() {
    let mut prng = NextX48::default();
    prng.seed(0);
    let mut state: u64 = 0x5DEECE66D;
    state = (state.wrapping_mul(0x5DEECE66D).wrapping_add(0xB)) & ((1u64 << 48) - 1);
    let hi = state >> 16;
    state = (state.wrapping_mul(0x5DEECE66D).wrapping_add(0xB)) & ((1u64 << 48) - 1);
    let lo = state >> 16;
    assert_eq!(prng.next_u64(), (hi << 32) | lo);
}
