use qpp_rng::candidates::QppRngXorshift;
use qpp_rng::generator::{permutation_entropy_bits, QppRng, DEFAULT_OVERSAMPLE};
use qpp_rng::mock_clock::MockClock;
use qpp_rng::prng::Xorshift128Plus;
use qpp_rng::rng_core::QppRngSource;

/// `rand_core::Rng` over a QPP-RNG byte source.
struct RandCoreAdapter<R: QppRngSource>(R);

impl<R: QppRngSource> rand_core::TryRng for RandCoreAdapter<R> {
    type Error = core::convert::Infallible;
    fn try_next_u32(&mut self) -> Result<u32, Self::Error> {
        Ok(self.0.next_u32())
    }
    fn try_next_u64(&mut self) -> Result<u64, Self::Error> {
        Ok(self.0.next_u64())
    }
    fn try_fill_bytes(&mut self, dst: &mut [u8]) -> Result<(), Self::Error> {
        self.0.fill_bytes(dst);
        Ok(())
    }
}

#[test]
fn oversample_defaults_match_the_paper() {
    let rng = QppRng::<Xorshift128Plus, MockClock, 5>::new(
        Xorshift128Plus::default(),
        MockClock::new(vec![7]),
        1,
    );
    assert_eq!(rng.oversample(), DEFAULT_OVERSAMPLE);

    let rng6 = QppRng::<Xorshift128Plus, MockClock, 6>::new(
        Xorshift128Plus::default(),
        MockClock::new(vec![7]),
        1,
    );
    assert_eq!(rng6.oversample(), 1);
}

#[test]
fn same_seed_and_same_jitter_script_reproduce_the_same_bytes() {
    let deltas = vec![101u64, 43, 999, 7, 256, 12];
    let mut a = QppRng::<Xorshift128Plus, MockClock, 5>::new(
        Xorshift128Plus::default(),
        MockClock::new(deltas.clone()),
        0x1122_3344_5566_7788_99AA_BBCC_DDEE_FF00,
    );
    let mut b = QppRng::<Xorshift128Plus, MockClock, 5>::new(
        Xorshift128Plus::default(),
        MockClock::new(deltas),
        0x1122_3344_5566_7788_99AA_BBCC_DDEE_FF00,
    );

    for _ in 0..16 {
        assert_eq!(a.next_byte(), b.next_byte());
    }
}

#[test]
fn different_jitter_scripts_diverge() {
    let mut a = QppRng::<Xorshift128Plus, MockClock, 5>::new(
        Xorshift128Plus::default(),
        MockClock::new(vec![101, 43, 999, 7, 256]),
        42,
    );
    let mut b = QppRng::<Xorshift128Plus, MockClock, 5>::new(
        Xorshift128Plus::default(),
        MockClock::new(vec![5, 5, 5, 5, 5]),
        42,
    );

    let out_a: Vec<u8> = (0..16).map(|_| a.next_byte()).collect();
    let out_b: Vec<u8> = (0..16).map(|_| b.next_byte()).collect();
    assert_ne!(out_a, out_b);
}

#[test]
fn diagnostics_report_the_last_cycle() {
    let mut rng = QppRng::<Xorshift128Plus, MockClock, 5>::new(
        Xorshift128Plus::default(),
        MockClock::new(vec![50]),
        1,
    );
    let _ = rng.next_byte();
    let diag = rng.diagnostics();
    assert!(diag.last_permutation_count > 0);
    assert!(diag.last_jitter_ns.is_some());
    assert_eq!(diag.permutation_size_bits, permutation_entropy_bits(5));
}

#[test]
fn rand_core_rng_trait_is_usable_end_to_end() {
    let mut rng = RandCoreAdapter(QppRng::<Xorshift128Plus, MockClock, 6>::new(
        Xorshift128Plus::default(),
        MockClock::new(vec![10, 20, 30]),
        7,
    ));
    let _: u32 = rand_core::Rng::next_u32(&mut rng);
    let _: u64 = rand_core::Rng::next_u64(&mut rng);
    let mut buf = [0u8; 32];
    rand_core::Rng::fill_bytes(&mut rng, &mut buf);
    assert!(buf.iter().any(|&b| b != 0));
}

#[test]
fn platform_timer_end_to_end_runs_without_panicking() {
    let mut rng = QppRngXorshift::from_seed(0xC0FF_EE00_1234_5678_9ABC_DEF0_1122_3344);
    let mut buf = [0u8; 64];
    rng.fill_bytes(&mut buf);
    assert!(buf.iter().any(|&b| b != buf[0]));
}

#[test]
fn real_timer_output_does_not_collapse_onto_one_byte_value() {
    let mut rng = QppRngXorshift::from_seed(0x5EED_0000_1111_2222_3333_4444_5555_6666);
    const SAMPLES: u32 = 2000;
    let mut counts = [0u32; 256];
    for _ in 0..SAMPLES {
        counts[rng.next_byte() as usize] += 1;
    }
    let max = *counts.iter().max().unwrap();
    assert!(
        max < SAMPLES / 10,
        "byte value dominated the sample ({max}/{SAMPLES} occurrences)"
    );
}

#[test]
fn permutation_entropy_of_small_widths() {
    assert_eq!(permutation_entropy_bits(0), 0);
    assert_eq!(permutation_entropy_bits(1), 0);
    assert_eq!(permutation_entropy_bits(5), 6);
    assert_eq!(permutation_entropy_bits(6), 9);
    assert_eq!(permutation_entropy_bits(20), 61);
}

#[test]
fn with_oversample_overrides_cycles_per_byte() {
    let rng = QppRng::<Xorshift128Plus, MockClock, 5>::new(
        Xorshift128Plus::default(),
        MockClock::new(vec![7]),
        1,
    )
    .with_oversample(3);
    assert_eq!(rng.oversample(), 3);
}

#[test]
fn fill_bytes_agrees_with_next_byte_under_the_same_script() {
    let mut a = QppRng::<Xorshift128Plus, MockClock, 5>::new(
        Xorshift128Plus::default(),
        MockClock::new(vec![3, 9, 27]),
        99,
    );
    let mut b = QppRng::<Xorshift128Plus, MockClock, 5>::new(
        Xorshift128Plus::default(),
        MockClock::new(vec![3, 9, 27]),
        99,
    );
    let mut buf = [0u8; 12];
    a.fill_bytes(&mut buf);
    let bytes: Vec<u8> = (0..12).map(|_| b.next_byte()).collect();
    assert_eq!(buf.to_vec(), bytes);
    let word = a.next_u32();
    let expected = u32::from_le_bytes([b.next_byte(), b.next_byte(), b.next_byte(), b.next_byte()]);
    assert_eq!(word, expected);
}

#[test]
fn one_element_array_bytes_are_the_parity_of_the_cycles() {
    let mut rng = QppRng::<Xorshift128Plus, MockClock, 1>::new(
        Xorshift128Plus::default(),
        MockClock::new(vec![3, 9, 27]),
        0xABCD,
    );
    assert_eq!(rng.oversample(), DEFAULT_OVERSAMPLE);
    let mut buf = [0u8; 8];
    rng.fill_bytes(&mut buf);
    assert_eq!(buf, [1u8; 8]);
    assert_eq!(rng.diagnostics().last_permutation_count, 1);

    let mut even = QppRng::<Xorshift128Plus, MockClock, 1>::new(
        Xorshift128Plus::default(),
        MockClock::new(vec![3, 9, 27]),
        0xABCD,
    )
    .with_oversample(2);
    assert_eq!(even.oversample(), 2);
    let mut buf = [7u8; 8];
    even.fill_bytes(&mut buf);
    assert_eq!(buf, [0u8; 8]);
}
