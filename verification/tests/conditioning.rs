use qpp_rng::conditioning::{Sha256Conditioner, INPUT_BLOCK_BYTES, OUTPUT_BLOCK_BYTES};
use qpp_rng::generator::QppRng;
use qpp_rng::mock_clock::MockClock;
use qpp_rng::prng::Xorshift128Plus;
use qpp_rng::rng_core::QppRngSource;
use sha2::Digest;

type Raw = QppRng<Xorshift128Plus, MockClock, 5>;

fn raw(seed: u128) -> Raw {
    Raw::new(Xorshift128Plus::default(), MockClock::new(vec![101, 43, 999, 7]), seed)
}

#[test]
fn fill_bytes_of_exactly_one_block_matches_a_direct_sha256_call() {
    let mut cond = Sha256Conditioner::new(raw(11));
    let mut out = [0u8; OUTPUT_BLOCK_BYTES];
    cond.fill_bytes(&mut out);

    let mut source = raw(11);
    let mut block = [0u8; INPUT_BLOCK_BYTES];
    source.fill_bytes(&mut block);
    let expected = sha2::Sha256::digest(block);
    assert_eq!(&out[..], expected.as_slice());
}

#[test]
fn fill_bytes_spanning_multiple_blocks_produces_the_right_length_and_content() {
    let mut cond = Sha256Conditioner::new(raw(12));
    let n = OUTPUT_BLOCK_BYTES * 3 + 5;
    let mut out = vec![0u8; n];
    cond.fill_bytes(&mut out);
    assert_eq!(out.len(), n);

    let mut src = raw(12);
    let mut expected: Vec<u8> = Vec::new();
    while expected.len() < n {
        let mut block = [0u8; INPUT_BLOCK_BYTES];
        src.fill_bytes(&mut block);
        expected.extend_from_slice(sha2::Sha256::digest(block).as_slice());
    }
    expected.truncate(n);
    assert_eq!(out, expected);
}

#[test]
fn same_source_state_produces_deterministic_conditioned_output() {
    let mut a = Sha256Conditioner::new(raw(0));
    let mut b = Sha256Conditioner::new(raw(0));
    let mut out_a = [0u8; 100];
    let mut out_b = [0u8; 100];
    a.fill_bytes(&mut out_a);
    b.fill_bytes(&mut out_b);
    assert_eq!(out_a, out_b);
}

#[test]
fn different_source_state_diverges_conditioned_output() {
    let mut a = Sha256Conditioner::new(raw(0));
    let mut b = Sha256Conditioner::new(raw(7));
    let mut out_a = [0u8; 100];
    let mut out_b = [0u8; 100];
    a.fill_bytes(&mut out_a);
    b.fill_bytes(&mut out_b);
    assert_ne!(out_a, out_b);
}

#[test]
fn into_inner_and_inner_round_trip() {
    let cond = Sha256Conditioner::new(raw(42).with_oversample(3));
    assert_eq!(cond.inner().oversample(), 3);
    let inner = cond.into_inner();
    assert_eq!(inner.oversample(), 3);
}

#[test]
fn split_reads_continue_the_conditioned_stream() {
    let mut whole = Sha256Conditioner::new(raw(5));
    let mut parts = Sha256Conditioner::new(raw(5));
    let mut all = [0u8; 70];
    whole.fill_bytes(&mut all);
    let mut first = [0u8; 20];
    let mut second = [0u8; 50];
    parts.fill_bytes(&mut first);
    parts.fill_bytes(&mut second);
    assert_eq!(&all[..20], &first[..]);
    assert_eq!(&all[20..], &second[..]);
}

#[test]
fn conditioned_diagnostics_are_the_sources() {
    let mut cond = Sha256Conditioner::new(raw(3));
    let mut out = [0u8; 40];
    cond.fill_bytes(&mut out);
    let d = cond.diagnostics();
    let inner = cond.inner().diagnostics();
    assert_eq!(d.permutation_size_bits, inner.permutation_size_bits);
    assert_eq!(d.last_permutation_count, inner.last_permutation_count);
    assert!(d.last_permutation_count >= 1);
}

#[test]
fn an_empty_request_pulls_nothing_from_the_source() {
    let mut cond = Sha256Conditioner::new(raw(21));
    let mut empty: [u8; 0] = [];
    cond.fill_bytes(&mut empty);
    assert_eq!(cond.inner().diagnostics().last_permutation_count, 0);
    let mut after = [0u8; 40];
    cond.fill_bytes(&mut after);
    let mut fresh = Sha256Conditioner::new(raw(21));
    let mut expected = [0u8; 40];
    fresh.fill_bytes(&mut expected);
    assert_eq!(after, expected);
}
