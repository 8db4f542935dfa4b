use qpp_rng::candidates::{all_candidates, find};
use qpp_rng::differential::{
    check_all_determinism, check_all_parity, check_parity, diff, parity_from_observations,
    run_all,
};
use qpp_rng::generator::permutation_entropy_bits;
use qpp_rng::mock_clock::MockClock;
use qpp_rng::rng_core::RngDiagnostics;
use qpp_rng::timer::HighResTimer;

#[test]
fn every_reference_configuration_is_deterministic_under_a_fixed_script() {
    let results = check_all_determinism(
        0x1122_3344_5566_7788_99AA_BBCC_DDEE_FF00,
        &[101, 43, 999, 7, 256, 12],
        32,
    );
    assert_eq!(results.len(), 2);
    for r in &results {
        assert!(r.deterministic, "{r:?} was not deterministic");
        assert!(r.first_divergence_index.is_none());
    }
}

#[test]
fn consecutive_tick_pairs_differ_by_the_scripted_delta() {
    let mut clock = MockClock::new(vec![7, 13, 5]);
    let a0 = clock.tick();
    let a1 = clock.tick();
    assert_eq!(a1.wrapping_sub(a0), 7);
    let b0 = clock.tick();
    let b1 = clock.tick();
    assert_eq!(b1.wrapping_sub(b0), 13);
}

#[test]
fn script_repeats_once_exhausted() {
    let mut clock = MockClock::new(vec![10]);
    for _ in 0..3 {
        let a = clock.tick();
        let b = clock.tick();
        assert_eq!(b.wrapping_sub(a), 10);
    }
}

#[test]
fn every_registered_candidate_passes_parity() {
    for result in check_all_parity(0xC0FF_EE00_1234_5678_9ABC_DEF0_1122_3344) {
        assert!(result.all_passed(), "{result:?}");
    }
}

#[test]
fn permutation_entropy_bits_matches_known_values() {
    assert_eq!(permutation_entropy_bits(0), 0);
    assert_eq!(permutation_entropy_bits(1), 0);
    assert_eq!(permutation_entropy_bits(5), 6);
    assert_eq!(permutation_entropy_bits(6), 9);
}

#[test]
fn run_all_passes_for_a_reasonable_default_script() {
    let report = run_all(0x1234_5678, &[10, 20, 30, 40], 32);
    assert!(report.all_passed(), "{report:?}");
}

#[test]
fn diff_reports_the_first_mismatch() {
    let r = diff("x", &[1, 2, 3, 4], &[1, 2, 9, 4]);
    assert!(!r.deterministic);
    assert_eq!(r.first_divergence_index, Some(2));
    assert_eq!(r.n_bytes, 4);
    assert_eq!(r.candidate, "x");
    let same = diff("y", &[5, 6], &[5, 6, 7]);
    assert!(same.deterministic);
    assert_eq!(same.first_divergence_index, None);
    assert_eq!(same.n_bytes, 2);
}

#[test]
fn parity_verdict_lists_each_failed_check() {
    let before = [0x5Au8; 4];
    let diag = RngDiagnostics {
        permutation_size_bits: 7,
        last_permutation_count: 0,
        last_jitter_ns: None,
    };
    let r = parity_from_observations("c", 5, &before, &before, diag);
    assert!(r.handles_zero_length_buffer);
    assert!(!r.writes_to_the_buffer);
    assert!(!r.diagnostics_report_nonzero_activity);
    assert!(!r.diagnostics_permutation_size_matches_array_size);
    assert!(!r.all_passed());
    assert_eq!(
        r.errors,
        vec![
            "fill_bytes left the buffer exactly as it was (looks like a no-op)".to_string(),
            "diagnostics().last_permutation_count was 0 after generating output".to_string(),
            "diagnostics().permutation_size_bits = 7, expected floor(log2(5!)) = 6".to_string(),
        ]
    );
    let ok = parity_from_observations(
        "c",
        5,
        &before,
        &[0x5A, 0x5A, 0x00, 0x5A],
        RngDiagnostics { permutation_size_bits: 6, last_permutation_count: 3, last_jitter_ns: Some(1) },
    );
    assert!(ok.all_passed());
    assert!(ok.errors.is_empty());
}

#[test]
fn parity_flags_a_mismatched_array_width() {
    let mut c = find("reference-nextx48").unwrap();
    c.array_size = 6;
    let r = check_parity(&c, 1);
    assert!(!r.diagnostics_permutation_size_matches_array_size);
    assert!(r.diagnostics_report_nonzero_activity);
    assert!(r
        .errors
        .contains(&"diagnostics().permutation_size_bits = 6, expected floor(log2(6!)) = 9".to_string()));
    assert_eq!(all_candidates().len(), check_all_parity(2).len());
}
