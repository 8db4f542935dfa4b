use qpp_rng::firmware::{firmware_sample, SAMPLE_BYTES, SEED};
use qpp_rng::generator::QppRng;
use qpp_rng::mock_clock::MockClock;
use qpp_rng::prng::Xorshift128Plus;
use qpp_rng::report::{csv_escape, fmt_bool, key_index, opt_str, overall_verdict, row_keys};
use qpp_rng::rng_core::QppRngSource;
use qpp_rng::stats::options::{battery_passed, sp800_90b_tool_name, Sp80090bTrack, Tier2Options, ToolOutcome};
use qpp_rng::stats::sample::{generate_sample, CHUNK_BYTES, MIN_SAMPLE_BYTES};
use qpp_rng::stats::tier1::{byte_histogram, count_bit_changes, count_one_bits, serial_correlation_sums};

/// A cheap scripted source: width 1, one cycle per byte.
fn quick_source(seed: u128) -> QppRng<Xorshift128Plus, MockClock, 1> {
    QppRng::<Xorshift128Plus, MockClock, 1>::new(Xorshift128Plus::default(), MockClock::new(vec![3, 7, 11]), seed)
        .with_oversample(1)
}

#[test]
fn generate_sample_writes_exactly_n_bytes() {
    let mut rng = quick_source(1);
    let mut out = Vec::new();
    generate_sample(&mut rng, &mut out, MIN_SAMPLE_BYTES);
    assert_eq!(out.len(), MIN_SAMPLE_BYTES);
}

#[test]
fn generate_sample_spans_multiple_chunks_without_gaps() {
    let mut rng = quick_source(2);
    let mut out = Vec::new();
    let n = MIN_SAMPLE_BYTES + CHUNK_BYTES + 3;
    generate_sample(&mut rng, &mut out, n);
    assert_eq!(out.len(), n);
    let mut direct = quick_source(2);
    let mut expected = vec![0u8; n];
    direct.fill_bytes(&mut expected);
    assert_eq!(out, expected);
}

#[test]
fn escapes_fields_containing_commas_and_quotes() {
    assert_eq!(csv_escape("plain"), "plain");
    assert_eq!(csv_escape("a,b"), "\"a,b\"");
    assert_eq!(csv_escape("a\"b"), "\"a\"\"b\"");
}

#[test]
fn csv_escape_quotes_line_breaks_and_keeps_unicode() {
    assert_eq!(csv_escape("line\nbreak"), "\"line\nbreak\"");
    assert_eq!(csv_escape("cr\r"), "\"cr\r\"");
    assert_eq!(csv_escape("\"\""), "\"\"\"\"\"\"");
    assert_eq!(csv_escape("é,\"ü\""), "\"é,\"\"ü\"\"\"");
    assert_eq!(csv_escape(""), "");
}

#[test]
fn opt_str_renders_absent_values_blank() {
    assert_eq!(opt_str(Some("1.5".to_string())), "1.5");
    assert_eq!(opt_str(None), "");
}

#[test]
fn overall_verdict_ignores_gates_that_never_ran() {
    assert_eq!(overall_verdict(None, None, None), None);
    assert_eq!(overall_verdict(Some(true), None, None), Some(true));
    assert_eq!(overall_verdict(Some(true), Some(false), None), Some(false));
    assert_eq!(overall_verdict(None, None, Some(true)), Some(true));
}

#[test]
fn fmt_bool_renders_marks() {
    assert_eq!(fmt_bool(Some(true)), "✅");
    assert_eq!(fmt_bool(Some(false)), "❌");
    assert_eq!(fmt_bool(None), "—");
}

#[test]
fn tier2_options_all_and_none() {
    let all = Tier2Options::all();
    assert!(all.sp800_90b_iid && all.sp800_90b_non_iid && all.sp800_22 && all.ent);
    assert_eq!(all.bits_per_symbol, 8);
    assert_eq!(all.sts_bitstream_len_bits, 1_000_000);
    let none = Tier2Options::none();
    assert!(!none.sp800_90b_iid && !none.sp800_90b_non_iid && !none.sp800_22 && !none.ent);
    assert_eq!(none.bits_per_symbol, 8);
    assert_eq!(none.sts_bitstream_len_bits, 1_000_000);
    assert_eq!(sp800_90b_tool_name(Sp80090bTrack::Iid), "ea_iid");
    assert_eq!(sp800_90b_tool_name(Sp80090bTrack::NonIid), "ea_non_iid");
}

#[test]
fn bit_counts_follow_the_most_significant_bit_first_stream() {
    assert_eq!(count_one_bits(&[0b1011_0101, 0b0100_0000]), 6);
    assert_eq!(count_one_bits(&[]), 0);
    assert_eq!(count_bit_changes(&[0b1010_1010]), 7);
    assert_eq!(count_bit_changes(&[0xFF, 0x00]), 1);
    assert_eq!(count_bit_changes(&[0x01, 0x80]), 2);
}

#[test]
fn byte_histogram_counts_each_value() {
    let h = byte_histogram(&[7, 7, 0, 255, 7]);
    assert_eq!(h.len(), 256);
    assert_eq!(h[7], 3);
    assert_eq!(h[0], 1);
    assert_eq!(h[255], 1);
    assert_eq!(h.iter().sum::<u64>(), 5);
}

#[test]
fn serial_sums_wrap_around() {
    assert_eq!(serial_correlation_sums(&[1, 2, 3]), (6, 14, 1 * 2 + 2 * 3 + 3 * 1));
    assert_eq!(serial_correlation_sums(&[]), (0, 0, 0));
}

#[test]
fn firmware_sample_is_the_generators_next_bytes() {
    let mut a = quick_source(SEED);
    let mut b = quick_source(SEED);
    let sample = firmware_sample(&mut a);
    let mut expected = [0u8; SAMPLE_BYTES];
    b.fill_bytes(&mut expected);
    assert_eq!(sample, expected);
}

use qpp_rng::stats::tier2::{sts_counts_fit, sts_pass_counts};

#[test]
fn parse_sts_final_report_sums_pass_fractions() {
    let report = "\
------------------------------------------------------------------------------
RESULTS FOR THE UNIFORMITY OF P-VALUES AND THE PROPORTION OF PASSING SEQUENCES
------------------------------------------------------------------------------
  C1  C2  C3  C4  C5  C6  C7  C8  C9 C10  P-VALUE  PROPORTION  STATISTICAL TEST
------------------------------------------------------------------------------
   1   1   0   1   1   1   0   1   1   1  0.534146     10/10   Frequency
   1   0   1   1   1   0   1   1   1   1  0.213309     10/10   BlockFrequency
";
    assert!(sts_counts_fit(report));
    let (passed, total) = sts_pass_counts(report).expect("should parse");
    assert_eq!(passed, 20);
    assert_eq!(total, 20);
}

#[test]
fn sts_counts_skip_malformed_proportions() {
    assert_eq!(sts_pass_counts("no proportions"), None);
    assert_eq!(sts_pass_counts("3/0 5/4 x/2 7/9/1"), None);
    assert_eq!(sts_pass_counts("a 9/10\nb +1/2 c"), Some((10, 12)));
}

#[test]
fn overall_pass_ignores_tracks_that_never_ran() {
    assert_eq!(overall_verdict(Some(true), None, Some(true)), Some(true));
}

#[test]
fn overall_pass_is_false_if_any_ran_gate_failed() {
    assert_eq!(overall_verdict(Some(true), Some(false), Some(true)), Some(false));
}

#[test]
fn overall_pass_is_none_when_no_gate_ran_at_all() {
    assert_eq!(overall_verdict(None, None, None), None);
}

fn strings(v: &[&str]) -> Vec<String> {
    v.iter().map(|s| s.to_string()).collect()
}

#[test]
fn row_keys_list_each_name_once_in_name_order() {
    let names = strings(&[
        "reference-xorshift128plus",
        "conditioned-reference-xorshift128plus-sha256",
        "reference-xorshift128plus",
        "reference-nextx48",
        "reference-nextx48",
    ]);
    let keys = row_keys(&names);
    assert_eq!(
        keys,
        strings(&[
            "conditioned-reference-xorshift128plus-sha256",
            "reference-nextx48",
            "reference-xorshift128plus",
        ])
    );
}

#[test]
fn row_keys_do_not_depend_on_the_order_of_the_names() {
    let a = row_keys(&strings(&["b", "a", "ab", "", "a"]));
    let b = row_keys(&strings(&["a", "", "ab", "b"]));
    assert_eq!(a, b);
    assert_eq!(a, strings(&["", "a", "ab", "b"]));
    let mut sorted = a.clone();
    sorted.sort();
    assert_eq!(a, sorted);
}

#[test]
fn row_keys_order_matches_string_order_beyond_ascii() {
    let keys = row_keys(&strings(&["é", "z", "Z", "ä"]));
    let mut expected = strings(&["é", "z", "Z", "ä"]);
    expected.sort();
    assert_eq!(keys, expected);
}

#[test]
fn row_keys_of_no_names_is_empty() {
    assert!(row_keys(&Vec::new()).is_empty());
}

#[test]
fn key_index_finds_each_row_and_misses_others() {
    let keys = strings(&["alpha", "beta", "gamma"]);
    assert_eq!(key_index(&keys, "alpha"), Some(0));
    assert_eq!(key_index(&keys, "gamma"), Some(2));
    assert_eq!(key_index(&keys, "delta"), None);
    assert_eq!(key_index(&keys, "bet"), None);
}

#[test]
fn battery_passes_when_nothing_ran_unread() {
    assert!(battery_passed(true, &[ToolOutcome::Skipped, ToolOutcome::Skipped, ToolOutcome::Skipped, ToolOutcome::Skipped]));
    assert!(battery_passed(true, &[ToolOutcome::Missing, ToolOutcome::Parsed, ToolOutcome::Skipped, ToolOutcome::Missing]));
    assert!(battery_passed(true, &[]));
}

#[test]
fn battery_fails_on_failed_smoke_tests_or_an_unread_report() {
    assert!(!battery_passed(false, &[ToolOutcome::Parsed, ToolOutcome::Parsed, ToolOutcome::Parsed, ToolOutcome::Parsed]));
    assert!(!battery_passed(true, &[ToolOutcome::Parsed, ToolOutcome::Unparsed, ToolOutcome::Parsed, ToolOutcome::Parsed]));
    assert!(!battery_passed(true, &[ToolOutcome::Skipped, ToolOutcome::Skipped, ToolOutcome::Skipped, ToolOutcome::Unparsed]));
}
