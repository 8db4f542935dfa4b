use std::collections::BTreeMap;

use qpp_rng::stats::metrics::{
    find_number_after, first_decimal_token, first_number_token, key_value_tokens, last_label_with_prefix, MAX_LABEL_BYTES,
};

const SAMPLE_ENT_OUTPUT: &str = "\
Entropy = 7.999826 bits per byte.

Optimum compression would reduce the size
of this 1048576 byte file by 0 percent.

Chi square distribution for 1048576 samples is 254.91, and randomly
would exceed this value 47.32 percent of the times.

Arithmetic mean value of data bytes is 127.5108 (127.5 = random).
Monte Carlo value for Pi is 3.140501258 (error 0.03 percent).
Serial correlation coefficient is 0.000151 (totally uncorrelated = 0.0).
";

fn float_after(text: &str, marker: &str) -> Option<f64> {
    find_number_after(text, marker)?.parse::<f64>().ok()
}

fn key_value_map(text: &str) -> BTreeMap<String, f64> {
    let mut out = BTreeMap::new();
    for (label, token) in key_value_tokens(text) {
        out.insert(label, token.parse::<f64>().unwrap());
    }
    out
}

fn pair(label: &str, token: &str) -> (String, String) {
    (label.to_string(), token.to_string())
}

#[test]
fn parses_a_representative_ent_report() {
    let entropy = float_after(SAMPLE_ENT_OUTPUT, "Entropy = ").expect("should parse");
    let chi_square = float_after(SAMPLE_ENT_OUTPUT, "samples is ").expect("should parse");
    let exceed = float_after(SAMPLE_ENT_OUTPUT, "exceed this value ").expect("should parse");
    let mean = float_after(SAMPLE_ENT_OUTPUT, "data bytes is ").expect("should parse");
    let pi = float_after(SAMPLE_ENT_OUTPUT, "value for Pi is ").expect("should parse");
    let pi_error = float_after(SAMPLE_ENT_OUTPUT, "(error ").expect("should parse");
    let serial = float_after(SAMPLE_ENT_OUTPUT, "coefficient is ").expect("should parse");
    assert!((entropy - 7.999826).abs() < 1e-6);
    assert!((chi_square - 254.91).abs() < 1e-6);
    assert!((exceed - 47.32).abs() < 1e-6);
    assert!((mean - 127.5108).abs() < 1e-6);
    assert!((pi - 3.140501258).abs() < 1e-6);
    assert!((pi_error - 0.03).abs() < 1e-6);
    assert!((serial - 0.000151).abs() < 1e-9);
}

#[test]
fn extract_key_value_pairs_ignores_units_and_keeps_first_number() {
    let map = key_value_map(SAMPLE_ENT_OUTPUT);
    assert!((map["Entropy"] - 7.999826).abs() < 1e-6);
    assert!((map["Serial correlation coefficient is 0.000151 (totally uncorrelated"] - 0.0).abs() < 1e-9);
}

#[test]
fn ent_report_readings_in_line_order() {
    // The mean line's `=` has no number after it, so it gives nothing.
    assert_eq!(
        key_value_tokens(SAMPLE_ENT_OUTPUT),
        vec![
            pair("Entropy", "7.999826"),
            pair("Serial correlation coefficient is 0.000151 (totally uncorrelated", "0.0"),
        ]
    );
}

#[test]
fn first_number_token_takes_sign_digits_and_fraction() {
    assert_eq!(first_number_token("abc-12.5x"), Some("-12.5".to_string()));
    assert_eq!(first_number_token("a-b5"), Some("5".to_string()));
    assert_eq!(first_number_token("--7"), Some("-7".to_string()));
    assert_eq!(first_number_token("x 3. y"), Some("3".to_string()));
    assert_eq!(first_number_token("1.2.3"), Some("1.2".to_string()));
    assert_eq!(first_number_token("-.5"), Some("5".to_string()));
    assert_eq!(first_number_token("é 42"), Some("42".to_string()));
}

#[test]
fn first_number_token_is_none_without_digits() {
    assert_eq!(first_number_token(""), None);
    assert_eq!(first_number_token("no digits - here."), None);
}

#[test]
fn find_number_after_reads_past_the_first_marker_only() {
    assert_eq!(find_number_after("x = 1, x = 2", "x = "), Some("1".to_string()));
    assert_eq!(find_number_after("value 9 then marker", "marker"), None);
    assert_eq!(find_number_after("no marker 5", "absent"), None);
    assert_eq!(find_number_after("7 with an empty marker", ""), Some("7".to_string()));
}

#[test]
fn colon_is_tried_before_equals() {
    assert_eq!(key_value_tokens("a = 1: 2"), vec![pair("a = 1", "2")]);
    // A usable label at `:` with no number after it ends the line's reading.
    assert_eq!(key_value_tokens("k=5: none"), Vec::<(String, String)>::new());
}

#[test]
fn an_empty_label_falls_through_to_equals() {
    assert_eq!(key_value_tokens(": x = 7"), vec![pair(": x", "7")]);
    assert_eq!(key_value_tokens("  : 5"), Vec::<(String, String)>::new());
}

#[test]
fn labels_longer_than_the_byte_limit_are_skipped() {
    let ascii = "a".repeat(MAX_LABEL_BYTES);
    assert_eq!(key_value_tokens(&format!("{ascii}: 1")), vec![pair(&ascii, "1")]);
    let too_long = "a".repeat(MAX_LABEL_BYTES + 1);
    assert_eq!(key_value_tokens(&format!("{too_long}: 1")), Vec::<(String, String)>::new());
    // Forty-one two-byte characters: 82 bytes, though only 41 characters.
    let wide = "é".repeat(41);
    assert_eq!(key_value_tokens(&format!("{wide}: 1")), Vec::<(String, String)>::new());
}

#[test]
fn labels_are_trimmed_and_lines_split_like_str_lines() {
    assert_eq!(
        key_value_tokens("  H_original :  7.5 bits\r\nH_bitstring = -0.25\nno separator 3\n"),
        vec![pair("H_original", "7.5"), pair("H_bitstring", "-0.25")]
    );
}

#[test]
fn last_label_with_prefix_picks_the_greatest_matching_label() {
    let labels: Vec<String> = ["H_original", "min(H_original, 8 X H_bitstring)", "min(a)", "zeta"]
        .iter()
        .map(|s| s.to_string())
        .collect();
    assert_eq!(last_label_with_prefix(&labels, "min("), Some(2));
    assert_eq!(last_label_with_prefix(&labels, "max("), None);
    let unsorted: Vec<String> = ["min(b)", "min(c)", "min(a)"].iter().map(|s| s.to_string()).collect();
    assert_eq!(last_label_with_prefix(&unsorted, "min("), Some(1));
}

fn first_number_from(text: &str, from: usize) -> Option<f64> {
    first_decimal_token(&text[from.min(text.len())..])?.parse::<f64>().ok()
}

#[test]
fn first_number_from_skips_leading_text() {
    assert_eq!(first_number_from("Size: 12.5KiB more text", 0), Some(12.5));
}

#[test]
fn first_number_from_returns_none_when_absent() {
    assert_eq!(first_number_from("no digits here", 0), None);
}

#[test]
fn first_decimal_token_ignores_signs() {
    assert_eq!(first_decimal_token("a-3.25b"), Some("3.25".to_string()));
    assert_eq!(first_decimal_token("7."), Some("7".to_string()));
}
