use qpp_rng::footprint::size::parse_size_output;
use qpp_rng::footprint::stack::{high_water_mark, measure_high_water_mark, paint, FILL_PATTERN};

const SAMPLE_SIZE_OUTPUT: &str = "\
   text    data     bss     dec     hex filename
   9042     248      24    9314    2462 target/release/qpp-rng-example
";

#[test]
fn parses_berkeley_size_table() {
    let (text, data, bss) = parse_size_output(SAMPLE_SIZE_OUTPUT);
    assert_eq!(text, Some(9042));
    assert_eq!(data, Some(248));
    assert_eq!(bss, Some(24));
}

#[test]
fn parse_size_berkeley_handles_a_leading_build_banner() {
    let with_banner = format!("   Compiling foo v0.1.0\n{SAMPLE_SIZE_OUTPUT}");
    let (text, _, _) = parse_size_output(&with_banner);
    assert_eq!(text, Some(9042));
}

const SAMPLE_MACHO_SIZE_OUTPUT: &str =
    "__TEXT\t__DATA\t__OBJC\tothers\tdec\thex\n262144\t16384\t0\t4295065600\t4295344128\t10005c000\t\n";

#[test]
fn parses_macho_size_table() {
    let (text, data, bss) = parse_size_output(SAMPLE_MACHO_SIZE_OUTPUT);
    assert_eq!(text, Some(262144));
    assert_eq!(data, Some(16384));
    assert_eq!(bss, None);
}

#[test]
fn size_output_without_a_header_or_row_gives_nothing() {
    assert_eq!(parse_size_output(""), (None, None, None));
    assert_eq!(parse_size_output("no table here\n"), (None, None, None));
    assert_eq!(parse_size_output("   text    data     bss\n"), (None, None, None));
    assert_eq!(parse_size_output("text data bss\r\n12 x +7\r\n"), (Some(12), None, Some(7)));
    assert_eq!(
        parse_size_output("text data bss\n99999999999999999999 1 2\n"),
        (None, Some(1), Some(2))
    );
}

#[test]
fn high_water_mark_of_untouched_region_is_zero() {
    let region = [FILL_PATTERN; 128];
    assert_eq!(high_water_mark(&region), 0);
}

#[test]
fn high_water_mark_of_fully_touched_region_is_its_length() {
    let region = [0u8; 128];
    assert_eq!(high_water_mark(&region), 128);
}

#[test]
fn high_water_mark_reports_deepest_touched_byte() {
    let mut region = [FILL_PATTERN; 128];
    for b in &mut region[..40] {
        *b = 0x00;
    }
    assert_eq!(high_water_mark(&region), 40);
}

#[test]
fn measure_high_water_mark_paints_then_scans_around_a_workload() {
    let mut scratch = vec![0u8; 64];
    let depth = measure_high_water_mark(&mut scratch, |region| {
        for b in &mut region[..10] {
            *b = 0x42;
        }
    });
    assert_eq!(depth, 10);
}

#[test]
fn measure_high_water_mark_of_a_no_op_workload_is_zero() {
    let mut scratch = vec![0u8; 32];
    let depth = measure_high_water_mark(&mut scratch, |_region| {});
    assert_eq!(depth, 0);
}

#[test]
fn paint_fills_every_byte() {
    let mut region = [1u8, 2, 3];
    paint(&mut region);
    assert_eq!(region, [0xAA; 3]);
}

use qpp_rng::footprint::cycles::measure_fill_ticks;
use qpp_rng::footprint::size::{
    bloat_report_from_output, cargo_bloat_args, cargo_size_args, find_crate_row_bytes,
    parse_size_with_unit, size_report_from_output,
};
use qpp_rng::footprint::stack::{call_stack_report_from_output, cargo_call_stack_args, max_labeled_bytes};
use qpp_rng::generator::QppRng;
use qpp_rng::mock_clock::MockClock;
use qpp_rng::prng::Xorshift128Plus;

const SAMPLE_BLOAT_OUTPUT: &str = "\
File  .text     Size Crate
 4.2%  10.5%  40.1KiB qpp_rng_reference
 2.1%   5.3%  20.0KiB entropy_timer
93.7%  84.2% 320.7KiB std
100.0%  100.0% 380.8KiB .text section size, the file size is 1.2MiB
";

#[test]
fn finds_the_matching_crate_row_and_converts_units() {
    let bytes = find_crate_row_bytes(SAMPLE_BLOAT_OUTPUT, "qpp-rng-reference");
    assert_eq!(bytes, Some((40.1_f64 * 1024.0).round() as u64));
}

#[test]
fn missing_crate_row_returns_none() {
    assert_eq!(find_crate_row_bytes(SAMPLE_BLOAT_OUTPUT, "not-a-real-crate"), None);
}

#[test]
fn parse_size_with_unit_handles_plain_bytes() {
    assert_eq!(parse_size_with_unit(" 4.2%  10.5%    512B some_crate"), Some(512));
}

#[test]
fn size_units_scale_exactly_and_round_half_up() {
    assert_eq!(parse_size_with_unit("1.5MiB"), Some(1_572_864));
    assert_eq!(parse_size_with_unit("2GiB x"), Some(2 * 1_073_741_824));
    assert_eq!(parse_size_with_unit("0.5B"), Some(1));
    assert_eq!(parse_size_with_unit("0.49B"), Some(0));
    assert_eq!(parse_size_with_unit("1.2.3KiB"), Some(1229));
    assert_eq!(parse_size_with_unit("no units here"), None);
    assert_eq!(parse_size_with_unit("B before 5B"), None);
    assert_eq!(parse_size_with_unit("99999999999999999999KiB"), Some(u64::MAX));
    assert_eq!(find_crate_row_bytes(SAMPLE_BLOAT_OUTPUT, "std"), Some(328_397));
    assert_eq!(find_crate_row_bytes(SAMPLE_BLOAT_OUTPUT, "entropy-timer"), Some(20_480));
}

#[test]
fn reports_are_built_from_tool_output() {
    let size = size_report_from_output("/bin/cargo-size".to_string(), SAMPLE_SIZE_OUTPUT.to_string());
    assert_eq!(size.tool_path.as_deref(), Some("/bin/cargo-size"));
    assert_eq!((size.text_bytes, size.data_bytes, size.bss_bytes), (Some(9042), Some(248), Some(24)));
    assert_eq!(size.raw_stdout, SAMPLE_SIZE_OUTPUT);
    let bloat = bloat_report_from_output(
        "/bin/cargo-bloat".to_string(),
        SAMPLE_BLOAT_OUTPUT.to_string(),
        "qpp-rng-reference",
    );
    assert_eq!(bloat.crate_bytes, Some(41062));
    let stack = call_stack_report_from_output(
        "/bin/cargo-call-stack".to_string(),
        "digraph {\n  a [label=\"main\\nmax = 120\"]\n  b [label=\"f\\nmax = 88.5\"]\n}\n".to_string(),
    );
    assert_eq!(stack.max_labeled_bytes, Some(120));
}

#[test]
fn max_labeled_bytes_takes_the_largest_first_number_per_line() {
    assert_eq!(max_labeled_bytes("no numbers\nat all"), None);
    assert_eq!(max_labeled_bytes("x 3 9999\ny 12.9 z\n7"), Some(12));
    assert_eq!(max_labeled_bytes(""), None);
}

#[test]
fn tool_arguments_follow_the_cargo_subcommands() {
    assert_eq!(
        cargo_size_args("Cargo.toml", "fw", Some("thumbv7em-none-eabihf")),
        vec!["size", "--manifest-path", "Cargo.toml", "--release", "--bin", "fw", "--target", "thumbv7em-none-eabihf"]
    );
    assert_eq!(
        cargo_bloat_args("m/Cargo.toml", "fw", None),
        vec!["bloat", "--manifest-path", "m/Cargo.toml", "--release", "--crates", "--bin", "fw"]
    );
    assert_eq!(
        cargo_call_stack_args("m/Cargo.toml", "fw"),
        vec!["call-stack", "--manifest-path", "m/Cargo.toml", "--bin", "fw"]
    );
}

#[test]
fn measures_elapsed_ticks_of_a_fill() {
    let mut rng = QppRng::<Xorshift128Plus, MockClock, 5>::new(
        Xorshift128Plus::default(),
        MockClock::new(vec![10, 20]),
        3,
    );
    let mut timer = MockClock::new(vec![500]);
    assert_eq!(measure_fill_ticks(&mut rng, &mut timer, 100), 500);
}

#[test]
fn measured_ticks_wrap_around_the_counter() {
    let mut rng = QppRng::<Xorshift128Plus, MockClock, 5>::new(
        Xorshift128Plus::default(),
        MockClock::new(vec![10, 20]),
        3,
    );
    let mut timer = MockClock::new(vec![u64::MAX - 10, 51]);
    assert_eq!(measure_fill_ticks(&mut rng, &mut timer, 10), u64::MAX - 10);
    assert_eq!(measure_fill_ticks(&mut rng, &mut timer, 10), 51);
}
