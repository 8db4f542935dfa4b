//! Stack high-water-mark instrumentation: paint a region with a fill
//! pattern, run a workload over it, and find how deep the workload
//! reached.

use crate::text::{
    chars_of, char_views, decimal_token, digits_value, find_decimal_token, lines_of, saturate,
    scale_decimal, scaled_rounded, split_lines, string_views,
};
use vstd::prelude::*;

verus! {

/// Byte painted over a region before the workload runs; a byte still
/// holding it afterwards was never touched.
pub const FILL_PATTERN: u8 = 0xAA;

/// The region painted with [`FILL_PATTERN`].
pub open spec fn painted(len: nat) -> Seq<u8> {
    Seq::new(len, |i: int| FILL_PATTERN)
}

/// `mark` is the high-water mark of `region`: every byte before it was
/// touched, and it is the region's length or the index of the first byte
/// still holding the fill pattern.
pub open spec fn is_high_water_mark(region: Seq<u8>, mark: int) -> bool {
    &&& 0 <= mark <= region.len()
    &&& forall|j: int| 0 <= j < mark ==> region[j] != FILL_PATTERN
    &&& mark < region.len() ==> region[mark] == FILL_PATTERN
}

/// Paints `region` with [`FILL_PATTERN`].
pub fn paint(region: &mut [u8])
    ensures
        final(region)@ == painted(old(region)@.len()),
{
    let ghost len = region@.len();
    let mut i: usize = 0;
    while i < region.len()
        invariant
            region@.len() == len,
            i <= len,
            forall|j: int| 0 <= j < i ==> region@[j] == FILL_PATTERN,
        decreases len - i,
    {
        region[i] = FILL_PATTERN;
        i = i + 1;
    }
    assert(region@ =~= painted(len));
}

/// How many bytes, from the start, no longer hold [`FILL_PATTERN`]: the
/// peak depth reached, with `region[0]` the deepest address the stack
/// can reach. Every byte touched gives the region's length.
pub fn high_water_mark(region: &[u8]) -> (mark: usize)
    ensures
        is_high_water_mark(region@, mark as int),
{
    let mut i: usize = 0;
    while i < region.len()
        invariant
            i <= region@.len(),
            forall|j: int| 0 <= j < i ==> region@[j] != FILL_PATTERN,
        decreases region@.len() - i,
    {
        if region[i] == FILL_PATTERN {
            return i;
        }
        i = i + 1;
    }
    i
}

/// Paints `scratch`, runs `workload` over it, and returns the high-water
/// mark the workload left.
pub fn measure_high_water_mark<F: FnOnce(&mut [u8])>(scratch: &mut [u8], workload: F) -> (mark:
    usize)
    requires
        forall|region: &mut [u8]| (*region)@ == painted(old(scratch)@.len()) ==> workload.requires(
            (region,),
        ),
    ensures
        exists|region: &mut [u8]|
            {
                &&& (*region)@ == painted(old(scratch)@.len())
                &&& #[trigger] workload.ensures((region,), ())
                &&& (*final(region))@ == final(scratch)@
            },
        is_high_water_mark(final(scratch)@, mark as int),
{
    paint(scratch);
    workload(scratch);
    high_water_mark(scratch)
}

/// What `cargo call-stack` reported: the tool found (if any), the
/// largest number labelling its output (the worst-case stack usage in
/// bytes), and its raw output.
#[derive(Debug, Clone, Default)]
pub struct CallStackReport {
    pub tool_path: Option<String>,
    pub max_labeled_bytes: Option<u64>,
    pub raw_stdout: String,
}

/// The whole-number part of the first number `\d+(\.\d+)?` in `line`
/// (saturating at `u64::MAX`), or `None` if the line holds no digit.
pub open spec fn label_value(line: Seq<char>) -> Option<u64> {
    match decimal_token(line) {
        None => None,
        Some(t) => Some(saturate(digits_value(t.0))),
    }
}

/// The largest label over `lines`, or `None` if no line holds a number.
pub open spec fn max_label(lines: Seq<Seq<char>>) -> Option<u64>
    decreases lines.len(),
{
    if lines.len() == 0 {
        None
    } else {
        let rest = max_label(lines.drop_last());
        match label_value(lines.last()) {
            None => rest,
            Some(v) => match rest {
                None => Some(v),
                Some(m) => Some(
                    if v > m {
                        v
                    } else {
                        m
                    },
                ),
            },
        }
    }
}

/// Scaling by one and rounding leaves a whole number unchanged.
proof fn lemma_scaled_whole(int_digits: Seq<char>)
    ensures
        scaled_rounded(int_digits, Seq::<char>::empty(), 1) == digits_value(int_digits),
{
    assert(digits_value(Seq::<char>::empty()) == 0);
    assert(crate::text::pow10(0) == 1);
    let i = digits_value(int_digits);
    assert((2 * 1 * (i * 1 + 0) + 1) / (2 * 1) == i) by (nonlinear_arith);
}

/// The label of one line of characters.
fn label_of_line(line: &Vec<char>) -> (r: Option<u64>)
    ensures
        r == label_value(line@),
{
    match find_decimal_token(line, 0, line.len()) {
        None => {
            proof {
                assert(line@.subrange(0, line@.len() as int) =~= line@);
            }
            None
        },
        Some((a, b, _c, _d)) => {
            proof {
                assert(line@.subrange(0, line@.len() as int) =~= line@);
                assert(line@.subrange(b as int, b as int) =~= Seq::<char>::empty());
                lemma_scaled_whole(line@.subrange(a as int, b as int));
            }
            Some(scale_decimal(line, a, b, b, b, 1))
        },
    }
}

/// The largest number labelling `cargo call-stack` output: for each
/// line, the whole-number part of its first number, and the maximum of
/// those over all lines.
pub fn max_labeled_bytes(stdout: &str) -> (r: Option<u64>)
    ensures
        r == max_label(lines_of(stdout@)),
{
    let chars = chars_of(stdout);
    let lines = split_lines(&chars);
    let ghost ls = char_views(lines@);
    let mut best: Option<u64> = None;
    let mut i: usize = 0;
    proof {
        assert(ls.take(0) =~= Seq::<Seq<char>>::empty());
    }
    while i < lines.len()
        invariant
            ls == char_views(lines@),
            i <= lines@.len(),
            best == max_label(ls.take(i as int)),
        decreases lines@.len() - i,
    {
        let v = label_of_line(&lines[i]);
        proof {
            assert(ls.take(i + 1).drop_last() =~= ls.take(i as int));
            assert(ls.take(i + 1).last() == lines@[i as int]@);
        }
        best = match v {
            None => best,
            Some(x) => match best {
                None => Some(x),
                Some(m) => Some(
                    if x > m {
                        x
                    } else {
                        m
                    },
                ),
            },
        };
        i = i + 1;
    }
    proof {
        assert(ls.take(ls.len() as int) =~= ls);
    }
    best
}

/// The report for `cargo call-stack` found at `tool_path` that printed
/// `raw_stdout`.
pub fn call_stack_report_from_output(tool_path: String, raw_stdout: String) -> (r: CallStackReport)
    ensures
        r.tool_path matches Some(t) && t@ == tool_path@,
        r.max_labeled_bytes == max_label(lines_of(raw_stdout@)),
        r.raw_stdout@ == raw_stdout@,
{
    let max_labeled_bytes = max_labeled_bytes(raw_stdout.as_str());
    CallStackReport { tool_path: Some(tool_path), max_labeled_bytes, raw_stdout }
}

/// The arguments of `cargo call-stack` for binary `binary_name` of the
/// package at `manifest_path`.
pub fn cargo_call_stack_args(manifest_path: &str, binary_name: &str) -> (r: Vec<String>)
    ensures
        string_views(r@) == seq![
            "call-stack"@,
            "--manifest-path"@,
            manifest_path@,
            "--bin"@,
            binary_name@,
        ],
{
    let mut args: Vec<String> = Vec::new();
    args.push("call-stack".to_owned());
    args.push("--manifest-path".to_owned());
    args.push(manifest_path.to_owned());
    args.push("--bin".to_owned());
    args.push(binary_name.to_owned());
    assert(string_views(args@) =~= seq![
        "call-stack"@,
        "--manifest-path"@,
        manifest_path@,
        "--bin"@,
        binary_name@,
    ]);
    args
}

} // verus!
