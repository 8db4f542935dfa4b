//! Code and flash size from the output of `cargo size` (the `size`
//! summary table) and `cargo bloat --crates` (a per-crate table).

use crate::text::{
    black, chars_of, char_views, copy_range, decimal_token, digit_or_dot, fields,
    find_decimal_token, find_pattern, find_seq, leading, lemma_leading, lines_of, parse_u64,
    parsed_u64, run_pred, saturate, scale_decimal, scaled_rounded, scan_run, split_fields,
    split_lines, starts_with, starts_with_from, string_views, trailing, trailing_run_start, trim_end,
    trim_start, white, RunKind,
};
use vstd::prelude::*;

verus! {

/// Whether a line of `size` output is the summary table's header: in
/// the Berkeley format it starts with `text`, in the Mach-O format with
/// `__TEXT`, after leading whitespace.
pub open spec fn is_size_header(line: Seq<char>) -> bool {
    starts_with(trim_start(line), "text"@) || starts_with(trim_start(line), "__TEXT"@)
}

/// Lines that are not the header, as a predicate.
pub open spec fn not_size_header() -> spec_fn(Seq<char>) -> bool {
    |line: Seq<char>| !is_size_header(line)
}

/// Column `i` of a data row, parsed as an unsigned integer.
pub open spec fn size_column(cols: Seq<Seq<char>>, i: int) -> Option<u64> {
    if i < cols.len() {
        parsed_u64(cols[i])
    } else {
        None
    }
}

/// `(text, data, bss)` from `size` output: the row after the first header
/// line gives `text` and `data` in its first two columns and, in the
/// Berkeley format, `bss` in its third; Mach-O has no `bss` column. A
/// missing header or row, or a column that is not an unsigned integer,
/// gives `None`.
pub open spec fn size_summary(stdout: Seq<char>) -> (Option<u64>, Option<u64>, Option<u64>) {
    let ls = lines_of(stdout);
    let h = leading(ls, not_size_header()) as int;
    if h + 1 >= ls.len() {
        (None, None, None)
    } else {
        let cols = fields(ls[h + 1]);
        if starts_with(trim_start(ls[h]), "__TEXT"@) {
            (size_column(cols, 0), size_column(cols, 1), None)
        } else {
            (size_column(cols, 0), size_column(cols, 1), size_column(cols, 2))
        }
    }
}

/// Column `i` of a data row, parsed as an unsigned integer.
fn parse_column(cols: &Vec<Vec<char>>, i: usize) -> (r: Option<u64>)
    ensures
        r == size_column(char_views(cols@), i as int),
{
    if i < cols.len() {
        parse_u64(&cols[i])
    } else {
        None
    }
}

/// Parses the summary table of `cargo size` output, in the Berkeley
/// (`text data bss dec hex filename`) or the Mach-O
/// (`__TEXT __DATA __OBJC others dec hex`) format, into
/// `(text, data, bss)`. Lines before the header, such as a build banner,
/// are skipped.
pub fn parse_size_output(stdout: &str) -> (r: (Option<u64>, Option<u64>, Option<u64>))
    ensures
        r == size_summary(stdout@),
{
    let chars = chars_of(stdout);
    let lines = split_lines(&chars);
    let ghost ls = char_views(lines@);
    let text = chars_of("text");
    let macho = chars_of("__TEXT");
    let mut h: usize = 0;
    while h < lines.len()
        invariant
            ls == char_views(lines@),
            h <= lines@.len(),
            text@ == "text"@,
            macho@ == "__TEXT"@,
            forall|j: int| 0 <= j < h ==> (#[trigger] not_size_header()(ls[j])),
        ensures
            h <= lines@.len(),
            forall|j: int| 0 <= j < h ==> (#[trigger] not_size_header()(ls[j])),
            h < lines@.len() ==> is_size_header(ls[h as int]),
        decreases lines@.len() - h,
    {
        let start = scan_run(&lines[h], 0, true);
        proof {
            assert(lines@[h as int]@.skip(0) =~= lines@[h as int]@);
            assert(ls[h as int] == lines@[h as int]@);
        }
        if starts_with_from(&lines[h], start, &text) || starts_with_from(&lines[h], start, &macho) {
            break;
        }
        h = h + 1;
    }
    proof {
        if h < lines@.len() {
            assert(ls[h as int] == lines@[h as int]@);
            assert(lines@[h as int]@.skip(0) =~= lines@[h as int]@);
        }
        lemma_leading(ls, not_size_header(), h as int);
    }
    if h >= lines.len() || lines.len() - h < 2 {
        return (None, None, None);
    }
    let cols = split_fields(&lines[h + 1]);
    proof {
        assert(ls[h + 1] == lines@[h + 1]@);
        assert(ls[h as int] == lines@[h as int]@);
        assert(lines@[h as int]@.skip(0) =~= lines@[h as int]@);
    }
    let start = scan_run(&lines[h], 0, true);
    if starts_with_from(&lines[h], start, &macho) {
        (parse_column(&cols, 0), parse_column(&cols, 1), None)
    } else {
        (parse_column(&cols, 0), parse_column(&cols, 1), parse_column(&cols, 2))
    }
}

/// Bytes per `KiB`, `MiB` and `GiB`: `cargo bloat` uses binary prefixes.
pub const KIB: u64 = 1024;

/// Bytes per `MiB`.
pub const MIB: u64 = 1_048_576;

/// Bytes per `GiB`.
pub const GIB: u64 = 1_073_741_824;

/// The numeric run (digits and `'.'`) that ends `prefix`.
pub open spec fn number_before(prefix: Seq<char>) -> Seq<char> {
    prefix.skip(prefix.len() - trailing(prefix, digit_or_dot()))
}

/// The byte count read with `unit` from `line`: the first number in the
/// numeric run just before the unit's first occurrence, times `mult`,
/// rounded (saturating at `u64::MAX`); `None` when the unit does not
/// occur or no number precedes it.
pub open spec fn unit_reading(line: Seq<char>, unit: Seq<char>, mult: nat) -> Option<u64> {
    match find_seq(line, unit) {
        None => None,
        Some(p) => match decimal_token(number_before(line.take(p as int))) {
            None => None,
            Some(t) => Some(saturate(scaled_rounded(t.0, t.1, mult))),
        },
    }
}

/// The first `<number><unit>` size in `line`, trying `KiB`, `MiB`,
/// `GiB` and then `B`, converted to bytes.
pub open spec fn size_with_unit(line: Seq<char>) -> Option<u64> {
    let k = unit_reading(line, "KiB"@, KIB as nat);
    let m = unit_reading(line, "MiB"@, MIB as nat);
    let g = unit_reading(line, "GiB"@, GIB as nat);
    if k is Some {
        k
    } else if m is Some {
        m
    } else if g is Some {
        g
    } else {
        unit_reading(line, "B"@, 1)
    }
}

/// Where `unit` first occurs in `line`, the character just before the
/// numeric run preceding it, if any, is ASCII: the scan cuts the line
/// there by bytes, which needs a one-byte character.
pub open spec fn unit_cut_is_ascii(line: Seq<char>, unit: Seq<char>) -> bool {
    match find_seq(line, unit) {
        None => true,
        Some(p) => {
            let pre = line.take(p as int);
            let k = trailing(pre, digit_or_dot());
            k >= pre.len() || (pre[pre.len() - k - 1] as u32) < 128
        },
    }
}

/// Every unit the scan of `line` tries is cut at an ASCII character.
pub open spec fn size_scan_ok(line: Seq<char>) -> bool {
    let k = unit_reading(line, "KiB"@, KIB as nat);
    let m = unit_reading(line, "MiB"@, MIB as nat);
    let g = unit_reading(line, "GiB"@, GIB as nat);
    &&& unit_cut_is_ascii(line, "KiB"@)
    &&& k is None ==> unit_cut_is_ascii(line, "MiB"@)
    &&& k is None && m is None ==> unit_cut_is_ascii(line, "GiB"@)
    &&& k is None && m is None && g is None ==> unit_cut_is_ascii(line, "B"@)
}

/// Reads `line` with one unit.
fn read_unit(line: &Vec<char>, unit: &Vec<char>, mult: u64) -> (r: Option<u64>)
    requires
        1 <= mult <= GIB,
    ensures
        r == unit_reading(line@, unit@, mult as nat),
{
    match find_pattern(line, unit) {
        None => None,
        Some(p) => {
            proof {
                assert(line@.take(p as int).len() == p);
            }
            let start = trailing_run_start(line, p, RunKind::Numeric);
            proof {
                assert(line@.take(p as int).skip(start as int) =~= line@.subrange(
                    start as int,
                    p as int,
                ));
            }
            match find_decimal_token(line, start, p) {
                None => None,
                Some((a, b, c, d)) => Some(scale_decimal(line, a, b, c, d, mult)),
            }
        },
    }
}

/// Whether the scan for `unit` in `line` cuts at an ASCII character.
fn unit_cut_ascii(line: &Vec<char>, unit: &Vec<char>) -> (r: bool)
    ensures
        r == unit_cut_is_ascii(line@, unit@),
{
    match find_pattern(line, unit) {
        None => true,
        Some(p) => {
            let start = trailing_run_start(line, p, RunKind::Numeric);
            proof {
                let pre = line@.take(p as int);
                if start > 0 {
                    assert(pre[pre.len() - trailing(pre, digit_or_dot()) - 1] == line@[start - 1]);
                }
            }
            start == 0 || (line[start - 1] as u32) < 128
        },
    }
}

/// Whether every unit the scan of `line` tries is cut at an ASCII
/// character.
fn line_scan_ok(line: &Vec<char>) -> (r: bool)
    ensures
        r == size_scan_ok(line@),
{
    let kib = chars_of("KiB");
    let mib = chars_of("MiB");
    let gib = chars_of("GiB");
    let b = chars_of("B");
    if !unit_cut_ascii(line, &kib) {
        return false;
    }
    if read_unit(line, &kib, KIB).is_some() {
        return true;
    }
    if !unit_cut_ascii(line, &mib) {
        return false;
    }
    if read_unit(line, &mib, MIB).is_some() {
        return true;
    }
    if !unit_cut_ascii(line, &gib) {
        return false;
    }
    if read_unit(line, &gib, GIB).is_some() {
        return true;
    }
    unit_cut_ascii(line, &b)
}

/// Whether [`parse_size_with_unit`] can scan `line`: every unit it tries
/// is cut at an ASCII character.
pub fn size_scan_is_safe(line: &str) -> (r: bool)
    ensures
        r == size_scan_ok(line@),
{
    let chars = chars_of(line);
    line_scan_ok(&chars)
}

/// Scans a line of characters for its first `<number><unit>` size.
fn size_of_line(line: &Vec<char>) -> (r: Option<u64>)
    ensures
        r == size_with_unit(line@),
{
    let kib = chars_of("KiB");
    let k = read_unit(line, &kib, KIB);
    if k.is_some() {
        return k;
    }
    let mib = chars_of("MiB");
    let m = read_unit(line, &mib, MIB);
    if m.is_some() {
        return m;
    }
    let gib = chars_of("GiB");
    let g = read_unit(line, &gib, GIB);
    if g.is_some() {
        return g;
    }
    let b = chars_of("B");
    read_unit(line, &b, 1)
}

/// Parses the first `<number><unit>` token in `line` (such as `40.1KiB`
/// or `512B`) into bytes, with `cargo bloat`'s binary-prefix units
/// `B`, `KiB`, `MiB` and `GiB`: the units are tried in the order `KiB`,
/// `MiB`, `GiB`, `B`, each at its first occurrence, and the number is
/// the first `\d+(\.\d+)?` in the run of digits and dots just before it,
/// scaled exactly and rounded half up, saturating at `u64::MAX`.
pub fn parse_size_with_unit(line: &str) -> (r: Option<u64>)
    requires
        size_scan_ok(line@),
    ensures
        r == size_with_unit(line@),
{
    let chars = chars_of(line);
    size_of_line(&chars)
}

/// `name` with `-` replaced by `_`, the form `cargo bloat` reports.
pub open spec fn crate_ident(name: Seq<char>) -> Seq<char> {
    name.map_values(|c: char|
        if c == '-' {
            '_'
        } else {
            c
        })
}

/// The last whitespace-separated column of `line`, after trailing
/// whitespace is removed (empty for a blank line).
pub open spec fn last_column(line: Seq<char>) -> Seq<char> {
    let t = trim_end(line);
    t.skip(t.len() - trailing(t, black()))
}

/// Lines whose last column is not the crate, as a predicate.
pub open spec fn not_crate_row(name: Seq<char>) -> spec_fn(Seq<char>) -> bool {
    |line: Seq<char>| last_column(line) != crate_ident(name)
}

/// The size of crate `name` in `cargo bloat --crates` output: the size
/// on the first line whose last column is the crate's identifier, or
/// `None` if no line is.
pub open spec fn crate_row_bytes(stdout: Seq<char>, name: Seq<char>) -> Option<u64> {
    let ls = lines_of(stdout);
    let i = leading(ls, not_crate_row(name)) as int;
    if i < ls.len() {
        size_with_unit(trim_end(ls[i]))
    } else {
        None
    }
}

/// The crate's row, if any, can be scanned for its size.
pub open spec fn crate_row_scan_ok(stdout: Seq<char>, name: Seq<char>) -> bool {
    let ls = lines_of(stdout);
    let i = leading(ls, not_crate_row(name)) as int;
    i < ls.len() ==> size_scan_ok(trim_end(ls[i]))
}

/// `name` with `-` replaced by `_`.
fn crate_ident_of(name: &str) -> (r: Vec<char>)
    ensures
        r@ == crate_ident(name@),
{
    let chars = chars_of(name);
    let mut r: Vec<char> = Vec::new();
    let mut i: usize = 0;
    while i < chars.len()
        invariant
            i <= chars@.len(),
            chars@ == name@,
            r@ == crate_ident(chars@.take(i as int)),
        decreases chars@.len() - i,
    {
        let c = chars[i];
        r.push(
            if c == '-' {
                '_'
            } else {
                c
            },
        );
        proof {
            assert(crate_ident(chars@.take(i + 1)) =~= crate_ident(chars@.take(i as int)).push(
                if c == '-' {
                    '_'
                } else {
                    c
                },
            ));
        }
        i = i + 1;
    }
    assert(chars@.take(chars@.len() as int) =~= chars@);
    r
}

/// Whether `s[from..to]` equals `t`.
fn range_equals(s: &Vec<char>, from: usize, to: usize, t: &Vec<char>) -> (r: bool)
    requires
        from <= to <= s@.len(),
    ensures
        r == (s@.subrange(from as int, to as int) == t@),
{
    if to - from != t.len() {
        return false;
    }
    let mut i: usize = 0;
    while i < t.len()
        invariant
            from + t@.len() == to <= s@.len(),
            i <= t@.len(),
            forall|k: int| 0 <= k < i ==> s@[from + k] == t@[k],
        decreases t@.len() - i,
    {
        if s[from + i] != t[i] {
            proof {
                assert(s@.subrange(from as int, to as int)[i as int] == s@[from + i]);
            }
            return false;
        }
        i = i + 1;
    }
    assert(s@.subrange(from as int, to as int) =~= t@);
    true
}

/// Whether [`find_crate_row_bytes`] can scan the row of `crate_name` in
/// `stdout`, if there is one.
pub fn crate_row_scannable(stdout: &str, crate_name: &str) -> (r: bool)
    ensures
        r == crate_row_scan_ok(stdout@, crate_name@),
{
    let normalized = crate_ident_of(crate_name);
    let chars = chars_of(stdout);
    let lines = split_lines(&chars);
    let ghost ls = char_views(lines@);
    let ghost p = not_crate_row(crate_name@);
    let mut i: usize = 0;
    while i < lines.len()
        invariant
            ls == char_views(lines@),
            ls == lines_of(stdout@),
            p == not_crate_row(crate_name@),
            normalized@ == crate_ident(crate_name@),
            i <= lines@.len(),
            forall|j: int| 0 <= j < i ==> p(#[trigger] ls[j]),
        decreases lines@.len() - i,
    {
        let line = &lines[i];
        let trimmed_end = trailing_run_start(line, line.len(), RunKind::Space);
        let col_start = trailing_run_start(line, trimmed_end, RunKind::Field);
        proof {
            let l = line@;
            assert(ls[i as int] == l);
            assert(l.take(l.len() as int) =~= l);
            let t = trim_end(l);
            assert(t =~= l.take(trimmed_end as int));
            assert(t.skip(col_start as int) =~= l.subrange(col_start as int, trimmed_end as int));
        }
        if range_equals(line, col_start, trimmed_end, &normalized) {
            let trimmed = copy_range(line, 0, trimmed_end);
            proof {
                lemma_leading(ls, p, i as int);
                assert(trimmed@ =~= trim_end(ls[i as int]));
            }
            return line_scan_ok(&trimmed);
        }
        i = i + 1;
    }
    proof {
        lemma_leading(ls, p, i as int);
    }
    true
}

/// Finds the `cargo bloat --crates` row for `crate_name` (matched with
/// `-` normalized to `_`, as `cargo bloat` reports crate identifiers) and
/// returns its size, converted to bytes.
pub fn find_crate_row_bytes(stdout: &str, crate_name: &str) -> (r: Option<u64>)
    requires
        crate_row_scan_ok(stdout@, crate_name@),
    ensures
        r == crate_row_bytes(stdout@, crate_name@),
{
    let normalized = crate_ident_of(crate_name);
    let chars = chars_of(stdout);
    let lines = split_lines(&chars);
    let ghost ls = char_views(lines@);
    let ghost p = not_crate_row(crate_name@);
    let mut i: usize = 0;
    while i < lines.len()
        invariant
            ls == char_views(lines@),
            ls == lines_of(stdout@),
            p == not_crate_row(crate_name@),
            normalized@ == crate_ident(crate_name@),
            crate_row_scan_ok(stdout@, crate_name@),
            i <= lines@.len(),
            forall|j: int| 0 <= j < i ==> p(#[trigger] ls[j]),
        decreases lines@.len() - i,
    {
        let line = &lines[i];
        let trimmed_end = trailing_run_start(line, line.len(), RunKind::Space);
        let col_start = trailing_run_start(line, trimmed_end, RunKind::Field);
        proof {
            let l = line@;
            assert(ls[i as int] == l);
            assert(l.take(l.len() as int) =~= l);
            let t = trim_end(l);
            assert(t =~= l.take(trimmed_end as int));
            assert(t.skip(col_start as int) =~= l.subrange(col_start as int, trimmed_end as int));
        }
        if range_equals(line, col_start, trimmed_end, &normalized) {
            let trimmed = copy_range(line, 0, trimmed_end);
            proof {
                lemma_leading(ls, p, i as int);
                assert(trimmed@ =~= trim_end(ls[i as int]));
            }
            return size_of_line(&trimmed);
        }
        i = i + 1;
    }
    proof {
        lemma_leading(ls, p, i as int);
    }
    None
}

/// What `cargo size` reported: the tool found (if any), the `text`,
/// `data` and `bss` sizes parsed from its table, and its raw output.
#[derive(Debug, Clone, Default)]
pub struct SizeReport {
    pub tool_path: Option<String>,
    pub text_bytes: Option<u64>,
    pub data_bytes: Option<u64>,
    pub bss_bytes: Option<u64>,
    pub raw_stdout: String,
}

/// The report for `cargo size` found at `tool_path` that printed
/// `raw_stdout`.
pub fn size_report_from_output(tool_path: String, raw_stdout: String) -> (r: SizeReport)
    ensures
        r.tool_path matches Some(t) && t@ == tool_path@,
        (r.text_bytes, r.data_bytes, r.bss_bytes) == size_summary(raw_stdout@),
        r.raw_stdout@ == raw_stdout@,
{
    let (text_bytes, data_bytes, bss_bytes) = parse_size_output(raw_stdout.as_str());
    SizeReport { tool_path: Some(tool_path), text_bytes, data_bytes, bss_bytes, raw_stdout }
}

/// What `cargo bloat --crates` reported: the tool found (if any), the
/// size of the crate of interest, and its raw output.
#[derive(Debug, Clone, Default)]
pub struct BloatReport {
    pub tool_path: Option<String>,
    pub crate_bytes: Option<u64>,
    pub raw_stdout: String,
}

/// The report for `cargo bloat` found at `tool_path` that printed
/// `raw_stdout`, read for crate `crate_name`.
pub fn bloat_report_from_output(tool_path: String, raw_stdout: String, crate_name: &str) -> (r:
    BloatReport)
    requires
        crate_row_scan_ok(raw_stdout@, crate_name@),
    ensures
        r.tool_path matches Some(t) && t@ == tool_path@,
        r.crate_bytes == crate_row_bytes(raw_stdout@, crate_name@),
        r.raw_stdout@ == raw_stdout@,
{
    let crate_bytes = find_crate_row_bytes(raw_stdout.as_str(), crate_name);
    BloatReport { tool_path: Some(tool_path), crate_bytes, raw_stdout }
}

/// `--target <triple>` when a target is given.
pub open spec fn target_args(target_triple: Option<Seq<char>>) -> Seq<Seq<char>> {
    match target_triple {
        Some(t) => seq!["--target"@, t],
        None => Seq::empty(),
    }
}

/// The view of an optional string.
pub open spec fn opt_view(s: Option<&str>) -> Option<Seq<char>> {
    match s {
        Some(t) => Some(t@),
        None => None,
    }
}

/// Appends `--target <triple>` when a target is given.
fn push_target(args: &mut Vec<String>, target_triple: Option<&str>)
    ensures
        string_views(final(args)@) == string_views(old(args)@) + target_args(opt_view(target_triple)),
{
    let ghost before = string_views(args@);
    if let Some(triple) = target_triple {
        args.push("--target".to_owned());
        args.push(triple.to_owned());
        assert(string_views(args@) =~= before + target_args(opt_view(target_triple)));
    } else {
        assert(string_views(args@) =~= before + target_args(opt_view(target_triple)));
    }
}

/// The arguments of `cargo size` for binary `binary_name` of the package
/// at `manifest_path`, in release mode, optionally for a target.
pub fn cargo_size_args(manifest_path: &str, binary_name: &str, target_triple: Option<&str>) -> (r:
    Vec<String>)
    ensures
        string_views(r@) == seq![
            "size"@,
            "--manifest-path"@,
            manifest_path@,
            "--release"@,
            "--bin"@,
            binary_name@,
        ] + target_args(opt_view(target_triple)),
{
    let mut args: Vec<String> = Vec::new();
    args.push("size".to_owned());
    args.push("--manifest-path".to_owned());
    args.push(manifest_path.to_owned());
    args.push("--release".to_owned());
    args.push("--bin".to_owned());
    args.push(binary_name.to_owned());
    assert(string_views(args@) =~= seq![
        "size"@,
        "--manifest-path"@,
        manifest_path@,
        "--release"@,
        "--bin"@,
        binary_name@,
    ]);
    push_target(&mut args, target_triple);
    args
}

/// The arguments of `cargo bloat --crates` for binary `binary_name` of
/// the package at `manifest_path`, in release mode, optionally for a
/// target.
pub fn cargo_bloat_args(manifest_path: &str, binary_name: &str, target_triple: Option<&str>) -> (r:
    Vec<String>)
    ensures
        string_views(r@) == seq![
            "bloat"@,
            "--manifest-path"@,
            manifest_path@,
            "--release"@,
            "--crates"@,
            "--bin"@,
            binary_name@,
        ] + target_args(opt_view(target_triple)),
{
    let mut args: Vec<String> = Vec::new();
    args.push("bloat".to_owned());
    args.push("--manifest-path".to_owned());
    args.push(manifest_path.to_owned());
    args.push("--release".to_owned());
    args.push("--crates".to_owned());
    args.push("--bin".to_owned());
    args.push(binary_name.to_owned());
    assert(string_views(args@) =~= seq![
        "bloat"@,
        "--manifest-path"@,
        manifest_path@,
        "--release"@,
        "--crates"@,
        "--bin"@,
        binary_name@,
    ]);
    push_target(&mut args, target_triple);
    args
}

} // verus!
