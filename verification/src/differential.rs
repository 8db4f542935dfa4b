//! Differential checks across the QPP-RNG configurations: determinism
//! under a scripted clock, and structural parity of every registered
//! candidate's byte source and diagnostics.

use crate::candidates::{
    all_candidates, candidate_kinds, candidate_names, Candidate, CandidateKind, CandidateRng,
};
use crate::generator::{
    factorial, floor_log2, permutation_entropy_bits, QppRng, DEFAULT_ARRAY_SIZE,
};
use crate::mock_clock::MockClock;
use crate::prng::{NextX48, Xorshift128Plus};
use crate::rng_core::{QppRngSource, RngDiagnostics};
use vstd::prelude::*;

verus! {

/// Outcome of running one configuration twice on the same seed and clock
/// script.
#[derive(Debug, Clone)]
pub struct DeterminismResult {
    pub candidate: String,
    pub deterministic: bool,
    /// Byte index of the first mismatch, if any.
    pub first_divergence_index: Option<usize>,
    pub n_bytes: usize,
}

/// `i` is the first index, within both buffers, at which they differ.
pub open spec fn is_first_divergence(a: Seq<u8>, b: Seq<u8>, i: int) -> bool {
    &&& 0 <= i < a.len()
    &&& i < b.len()
    &&& a[i] != b[i]
    &&& forall|j: int| 0 <= j < i ==> a[j] == b[j]
}

/// The buffers agree on every index within both.
pub open spec fn agree_on_common_prefix(a: Seq<u8>, b: Seq<u8>) -> bool {
    forall|j: int| 0 <= j < a.len() && j < b.len() ==> a[j] == b[j]
}

/// Compares two output buffers of the configuration named `candidate`:
/// records the first index at which they differ, if any, and the first
/// buffer's length.
pub fn diff(candidate: &str, buf_a: &[u8], buf_b: &[u8]) -> (r: DeterminismResult)
    ensures
        r.candidate@ == candidate@,
        r.n_bytes == buf_a@.len(),
        r.deterministic == (r.first_divergence_index is None),
        r.first_divergence_index matches Some(i) ==> is_first_divergence(buf_a@, buf_b@, i as int),
        r.first_divergence_index is None ==> agree_on_common_prefix(buf_a@, buf_b@),
{
    let mut first: Option<usize> = None;
    let mut i: usize = 0;
    while i < buf_a.len() && i < buf_b.len()
        invariant_except_break
            first is None,
        invariant
            i <= buf_a@.len(),
            i <= buf_b@.len(),
            forall|j: int| 0 <= j < i ==> buf_a@[j] == buf_b@[j],
        ensures
            first matches Some(k) ==> is_first_divergence(buf_a@, buf_b@, k as int),
            first is None ==> agree_on_common_prefix(buf_a@, buf_b@),
        decreases buf_a@.len() - i,
    {
        if buf_a[i] != buf_b[i] {
            first = Some(i);
            break;
        }
        i = i + 1;
    }
    DeterminismResult {
        candidate: candidate.to_owned(),
        deterministic: first.is_none(),
        first_divergence_index: first,
        n_bytes: buf_a.len(),
    }
}

/// Two fresh XORSHIFT128+ generators with the same seed, replaying the
/// same clock script, produce the same `n_bytes` bytes.
fn check_xorshift128plus_determinism(seed: u128, deltas: &[u64], n_bytes: usize) -> (r:
    DeterminismResult)
    requires
        deltas@.len() > 0,
    ensures
        r.candidate@ == "reference-xorshift128plus"@,
        r.deterministic,
        r.first_divergence_index is None,
        r.n_bytes == n_bytes,
{
    let prng = Xorshift128Plus::default();
    let clock_a = MockClock::new(vstd::slice::slice_to_vec(deltas));
    let clock_b = MockClock::new(vstd::slice::slice_to_vec(deltas));
    let mut a = QppRng::<Xorshift128Plus, MockClock, DEFAULT_ARRAY_SIZE>::new(prng, clock_a, seed);
    let mut b = QppRng::<Xorshift128Plus, MockClock, DEFAULT_ARRAY_SIZE>::new(prng, clock_b, seed);
    proof {
        QppRng::<Xorshift128Plus, MockClock, DEFAULT_ARRAY_SIZE>::lemma_new_alike(
            prng,
            clock_a,
            clock_b,
            seed,
            a,
            b,
        );
    }
    let ghost a0 = a;
    let ghost b0 = b;
    let mut buf_a: Vec<u8> = vec![0u8; n_bytes];
    let mut buf_b: Vec<u8> = vec![0u8; n_bytes];
    a.fill_bytes(buf_a.as_mut_slice());
    b.fill_bytes(buf_b.as_mut_slice());
    proof {
        QppRng::<Xorshift128Plus, MockClock, DEFAULT_ARRAY_SIZE>::lemma_alike_same_bytes(
            a0,
            b0,
            a,
            b,
            buf_a@,
            buf_b@,
        );
    }
    diff("reference-xorshift128plus", buf_a.as_slice(), buf_b.as_slice())
}

/// Two fresh NEXT_X48 generators with the same seed, replaying the same
/// clock script, produce the same `n_bytes` bytes.
fn check_nextx48_determinism(seed: u128, deltas: &[u64], n_bytes: usize) -> (r:
    DeterminismResult)
    requires
        deltas@.len() > 0,
    ensures
        r.candidate@ == "reference-nextx48"@,
        r.deterministic,
        r.first_divergence_index is None,
        r.n_bytes == n_bytes,
{
    let prng = NextX48::default();
    let clock_a = MockClock::new(vstd::slice::slice_to_vec(deltas));
    let clock_b = MockClock::new(vstd::slice::slice_to_vec(deltas));
    let mut a = QppRng::<NextX48, MockClock, DEFAULT_ARRAY_SIZE>::new(prng, clock_a, seed);
    let mut b = QppRng::<NextX48, MockClock, DEFAULT_ARRAY_SIZE>::new(prng, clock_b, seed);
    proof {
        QppRng::<NextX48, MockClock, DEFAULT_ARRAY_SIZE>::lemma_new_alike(
            prng,
            clock_a,
            clock_b,
            seed,
            a,
            b,
        );
    }
    let ghost a0 = a;
    let ghost b0 = b;
    let mut buf_a: Vec<u8> = vec![0u8; n_bytes];
    let mut buf_b: Vec<u8> = vec![0u8; n_bytes];
    a.fill_bytes(buf_a.as_mut_slice());
    b.fill_bytes(buf_b.as_mut_slice());
    proof {
        QppRng::<NextX48, MockClock, DEFAULT_ARRAY_SIZE>::lemma_alike_same_bytes(
            a0,
            b0,
            a,
            b,
            buf_a@,
            buf_b@,
        );
    }
    diff("reference-nextx48", buf_a.as_slice(), buf_b.as_slice())
}

/// Runs the determinism check against every reference configuration that
/// can run on a scripted clock: each produces the same bytes twice.
pub fn check_all_determinism(seed: u128, deltas: &[u64], n_bytes: usize) -> (r: Vec<
    DeterminismResult,
>)
    requires
        deltas@.len() > 0,
    ensures
        r@.len() == 2,
        r@[0].candidate@ == "reference-xorshift128plus"@,
        r@[1].candidate@ == "reference-nextx48"@,
        forall|i: int|
            0 <= i < 2 ==> (#[trigger] r@[i]).deterministic && r@[i].first_divergence_index is None
                && r@[i].n_bytes == n_bytes,
{
    let mut r: Vec<DeterminismResult> = Vec::new();
    r.push(check_xorshift128plus_determinism(seed, deltas, n_bytes));
    r.push(check_nextx48_determinism(seed, deltas, n_bytes));
    r
}

/// Outcome of the structural checks on one registered candidate.
#[derive(Debug, Clone)]
pub struct ParityResult {
    pub candidate: String,
    pub handles_zero_length_buffer: bool,
    pub writes_to_the_buffer: bool,
    pub diagnostics_report_nonzero_activity: bool,
    pub diagnostics_permutation_size_matches_array_size: bool,
    pub errors: Vec<String>,
}

impl ParityResult {
    /// Every structural check held.
    pub open spec fn passed(self) -> bool {
        &&& self.handles_zero_length_buffer
        &&& self.writes_to_the_buffer
        &&& self.diagnostics_report_nonzero_activity
        &&& self.diagnostics_permutation_size_matches_array_size
    }

    /// Whether every structural check held.
    pub fn all_passed(&self) -> (r: bool)
        ensures
            r == self.passed(),
    {
        self.handles_zero_length_buffer && self.writes_to_the_buffer
            && self.diagnostics_report_nonzero_activity
            && self.diagnostics_permutation_size_matches_array_size
    }
}

/// Value every byte of the parity buffer holds before it is filled.
pub const SENTINEL: u8 = 0x5A;

/// Length of the parity buffer.
pub const PARITY_BUFFER_BYTES: usize = 256;

/// The parity buffer before it is filled.
pub open spec fn sentinel_block() -> Seq<u8> {
    Seq::new(PARITY_BUFFER_BYTES as nat, |i: int| SENTINEL)
}

/// The decimal digit `d`, as a character.
pub open spec fn digit_char(d: nat) -> char {
    (48 + d) as char
}

/// `n` in decimal, without sign or leading zeros.
pub open spec fn decimal(n: nat) -> Seq<char>
    decreases n,
{
    if n < 10 {
        seq![digit_char(n)]
    } else {
        decimal(n / 10).push(digit_char(n % 10))
    }
}

/// Reported when filling left the buffer exactly as it was.
pub open spec fn no_op_message() -> Seq<char> {
    "fill_bytes left the buffer exactly as it was (looks like a no-op)"@
}

/// Reported when the diagnostics show no pads drawn after output.
pub open spec fn idle_message() -> Seq<char> {
    "diagnostics().last_permutation_count was 0 after generating output"@
}

/// Reported when the diagnosed permutation size is not `floor(log2(n!))`
/// for the candidate's array width `n`.
pub open spec fn size_mismatch_text(reported: nat, array_size: nat, expected: nat) -> Seq<
    char,
> {
    "diagnostics().permutation_size_bits = "@ + decimal(reported) + ", expected floor(log2("@
        + decimal(array_size) + "!)) = "@ + decimal(expected)
}

/// The decimal digit `d` as a one-character string.
fn digit_str(d: usize) -> (s: &'static str)
    requires
        d < 10,
    ensures
        s@ == seq![digit_char(d as nat)],
{
    proof {
        reveal_strlit("0");
        reveal_strlit("1");
        reveal_strlit("2");
        reveal_strlit("3");
        reveal_strlit("4");
        reveal_strlit("5");
        reveal_strlit("6");
        reveal_strlit("7");
        reveal_strlit("8");
        reveal_strlit("9");
    }
    let s = match d {
        0 => "0",
        1 => "1",
        2 => "2",
        3 => "3",
        4 => "4",
        5 => "5",
        6 => "6",
        7 => "7",
        8 => "8",
        _ => "9",
    };
    assert(s@ =~= seq![digit_char(d as nat)]);
    s
}

/// `n` written in decimal, with no sign, padding or leading zeros.
fn decimal_string(n: usize) -> (r: String)
    ensures
        r@ == decimal(n as nat),
    decreases n,
{
    let mut r = if n < 10 {
        String::new()
    } else {
        decimal_string(n / 10)
    };
    r.append(digit_str(n % 10));
    proof {
        if n < 10 {
            assert(r@ =~= decimal(n as nat));
        }
    }
    r
}

/// The permutation-size mismatch message, as `size_mismatch_text` spells
/// it.
fn size_mismatch_message(reported: u8, array_size: usize, expected: u8) -> (m: String)
    ensures
        m@ == size_mismatch_text(reported as nat, array_size as nat, expected as nat),
{
    let mut m = String::from_str("diagnostics().permutation_size_bits = ");
    let reported_text = decimal_string(reported as usize);
    m.append(reported_text.as_str());
    m.append(", expected floor(log2(");
    let size_text = decimal_string(array_size);
    m.append(size_text.as_str());
    m.append("!)) = ");
    let expected_text = decimal_string(expected as usize);
    m.append(expected_text.as_str());
    m
}

/// The messages of the failed checks, in check order.
pub open spec fn parity_errors(
    writes: bool,
    active: bool,
    size_ok: bool,
    reported: nat,
    array_size: nat,
    expected: nat,
) -> Seq<Seq<char>> {
    (if writes {
        Seq::empty()
    } else {
        seq![no_op_message()]
    }) + (if active {
        Seq::empty()
    } else {
        seq![idle_message()]
    }) + (if size_ok {
        Seq::empty()
    } else {
        seq![size_mismatch_text(reported, array_size, expected)]
    })
}

/// `r` is the parity verdict for the candidate `name` of array width
/// `array_size`, whose zero-length fill returned, whose fill turned
/// `before` into `after`, and whose diagnostics then read `d`.
pub open spec fn describes_parity(
    r: ParityResult,
    name: Seq<char>,
    array_size: nat,
    before: Seq<u8>,
    after: Seq<u8>,
    d: RngDiagnostics,
) -> bool {
    let expected = floor_log2(factorial(array_size));
    &&& r.candidate@ == name
    &&& r.handles_zero_length_buffer
    &&& r.writes_to_the_buffer == (after != before)
    &&& r.diagnostics_report_nonzero_activity == (d.last_permutation_count > 0)
    &&& r.diagnostics_permutation_size_matches_array_size == (d.permutation_size_bits == expected)
    &&& r.errors@.map_values(|e: String| e@) == parity_errors(
        r.writes_to_the_buffer,
        r.diagnostics_report_nonzero_activity,
        r.diagnostics_permutation_size_matches_array_size,
        d.permutation_size_bits as nat,
        array_size,
        expected,
    )
}

/// Whether two byte buffers are equal.
fn same_bytes(a: &[u8], b: &[u8]) -> (r: bool)
    ensures
        r == (a@ == b@),
{
    if a.len() != b.len() {
        return false;
    }
    let mut i: usize = 0;
    while i < a.len()
        invariant
            a@.len() == b@.len(),
            i <= a@.len(),
            forall|j: int| 0 <= j < i ==> a@[j] == b@[j],
        decreases a@.len() - i,
    {
        if a[i] != b[i] {
            return false;
        }
        i = i + 1;
    }
    assert(a@ =~= b@);
    true
}

/// The parity verdict from what was observed of one candidate: its name
/// and array width, its output buffer before and after filling, and its
/// diagnostics afterwards. The zero-length fill, being verified, always
/// returns.
pub fn parity_from_observations(
    name: &str,
    array_size: usize,
    before: &[u8],
    after: &[u8],
    diag: RngDiagnostics,
) -> (r: ParityResult)
    requires
        array_size <= crate::generator::MAX_DIAGNOSED_ARRAY_SIZE,
    ensures
        describes_parity(r, name@, array_size as nat, before@, after@, diag),
{
    let mut errors: Vec<String> = Vec::new();
    let writes_to_the_buffer = !same_bytes(after, before);
    if !writes_to_the_buffer {
        errors.push("fill_bytes left the buffer exactly as it was (looks like a no-op)".to_owned());
    }
    let diagnostics_report_nonzero_activity = diag.last_permutation_count > 0;
    if !diagnostics_report_nonzero_activity {
        errors.push(
            "diagnostics().last_permutation_count was 0 after generating output".to_owned(),
        );
    }
    let expected_bits = permutation_entropy_bits(array_size);
    let diagnostics_permutation_size_matches_array_size = diag.permutation_size_bits
        == expected_bits;
    if !diagnostics_permutation_size_matches_array_size {
        errors.push(size_mismatch_message(diag.permutation_size_bits, array_size, expected_bits));
    }
    let r = ParityResult {
        candidate: name.to_owned(),
        handles_zero_length_buffer: true,
        writes_to_the_buffer,
        diagnostics_report_nonzero_activity,
        diagnostics_permutation_size_matches_array_size,
        errors,
    };
    assert(r.errors@.map_values(|e: String| e@) =~= parity_errors(
        writes_to_the_buffer,
        diagnostics_report_nonzero_activity,
        diagnostics_permutation_size_matches_array_size,
        diag.permutation_size_bits as nat,
        array_size as nat,
        floor_log2(factorial(array_size as nat)),
    ));
    r
}

/// What the parity check observes of a registered candidate of array
/// width `array_size`: its verdict `r` describes a fill of the sentinel
/// buffer into some 256 bytes, after which the diagnostics showed at least
/// one pad drawn and the permutation entropy of width `5`.
pub open spec fn parity_observed(r: ParityResult, name: Seq<char>, array_size: nat) -> bool {
    exists|after: Seq<u8>, d: RngDiagnostics|
        {
            &&& #[trigger] describes_parity(r, name, array_size, sentinel_block(), after, d)
            &&& after.len() == PARITY_BUFFER_BYTES
            &&& d.last_permutation_count >= 1
            &&& d.permutation_size_bits == floor_log2(factorial(DEFAULT_ARRAY_SIZE as nat))
        }
}

/// One run of the parity check on a generator of configuration `kind`
/// seeded with `seed`: the fresh generator `g0` served a zero-length fill
/// (becoming `g1`), then filled the sentinel buffer with `after`
/// (becoming `g2`), and `r` is the verdict on that fill and on `g2`'s
/// diagnostics.
pub open spec fn parity_witness(
    r: ParityResult,
    name: Seq<char>,
    kind: CandidateKind,
    array_size: nat,
    seed: u128,
    g0: CandidateRng,
    g1: CandidateRng,
    g2: CandidateRng,
    after: Seq<u8>,
) -> bool {
    &&& g0.kind() == kind
    &&& g0.raw_seed() == seed
    &&& g0.well_formed()
    &&& g0.produced(&g1, Seq::empty())
    &&& g1.produced(&g2, after)
    &&& g2.well_formed()
    &&& g2.diagnostics_available()
    &&& after.len() == PARITY_BUFFER_BYTES
    &&& describes_parity(r, name, array_size, sentinel_block(), after, g2.diagnostics_spec())
}

/// `r` is the verdict of a parity run on the candidate `name` of
/// configuration `kind` and width `array_size`, seeded with `seed`. The
/// bytes filled depend on the platform clock, so the run is some run of
/// that generator.
pub open spec fn parity_run(
    r: ParityResult,
    name: Seq<char>,
    kind: CandidateKind,
    array_size: nat,
    seed: u128,
) -> bool {
    exists|g0: CandidateRng, g1: CandidateRng, g2: CandidateRng, after: Seq<u8>|
        #[trigger] parity_witness(r, name, kind, array_size, seed, g0, g1, g2, after)
}

/// Runs every structural parity check against one candidate: a
/// zero-length fill, a fill of a sentinel buffer, and its diagnostics
/// afterwards.
pub fn check_parity(candidate: &Candidate, seed: u128) -> (r: ParityResult)
    requires
        candidate.array_size <= crate::generator::MAX_DIAGNOSED_ARRAY_SIZE,
    ensures
        parity_run(r, candidate.name@, candidate.kind, candidate.array_size as nat, seed),
        parity_observed(r, candidate.name@, candidate.array_size as nat),
        r.handles_zero_length_buffer,
        r.diagnostics_report_nonzero_activity,
        r.diagnostics_permutation_size_matches_array_size == (floor_log2(
            factorial(candidate.array_size as nat),
        ) == floor_log2(factorial(DEFAULT_ARRAY_SIZE as nat))),
{
    let mut rng = candidate.make(seed);
    let ghost g0 = rng;
    let mut empty: Vec<u8> = Vec::new();
    rng.fill_bytes(empty.as_mut_slice());
    assert(empty@ =~= Seq::<u8>::empty());
    let before: Vec<u8> = vec![SENTINEL; PARITY_BUFFER_BYTES];
    let mut buf: Vec<u8> = vec![SENTINEL; PARITY_BUFFER_BYTES];
    let ghost filled_from = rng;
    rng.fill_bytes(buf.as_mut_slice());
    proof {
        crate::candidates::lemma_output_reports_activity(filled_from, rng, buf@);
    }
    let diag = rng.diagnostics();
    let r = parity_from_observations(
        candidate.name,
        candidate.array_size,
        before.as_slice(),
        buf.as_slice(),
        diag,
    );
    assert(before@ =~= sentinel_block());
    assert(describes_parity(r, candidate.name@, candidate.array_size as nat, sentinel_block(), buf@, diag));
    assert(parity_witness(
        r,
        candidate.name@,
        candidate.kind,
        candidate.array_size as nat,
        seed,
        g0,
        filled_from,
        rng,
        buf@,
    ));
    r
}

/// Runs [`check_parity`] over every registered candidate, in registry
/// order.
pub fn check_all_parity(seed: u128) -> (r: Vec<ParityResult>)
    ensures
        r@.len() == 4,
        forall|i: int|
            0 <= i < 4 ==> parity_observed(
                #[trigger] r@[i],
                candidate_names()[i],
                DEFAULT_ARRAY_SIZE as nat,
            ) && parity_run(
                r@[i],
                candidate_names()[i],
                candidate_kinds()[i],
                DEFAULT_ARRAY_SIZE as nat,
                seed,
            ),
{
    let all = all_candidates();
    let mut r: Vec<ParityResult> = Vec::new();
    let mut i: usize = 0;
    while i < all.len()
        invariant
            all@.len() == 4,
            forall|j: int|
                0 <= j < 4 ==> (#[trigger] all@[j]).name@ == candidate_names()[j] && all@[j].kind
                    == candidate_kinds()[j] && all@[j].array_size == DEFAULT_ARRAY_SIZE,
            i <= 4,
            r@.len() == i,
            forall|j: int|
                0 <= j < i ==> parity_observed(
                    #[trigger] r@[j],
                    candidate_names()[j],
                    DEFAULT_ARRAY_SIZE as nat,
                ) && parity_run(
                    r@[j],
                    candidate_names()[j],
                    candidate_kinds()[j],
                    DEFAULT_ARRAY_SIZE as nat,
                    seed,
                ),
        decreases 4 - i,
    {
        let p = check_parity(&all[i], seed);
        r.push(p);
        i = i + 1;
    }
    r
}

/// A registered candidate that the parity check observed passes
/// exactly when its fill changed the sentinel buffer.
pub proof fn lemma_observed_parity_passes_when_written(r: ParityResult, name: Seq<char>)
    requires
        parity_observed(r, name, DEFAULT_ARRAY_SIZE as nat),
    ensures
        r.passed() == r.writes_to_the_buffer,
        r.writes_to_the_buffer ==> r.errors@.len() == 0,
{
    let (after, d) = choose|after: Seq<u8>, d: RngDiagnostics|
        {
            &&& #[trigger] describes_parity(
                r,
                name,
                DEFAULT_ARRAY_SIZE as nat,
                sentinel_block(),
                after,
                d,
            )
            &&& after.len() == PARITY_BUFFER_BYTES
            &&& d.last_permutation_count >= 1
            &&& d.permutation_size_bits == floor_log2(factorial(DEFAULT_ARRAY_SIZE as nat))
        };
    assert(r.errors@.map_values(|e: String| e@).len() == r.errors@.len());
}

/// Determinism and parity results of one differential run.
#[derive(Debug, Clone)]
pub struct DifferentialReport {
    pub determinism: Vec<DeterminismResult>,
    pub parity: Vec<ParityResult>,
}

impl DifferentialReport {
    /// Every configuration was deterministic and every candidate passed
    /// parity.
    pub open spec fn passed(self) -> bool {
        &&& forall|i: int| 0 <= i < self.determinism@.len() ==> (#[trigger] self.determinism@[i]).deterministic
        &&& forall|i: int| 0 <= i < self.parity@.len() ==> (#[trigger] self.parity@[i]).passed()
    }

    /// Whether every configuration was deterministic and every candidate
    /// passed parity.
    pub fn all_passed(&self) -> (r: bool)
        ensures
            r == self.passed(),
    {
        let mut i: usize = 0;
        while i < self.determinism.len()
            invariant
                i <= self.determinism@.len(),
                forall|j: int| 0 <= j < i ==> (#[trigger] self.determinism@[j]).deterministic,
            decreases self.determinism@.len() - i,
        {
            if !self.determinism[i].deterministic {
                return false;
            }
            i = i + 1;
        }
        let mut k: usize = 0;
        while k < self.parity.len()
            invariant
                k <= self.parity@.len(),
                forall|j: int| 0 <= j < k ==> (#[trigger] self.parity@[j]).passed(),
            decreases self.parity@.len() - k,
        {
            if !self.parity[k].all_passed() {
                return false;
            }
            k = k + 1;
        }
        true
    }
}

/// Runs every determinism and parity check and folds them into one
/// report.
pub fn run_all(seed: u128, deltas: &[u64], n_bytes: usize) -> (r: DifferentialReport)
    requires
        deltas@.len() > 0,
    ensures
        r.determinism@.len() == 2,
        r.determinism@[0].candidate@ == "reference-xorshift128plus"@,
        r.determinism@[1].candidate@ == "reference-nextx48"@,
        forall|i: int|
            0 <= i < 2 ==> (#[trigger] r.determinism@[i]).deterministic
                && r.determinism@[i].first_divergence_index is None
                && r.determinism@[i].n_bytes == n_bytes,
        r.parity@.len() == 4,
        forall|i: int|
            0 <= i < 4 ==> parity_observed(
                #[trigger] r.parity@[i],
                candidate_names()[i],
                DEFAULT_ARRAY_SIZE as nat,
            ) && parity_run(
                r.parity@[i],
                candidate_names()[i],
                candidate_kinds()[i],
                DEFAULT_ARRAY_SIZE as nat,
                seed,
            ),
{
    DifferentialReport {
        determinism: check_all_determinism(seed, deltas, n_bytes),
        parity: check_all_parity(seed),
    }
}

} // verus!
