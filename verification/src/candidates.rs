//! The registry of QPP-RNG configurations under test: the reference
//! generator with each internal PRNG, raw and SHA-256-conditioned, all on
//! the platform clock.

use crate::conditioning::{Sha256Conditioner, INPUT_BLOCK_BYTES, OUTPUT_BLOCK_BYTES};
use crate::generator::{factorial, floor_log2, QppRng, DEFAULT_ARRAY_SIZE};
use crate::prng::{NextX48, Xorshift128Plus};
use crate::rng_core::{QppRngSource, RngDiagnostics};
use crate::text::str_equal;
use crate::timer::PlatformTimer;
use vstd::prelude::*;

verus! {

/// Reference configuration: `N = 5` with XORSHIFT128+ pads on the
/// platform clock.
pub type QppRngXorshift = QppRng<Xorshift128Plus, PlatformTimer, DEFAULT_ARRAY_SIZE>;

/// Alternate configuration: `N = 5` with NEXT_X48 pads on the platform
/// clock.
pub type QppRngNextX48 = QppRng<NextX48, PlatformTimer, DEFAULT_ARRAY_SIZE>;

/// Which configuration a candidate builds.
#[derive(Debug, Clone, Copy, PartialEq, Eq)]
pub enum CandidateKind {
    ReferenceXorshift,
    ReferenceNextX48,
    ReferenceXorshiftConditioned,
    ReferenceNextX48Conditioned,
}

/// One named, platform-clock-backed QPP-RNG configuration under test.
#[derive(Debug, Clone, Copy)]
pub struct Candidate {
    /// Stable identifier used as a file and column key.
    pub name: &'static str,
    /// Which component this configuration comes from.
    pub implementation: &'static str,
    /// Permutation-array width `N`.
    pub array_size: usize,
    /// The configuration built by [`Candidate::make`].
    pub kind: CandidateKind,
}

/// A generator built from a [`Candidate`].
pub enum CandidateRng {
    ReferenceXorshift(QppRngXorshift),
    ReferenceNextX48(QppRngNextX48),
    ReferenceXorshiftConditioned(Sha256Conditioner<QppRngXorshift>),
    ReferenceNextX48Conditioned(Sha256Conditioner<QppRngNextX48>),
}

impl CandidateRng {
    /// The configuration of this generator.
    pub open spec fn kind(self) -> CandidateKind {
        match self {
            CandidateRng::ReferenceXorshift(_) => CandidateKind::ReferenceXorshift,
            CandidateRng::ReferenceNextX48(_) => CandidateKind::ReferenceNextX48,
            CandidateRng::ReferenceXorshiftConditioned(_) => CandidateKind::ReferenceXorshiftConditioned,
            CandidateRng::ReferenceNextX48Conditioned(_) => CandidateKind::ReferenceNextX48Conditioned,
        }
    }

    /// The seed of the underlying raw generator.
    pub open spec fn raw_seed(self) -> u128 {
        match self {
            CandidateRng::ReferenceXorshift(g) => g.seed_value(),
            CandidateRng::ReferenceNextX48(g) => g.seed_value(),
            CandidateRng::ReferenceXorshiftConditioned(c) => c.inner_source().seed_value(),
            CandidateRng::ReferenceNextX48Conditioned(c) => c.inner_source().seed_value(),
        }
    }
}

impl QppRngSource for CandidateRng {
    open spec fn well_formed(&self) -> bool {
        match self {
            CandidateRng::ReferenceXorshift(g) => g.well_formed(),
            CandidateRng::ReferenceNextX48(g) => g.well_formed(),
            CandidateRng::ReferenceXorshiftConditioned(c) => c.well_formed(),
            CandidateRng::ReferenceNextX48Conditioned(c) => c.well_formed(),
        }
    }

    open spec fn diagnostics_available(&self) -> bool {
        match self {
            CandidateRng::ReferenceXorshift(g) => g.diagnostics_available(),
            CandidateRng::ReferenceNextX48(g) => g.diagnostics_available(),
            CandidateRng::ReferenceXorshiftConditioned(c) => c.diagnostics_available(),
            CandidateRng::ReferenceNextX48Conditioned(c) => c.diagnostics_available(),
        }
    }

    open spec fn diagnostics_spec(&self) -> RngDiagnostics {
        match self {
            CandidateRng::ReferenceXorshift(g) => g.diagnostics_spec(),
            CandidateRng::ReferenceNextX48(g) => g.diagnostics_spec(),
            CandidateRng::ReferenceXorshiftConditioned(c) => c.diagnostics_spec(),
            CandidateRng::ReferenceNextX48Conditioned(c) => c.diagnostics_spec(),
        }
    }

    /// The wrapped generator produced `out`, and the configuration stays.
    open spec fn produced(&self, after: &Self, out: Seq<u8>) -> bool {
        match (*self, *after) {
            (CandidateRng::ReferenceXorshift(a), CandidateRng::ReferenceXorshift(b)) => a.produced(
                &b,
                out,
            ),
            (CandidateRng::ReferenceNextX48(a), CandidateRng::ReferenceNextX48(b)) => a.produced(
                &b,
                out,
            ),
            (
                CandidateRng::ReferenceXorshiftConditioned(a),
                CandidateRng::ReferenceXorshiftConditioned(b),
            ) => a.produced(&b, out),
            (
                CandidateRng::ReferenceNextX48Conditioned(a),
                CandidateRng::ReferenceNextX48Conditioned(b),
            ) => a.produced(&b, out),
            _ => false,
        }
    }

    fn fill_bytes(&mut self, dst: &mut [u8])
        ensures
            final(self).kind() == old(self).kind(),
    {
        match self {
            CandidateRng::ReferenceXorshift(g) => g.fill_bytes(dst),
            CandidateRng::ReferenceNextX48(g) => g.fill_bytes(dst),
            CandidateRng::ReferenceXorshiftConditioned(c) => c.fill_bytes(dst),
            CandidateRng::ReferenceNextX48Conditioned(c) => c.fill_bytes(dst),
        }
    }

    fn next_u32(&mut self) -> (r: u32)
        ensures
            final(self).kind() == old(self).kind(),
    {
        let mut buf: Vec<u8> = vec![0u8; 4];
        self.fill_bytes(buf.as_mut_slice());
        vstd::bytes::u32_from_le_bytes(buf.as_slice())
    }

    fn next_u64(&mut self) -> (r: u64)
        ensures
            final(self).kind() == old(self).kind(),
    {
        let mut buf: Vec<u8> = vec![0u8; 8];
        self.fill_bytes(buf.as_mut_slice());
        vstd::bytes::u64_from_le_bytes(buf.as_slice())
    }

    fn diagnostics(&self) -> (d: RngDiagnostics) {
        match self {
            CandidateRng::ReferenceXorshift(g) => g.diagnostics(),
            CandidateRng::ReferenceNextX48(g) => g.diagnostics(),
            CandidateRng::ReferenceXorshiftConditioned(c) => c.diagnostics(),
            CandidateRng::ReferenceNextX48Conditioned(c) => c.diagnostics(),
        }
    }
}

impl Candidate {
    /// Builds a fresh instance of this configuration seeded with `seed`,
    /// on the platform clock. Every call returns an independent instance.
    pub fn make(&self, seed: u128) -> (r: CandidateRng)
        ensures
            r.kind() == self.kind,
            r.raw_seed() == seed,
            r.well_formed(),
            r.diagnostics_available(),
    {
        match self.kind {
            CandidateKind::ReferenceXorshift => CandidateRng::ReferenceXorshift(
                QppRngXorshift::from_seed(seed),
            ),
            CandidateKind::ReferenceNextX48 => CandidateRng::ReferenceNextX48(
                QppRngNextX48::from_seed(seed),
            ),
            CandidateKind::ReferenceXorshiftConditioned => {
                let g = QppRngXorshift::from_seed(seed);
                let c = Sha256Conditioner::new(g);
                proof {
                    Sha256Conditioner::lemma_new_well_formed(g, c);
                }
                CandidateRng::ReferenceXorshiftConditioned(c)
            },
            CandidateKind::ReferenceNextX48Conditioned => {
                let g = QppRngNextX48::from_seed(seed);
                let c = Sha256Conditioner::new(g);
                proof {
                    Sha256Conditioner::lemma_new_well_formed(g, c);
                }
                CandidateRng::ReferenceNextX48Conditioned(c)
            },
        }
    }
}

/// Every candidate reports activity after output: once a well-formed
/// candidate has produced more bytes than one SHA-256 digest holds, its
/// diagnostics are available, show at least one pad drawn in the last
/// cycle, and give the permutation entropy of its array width `N = 5`.
pub proof fn lemma_output_reports_activity(s0: CandidateRng, s1: CandidateRng, out: Seq<u8>)
    requires
        s0.well_formed(),
        s1.well_formed(),
        s0.produced(&s1, out),
        out.len() > OUTPUT_BLOCK_BYTES,
    ensures
        s1.kind() == s0.kind(),
        s1.diagnostics_available(),
        s1.diagnostics_spec().last_permutation_count >= 1,
        s1.diagnostics_spec().permutation_size_bits == floor_log2(
            factorial(DEFAULT_ARRAY_SIZE as nat),
        ),
{
    crate::generator::lemma_default_width_entropy();
    match (s0, s1) {
        (CandidateRng::ReferenceXorshift(a), CandidateRng::ReferenceXorshift(b)) => {
            QppRngXorshift::lemma_bytes_report_activity(a, b, out);
        },
        (CandidateRng::ReferenceNextX48(a), CandidateRng::ReferenceNextX48(b)) => {
            QppRngNextX48::lemma_bytes_report_activity(a, b, out);
        },
        (
            CandidateRng::ReferenceXorshiftConditioned(a),
            CandidateRng::ReferenceXorshiftConditioned(b),
        ) => {
            Sha256Conditioner::lemma_conditioned_stream(a);
            Sha256Conditioner::lemma_conditioned_stream(b);
            let n = b.raw_blocks().len() - 1;
            let block = b.raw_blocks()[n];
            assert(block.len() == INPUT_BLOCK_BYTES);
            assert(b.source_states()[n].produced(&b.source_states()[n + 1], block));
            QppRngXorshift::lemma_bytes_report_activity(b.source_states()[n], b.inner_source(), block);
        },
        (
            CandidateRng::ReferenceNextX48Conditioned(a),
            CandidateRng::ReferenceNextX48Conditioned(b),
        ) => {
            Sha256Conditioner::lemma_conditioned_stream(a);
            Sha256Conditioner::lemma_conditioned_stream(b);
            let n = b.raw_blocks().len() - 1;
            let block = b.raw_blocks()[n];
            assert(block.len() == INPUT_BLOCK_BYTES);
            assert(b.source_states()[n].produced(&b.source_states()[n + 1], block));
            QppRngNextX48::lemma_bytes_report_activity(b.source_states()[n], b.inner_source(), block);
        },
        _ => {},
    }
}

/// The registered names, in report order.
pub open spec fn candidate_names() -> Seq<Seq<char>> {
    seq![
        "reference-xorshift128plus"@,
        "reference-nextx48"@,
        "reference-xorshift128plus-sha256-conditioned"@,
        "reference-nextx48-sha256-conditioned"@,
    ]
}

/// The registered configurations, in report order.
pub open spec fn candidate_kinds() -> Seq<CandidateKind> {
    seq![
        CandidateKind::ReferenceXorshift,
        CandidateKind::ReferenceNextX48,
        CandidateKind::ReferenceXorshiftConditioned,
        CandidateKind::ReferenceNextX48Conditioned,
    ]
}

/// The component each registered configuration comes from, in report
/// order: the plain generator twice, then the conditioned one twice.
pub open spec fn candidate_implementations() -> Seq<Seq<char>> {
    seq![
        "qpp-rng-reference"@,
        "qpp-rng-reference"@,
        "qpp-rng-reference + conditioning"@,
        "qpp-rng-reference + conditioning"@,
    ]
}

/// Every QPP-RNG configuration currently under test, in the stable order
/// reports render them in.
pub fn all_candidates() -> (r: Vec<Candidate>)
    ensures
        r@.len() == 4,
        forall|i: int|
            0 <= i < 4 ==> (#[trigger] r@[i]).name@ == candidate_names()[i] && r@[i].kind
                == candidate_kinds()[i] && r@[i].array_size == DEFAULT_ARRAY_SIZE
                && r@[i].implementation@ == candidate_implementations()[i],
{
    let mut r: Vec<Candidate> = Vec::new();
    r.push(
        Candidate {
            name: "reference-xorshift128plus",
            implementation: "qpp-rng-reference",
            array_size: DEFAULT_ARRAY_SIZE,
            kind: CandidateKind::ReferenceXorshift,
        },
    );
    r.push(
        Candidate {
            name: "reference-nextx48",
            implementation: "qpp-rng-reference",
            array_size: DEFAULT_ARRAY_SIZE,
            kind: CandidateKind::ReferenceNextX48,
        },
    );
    r.push(
        Candidate {
            name: "reference-xorshift128plus-sha256-conditioned",
            implementation: "qpp-rng-reference + conditioning",
            array_size: DEFAULT_ARRAY_SIZE,
            kind: CandidateKind::ReferenceXorshiftConditioned,
        },
    );
    r.push(
        Candidate {
            name: "reference-nextx48-sha256-conditioned",
            implementation: "qpp-rng-reference + conditioning",
            array_size: DEFAULT_ARRAY_SIZE,
            kind: CandidateKind::ReferenceNextX48Conditioned,
        },
    );
    r
}

/// Registered names are pairwise distinct.
pub proof fn lemma_candidate_names_unique()
    ensures
        forall|i: int, j: int|
            0 <= i < 4 && 0 <= j < 4 && i != j ==> candidate_names()[i] != candidate_names()[j],
{
    reveal_strlit("reference-xorshift128plus");
    reveal_strlit("reference-nextx48");
    reveal_strlit("reference-xorshift128plus-sha256-conditioned");
    reveal_strlit("reference-nextx48-sha256-conditioned");
    assert(candidate_names()[0].len() == 25);
    assert(candidate_names()[1].len() == 17);
    assert(candidate_names()[2].len() == 44);
    assert(candidate_names()[3].len() == 36);
}

/// Looks up one candidate by name.
pub fn find(name: &str) -> (r: Option<Candidate>)
    ensures
        r is Some <==> exists|i: int| 0 <= i < 4 && #[trigger] candidate_names()[i] == name@,
        r matches Some(c) ==> c.name@ == name@ && exists|i: int|
            0 <= i < 4 && candidate_names()[i] == name@ && c.kind == #[trigger] candidate_kinds()[i],
{
    let all = all_candidates();
    let mut i: usize = 0;
    while i < all.len()
        invariant
            all@.len() == 4,
            i <= 4,
            forall|j: int|
                0 <= j < 4 ==> (#[trigger] all@[j]).name@ == candidate_names()[j] && all@[j].kind
                    == candidate_kinds()[j],
            forall|j: int| 0 <= j < i ==> candidate_names()[j] != name@,
        decreases 4 - i,
    {
        if str_equal(all[i].name, name) {
            return Some(all[i]);
        }
        i = i + 1;
    }
    None
}

} // verus!
