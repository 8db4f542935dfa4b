//! Which external NIST/ENT tools a statistical run attempts, and how
//! their outcomes decide the run.

use vstd::prelude::*;

verus! {

/// Options selecting the external tools a run attempts, and the
/// parameters handed to them.
#[derive(Debug, Clone, Copy)]
pub struct Tier2Options {
    pub sp800_90b_iid: bool,
    pub sp800_90b_non_iid: bool,
    pub sp800_22: bool,
    pub ent: bool,
    /// Bits per symbol handed to the SP 800-90B tool; `8` for byte
    /// output.
    pub bits_per_symbol: u8,
    /// Bitstream length in bits handed to the SP 800-22 suite.
    pub sts_bitstream_len_bits: usize,
}

impl Tier2Options {
    /// Every tool, on 8-bit symbols and one-million-bit bitstreams.
    pub fn all() -> (r: Self)
        ensures
            r.sp800_90b_iid && r.sp800_90b_non_iid && r.sp800_22 && r.ent,
            r.bits_per_symbol == 8,
            r.sts_bitstream_len_bits == 1_000_000,
    {
        Tier2Options {
            sp800_90b_iid: true,
            sp800_90b_non_iid: true,
            sp800_22: true,
            ent: true,
            bits_per_symbol: 8,
            sts_bitstream_len_bits: 1_000_000,
        }
    }

    /// No tool, with the parameters of [`Tier2Options::all`].
    pub fn none() -> (r: Self)
        ensures
            !r.sp800_90b_iid && !r.sp800_90b_non_iid && !r.sp800_22 && !r.ent,
            r.bits_per_symbol == Self::all_spec().bits_per_symbol,
            r.sts_bitstream_len_bits == Self::all_spec().sts_bitstream_len_bits,
    {
        let all = Self::all();
        Tier2Options {
            sp800_90b_iid: false,
            sp800_90b_non_iid: false,
            sp800_22: false,
            ent: false,
            bits_per_symbol: all.bits_per_symbol,
            sts_bitstream_len_bits: all.sts_bitstream_len_bits,
        }
    }

    /// The parameters [`Tier2Options::all`] uses.
    pub open spec fn all_spec() -> Self {
        Tier2Options {
            sp800_90b_iid: true,
            sp800_90b_non_iid: true,
            sp800_22: true,
            ent: true,
            bits_per_symbol: 8,
            sts_bitstream_len_bits: 1_000_000,
        }
    }
}

/// The two SP 800-90B assessment tracks.
#[derive(Debug, Clone, Copy, PartialEq, Eq)]
pub enum Sp80090bTrack {
    Iid,
    NonIid,
}

/// The executable that runs a track.
pub open spec fn track_tool(track: Sp80090bTrack) -> Seq<char> {
    match track {
        Sp80090bTrack::Iid => "ea_iid"@,
        Sp80090bTrack::NonIid => "ea_non_iid"@,
    }
}

/// The executable name looked up on `PATH` for an SP 800-90B track.
pub fn sp800_90b_tool_name(track: Sp80090bTrack) -> (r: &'static str)
    ensures
        r@ == track_tool(track),
{
    match track {
        Sp80090bTrack::Iid => "ea_iid",
        Sp80090bTrack::NonIid => "ea_non_iid",
    }
}

/// What became of one external tool in a statistical run.
#[derive(Debug, Clone, Copy, PartialEq, Eq)]
pub enum ToolOutcome {
    /// Not attempted: the options left it out.
    Skipped,
    /// Attempted, but the tool was not found.
    Missing,
    /// It ran and its report was read.
    Parsed,
    /// It ran and its report could not be read.
    Unparsed,
}

/// A run passes when its smoke tests pass and no tool that ran went
/// unread. A tool that ran but whose report could not be read leaves the
/// pass unconfirmed; one that was skipped or not found counts for
/// nothing either way.
pub open spec fn battery_verdict(tier1_passed: bool, tools: Seq<ToolOutcome>) -> bool {
    tier1_passed && forall|i: int| 0 <= i < tools.len() ==> tools[i] != ToolOutcome::Unparsed
}

/// Whether a statistical run passes, from whether its smoke tests passed
/// and what became of each external tool.
pub fn battery_passed(tier1_passed: bool, tools: &[ToolOutcome]) -> (r: bool)
    ensures
        r == battery_verdict(tier1_passed, tools@),
{
    if !tier1_passed {
        return false;
    }
    let mut i: usize = 0;
    while i < tools.len()
        invariant
            i <= tools@.len(),
            forall|j: int| 0 <= j < i ==> tools@[j] != ToolOutcome::Unparsed,
        decreases tools@.len() - i,
    {
        if matches!(tools[i], ToolOutcome::Unparsed) {
            return false;
        }
        i = i + 1;
    }
    true
}

} // verus!
