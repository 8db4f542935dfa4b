//! Statistical-track logic: raw sample generation, the integer counts
//! the native smoke tests are computed from, the options selecting the
//! external NIST/ENT tools, and the readings taken from their reports.

pub mod metrics;
pub mod options;
pub mod sample;
pub mod tier1;
pub mod tier2;
