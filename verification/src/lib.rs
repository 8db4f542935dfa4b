//! Permutation-based QPP-RNG: a jitter-driven random byte generator with
//! its internal pad generators, conditioning, and test-harness logic.

pub mod ascon;
pub mod candidates;
pub mod conditioning;
pub mod differential;
pub mod firmware;
pub mod footprint;
pub mod generator;
pub mod iot;
pub mod mock_clock;
pub mod permutation;
pub mod prng;
pub mod report;
pub mod rng_core;
pub mod stats;
pub mod text;
pub mod timer;
