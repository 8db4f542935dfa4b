//! Footprint measurements: code size from `size`/`cargo bloat` output,
//! stack high-water marks, and elapsed ticks per output byte.

pub mod cycles;
pub mod size;
pub mod stack;
