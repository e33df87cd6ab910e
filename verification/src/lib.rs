//! Streaming utilities for FASTA-like sequence text: residue-symbol
//! validation, length counting, and range extraction with fixed-width
//! line re-wrapping over a memory-mapped line source.

pub mod filter;
pub mod line;
pub mod nucleic_acid;
pub mod pipeline;
pub mod range_spec;
pub mod region;
pub mod wrap;

pub use nucleic_acid::is_nucleic_acid_lut as is_nucleic_acid;
