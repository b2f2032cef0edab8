//! Duplicate-file detection and resolution: size bucketing, content digests,
//! and the policy that decides which copy of identical content is kept.

pub mod entry;
pub mod digest;
pub mod table;
pub mod laws;
pub mod size_index;
pub mod walker;
pub mod engine;
