//! Content-addressed duplicate-file detection.
//!
//! Files are keyed by the uppercase hexadecimal SHA-256 digest of their
//! contents; a persistent index maps each key to the set of paths that carry
//! it, and the groups with more than one path are reported as duplicates.
use vstd::prelude::*;

pub mod cleaner;
pub mod digest;
pub mod error;
pub mod index;
pub mod members;
pub mod report;
pub mod scan;
pub mod walker;

verus! {

} // verus!
