//! Errors of the digest index.
use vstd::prelude::*;

verus! {

/// Why an operation on the digest index failed.
#[derive(Debug, Clone, Copy, PartialEq, Eq, Structural)]
pub enum IndexError {
    /// The store could not read or write a key.
    Store,
    /// A stored member set could not be decoded.
    Corrupt,
}

} // verus!
