use vstd::prelude::*;

verus! {

/// What can go wrong while building a circuit's commitments.
#[derive(Debug)]
pub enum BitvmError {
    /// A record of a gate-list description could not be read: its line
    /// number (from 1) and the offending text.
    MalformedDescription { line: usize, text: String },
    /// The commitment tree could not be built, or a leaf's inclusion proof
    /// did not verify.
    TreeConstructionError,
    /// The internal key could not be derived from the seed and path.
    KeyDerivationError,
}

} // verus!
