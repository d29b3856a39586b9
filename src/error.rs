use vstd::prelude::*;

verus! {

/// What can go wrong when opening a store or decoding one of its lines.
#[derive(Debug, Clone, Copy, PartialEq, Eq, Structural)]
pub enum StoreError {
    /// The store's directory does not exist or is not a directory.
    NotFound,
    /// A line of the data file holds no unescaped delimiter.
    MalformedRecord,
}

} // verus!
