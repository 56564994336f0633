use vstd::prelude::*;

verus! {

/// What one read or write moved: `bytes` bytes, and whether the descriptor
/// could not go on (an empty input, a full pipe).
#[derive(Clone, Copy, PartialEq, Eq, Structural, Debug)]
pub struct IOResult {
    pub bytes: usize,
    pub blocked: bool,
}

#[derive(Clone, Copy, PartialEq, Eq, Structural, Debug)]
pub enum FileError {
    InvalidDescriptor,
    UnsupportedOperation,
}

} // verus!
