use vstd::prelude::*;

verus! {

/// The single error kind of the library: an operation was handed an index
/// that is not currently present in the node sequence.
#[derive(Debug, Clone, Copy, PartialEq, Eq, Structural)]
pub enum FlatTreeError {
    NodeWithSpecifiedIndexIsMissing { index: usize },
}

} // verus!
