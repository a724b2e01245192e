use vstd::prelude::*;

verus! {

/// A failure of the construction layer. It reports a defect of the compiler,
/// never of the program being compiled.
#[derive(Copy, Clone, Debug, PartialEq, Eq, Structural)]
pub enum InternalError {
    /// An instruction was to be appended to a block that already ends in a
    /// terminator. The payload is the index of that block.
    BlockAlreadyTerminated { block: usize },
}

} // verus!
