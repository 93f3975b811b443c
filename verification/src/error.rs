//! The rejections the tree construction can answer with.

use vstd::prelude::*;

verus! {

/// Why a mailbox could not be added to the tree.
#[derive(Clone, Copy, PartialEq, Eq, Structural, Debug)]
pub enum Error {
    /// The name's parent segment names no mailbox: it resolves to nothing,
    /// to a message, or to the root path itself (the root is reached only
    /// by names without a separator).
    MissingParent,
    /// The name's path is already registered.
    DuplicatePath,
}

} // verus!
