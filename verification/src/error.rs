//! The ways in which building a tree fails.

use vstd::prelude::*;

verus! {

/// A failure that ends the building of a tree; no tree is returned with it.
#[derive(Clone, Copy, Debug, PartialEq, Eq, Structural)]
pub enum Error {
    /// An entry other than the root directory names no parent.
    ExpectedParent,
    /// The walk ended without a root directory.
    MissingRoot,
    /// A directory was reached whose children had already been handed out,
    /// or were never recorded.
    MissingBranch,
}

impl Error {
    /// The cause in words.
    pub fn message(&self) -> (text: &'static str)
        ensures
            text@ == match *self {
                Error::ExpectedParent => "File expected to have parent"@,
                Error::MissingRoot => "Failed to compute root node"@,
                Error::MissingBranch => "Directory expected to have children recorded"@,
            },
    {
        match self {
            Error::ExpectedParent => "File expected to have parent",
            Error::MissingRoot => "Failed to compute root node",
            Error::MissingBranch => "Directory expected to have children recorded",
        }
    }
}

} // verus!
