//! Where a compatible copy of this tool stands on a remote machine.
use vstd::prelude::*;

verus! {

/// A compatible build on the remote machine: in a temporary directory, on
/// the search path, or nowhere.
#[derive(Clone, Copy, Debug, PartialEq, Eq, Hash, Structural)]
pub enum RemoteBin {
    InTmp,
    InPath,
    Missing,
}

impl RemoteBin {
    /// No compatible build is installed.
    pub fn is_missing(&self) -> (missing: bool)
        ensures
            missing == (*self is Missing),
    {
        matches!(self, RemoteBin::Missing)
    }
}

} // verus!
