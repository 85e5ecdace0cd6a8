//! What is known of the working copy.

use vstd::prelude::*;

verus! {

/// The two facts about the current directory that both answers rest on.
#[derive(Debug, Clone, PartialEq, Eq)]
pub struct WorkingCopyInfo {
    /// The repository URL of the current directory.
    pub url: String,
    /// The current directory's path from the repository root, which is
    /// written as the marker `^`: `^/trunk/src`.
    pub relative_url: String,
}

} // verus!
