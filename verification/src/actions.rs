//! Setup actions: the closed set of filesystem effects a chapter may declare.
//!
//! Actions only describe a desired end state; resolving them against the
//! sandbox root and refusing escapes is the world planner's job.

use vstd::prelude::*;

verus! {

/// One declarative world-building step, always relative to the sandbox root.
pub enum SetupAction {
    /// Recursively create a directory; a pre-existing directory is not an error.
    CreateDir { path: String },
    /// Create a file (and its parents), truncating any existing content.
    CreateFile { path: String, content: String },
    /// Remove a file or directory tree; a missing path is not an error.
    RemovePath { path: String },
    /// Erase every entry directly under the sandbox root, not the root itself.
    ResetWorld,
}

} // verus!
