//! A git-style directory walk: given an in-memory view of a worktree, an
//! index, and the answers of the ignore and pathspec oracles, classify every
//! visited path (tracked, untracked, ignored, pruned, `.git`, ...) and fold
//! directories whose children share a compatible status into a single entry.
use vstd::prelude::*;

pub mod bytes;
pub mod entry;
pub mod extension;
pub mod fstree;
pub mod index;
pub mod walk;

pub use walk::function::walk;

verus! {

/// A directory entry as produced by the walk.
#[derive(Debug, Clone, PartialEq, Eq)]
pub struct Entry {
    /// The worktree-relative path at which the file or directory can be
    /// found, with `/` separators; empty for the worktree root itself.
    pub rela_path: Vec<u8>,
    /// How the walk classified the entry.
    pub status: entry::Status,
    /// What kind of filesystem entity the entry is.
    pub kind: entry::Kind,
}

} // verus!
