//! Status and kind of a single walk entry.
use vstd::prelude::*;

verus! {

/// The kind of filesystem entity an entry is.
#[derive(Debug, Clone, Copy, PartialEq, Eq, Structural)]
pub enum Kind {
    /// The entry is a blob, executable or not.
    File,
    /// The entry is a symlink.
    Symlink,
    /// A directory that contains no file at any depth.
    EmptyDirectory,
    /// The entry is an ordinary directory.
    Directory,
    /// The entry is a directory which contains a `.git` folder of a
    /// repository that is not our own.
    Repository,
}

/// The kind of an ignore rule that matched a path.
#[derive(Debug, Clone, Copy, PartialEq, Eq, Structural)]
pub enum IgnoreKind {
    /// The match may safely be deleted.
    Expendable,
    /// The match must not be deleted.
    Precious,
}

/// How the walk classified an entry, ordered from cheapest to most expensive
/// to compute.
#[derive(Debug, Clone, Copy, PartialEq, Eq, Structural)]
pub enum Status {
    /// The filename of the entry was `.git`, which is generally pruned.
    DotGit,
    /// The pathspec prevented further processing, or the path is a `.git`
    /// directory; no further checks were done.
    Pruned,
    /// A sparse-checkout excluded path: tracked, but intentionally absent
    /// from the worktree.
    TrackedExcluded,
    /// The entry is tracked in the index.
    Indexed,
    /// The entry is matched by an ignore rule.
    Ignored(IgnoreKind),
    /// The entry is on disk but neither tracked nor ignored.
    Untracked,
}

impl Kind {
    /// Whether a directory of this kind may be recursed into.
    pub open spec fn spec_is_recursable_dir(self) -> bool {
        self is Directory
    }

    /// Return `true` only for an ordinary directory; repositories and empty
    /// directories are not recursed into.
    pub fn is_recursable_dir(&self) -> (r: bool)
        ensures
            r == self.spec_is_recursable_dir(),
    {
        matches!(self, Kind::Directory)
    }

    /// Whether this kind is a directory on disk.
    pub open spec fn spec_is_dir(self) -> bool {
        self is Directory || self is Repository
    }

    /// Return `true` if this is a directory on disk. Note that this is true
    /// for repositories as well.
    pub fn is_dir(&self) -> (r: bool)
        ensures
            r == self.spec_is_dir(),
    {
        matches!(self, Kind::Directory | Kind::Repository)
    }
}

impl Status {
    /// Whether this status counts as pruned, i.e. hidden from view.
    pub open spec fn spec_is_pruned(self) -> bool {
        match self {
            Status::DotGit | Status::TrackedExcluded | Status::Pruned => true,
            Status::Ignored(_) | Status::Untracked | Status::Indexed => false,
        }
    }

    /// Return `true` if this status is considered pruned. A pruned entry is
    /// typically hidden from view due to a pathspec.
    pub fn is_pruned(&self) -> (r: bool)
        ensures
            r == self.spec_is_pruned(),
    {
        matches!(self, Status::DotGit | Status::TrackedExcluded | Status::Pruned)
    }

    /// The default recursion rule of `git status`: recurse only into ordinary
    /// directories that are tracked or untracked.
    pub open spec fn spec_can_recurse(self, file_type: Option<Kind>) -> bool {
        &&& file_type matches Some(ft) && ft.spec_is_recursable_dir()
        &&& match self {
            Status::DotGit
            | Status::TrackedExcluded
            | Status::Pruned
            | Status::Ignored(_) => false,
            Status::Untracked | Status::Indexed => true,
        }
    }

    /// Return `true` if a directory of this status and `file_type` is
    /// traversed by default, which matches what `git status` does.
    pub fn can_recurse(&self, file_type: Option<Kind>) -> (r: bool)
        ensures
            r == self.spec_can_recurse(file_type),
    {
        let recursable = match file_type {
            Some(ft) => ft.is_recursable_dir(),
            None => false,
        };
        if !recursable {
            return false;
        }
        match self {
            Status::DotGit
            | Status::TrackedExcluded
            | Status::Pruned
            | Status::Ignored(_) => false,
            Status::Untracked | Status::Indexed => true,
        }
    }
}

} // verus!
