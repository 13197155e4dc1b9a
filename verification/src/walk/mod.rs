//! The walk: options, delegate, outcome, and errors.
use vstd::prelude::*;

use crate::Entry;
use crate::entry::Kind;
use crate::entry::Status;

pub mod classify;
pub mod function;
pub mod readdir;

verus! {

/// What the delegate answers to an emission.
#[derive(Debug, Copy, Clone, Eq, PartialEq, Structural)]
#[must_use]
pub enum Action {
    /// Continue the traversal as normal.
    Continue,
    /// Do not continue the traversal, but exit it.
    Cancel,
}

/// One call the walk made to a delegate, as the delegate's history view
/// records it. The walk's contracts fix what is handed to the delegate by
/// speaking of this history.
pub enum DelegateEvent {
    /// The delegate was handed an entry through `emit` and answered it;
    /// `accepted` is `true` when the answer was `Continue`.
    Emitted {
        /// The entry's worktree-relative path.
        rela_path: Seq<u8>,
        /// The entry's status.
        status: Status,
        /// The entry's kind.
        kind: Kind,
        /// The fold status of the directory the entry would have
        /// contributed to, if any.
        collapsed_directory_status: Option<Status>,
        /// Whether the delegate answered `Continue`.
        accepted: bool,
    },
    /// The delegate was asked through `can_recurse` whether to descend
    /// into a directory and answered `descend`.
    Asked {
        /// The directory's worktree-relative path.
        rela_path: Seq<u8>,
        /// The directory's status.
        status: Status,
        /// The directory's kind.
        kind: Kind,
        /// The delegate's answer.
        descend: bool,
    },
}

/// How many events of `s` are emissions, accepted or not.
pub open spec fn spec_n_emitted(s: Seq<DelegateEvent>) -> nat
    decreases s,
{
    if s.len() == 0 {
        0
    } else {
        spec_n_emitted(s.drop_last()) + match s.last() {
            DelegateEvent::Emitted { .. } => 1nat,
            _ => 0nat,
        }
    }
}

/// How many events of `s` are emissions the delegate accepted.
pub open spec fn spec_n_accepted(s: Seq<DelegateEvent>) -> nat
    decreases s,
{
    if s.len() == 0 {
        0
    } else {
        spec_n_accepted(s.drop_last()) + match s.last() {
            DelegateEvent::Emitted { accepted, .. } => if accepted {
                1nat
            } else {
                0nat
            },
            _ => 0nat,
        }
    }
}

/// A history grew out of an earlier one: the old events stand unchanged at
/// the front, newer ones may follow. Nothing a delegate saw is retracted.
pub open spec fn spec_history_extends(now: Seq<DelegateEvent>, prior: Seq<DelegateEvent>) -> bool {
    &&& now.len() >= prior.len()
    &&& now.subrange(0, prior.len() as int) == prior
}

/// Appending one event adds its own weight to the emission counts.
pub proof fn lemma_counts_push(s: Seq<DelegateEvent>, e: DelegateEvent)
    ensures
        spec_n_emitted(s.push(e)) == spec_n_emitted(s) + match e {
            DelegateEvent::Emitted { .. } => 1nat,
            _ => 0nat,
        },
        spec_n_accepted(s.push(e)) == spec_n_accepted(s) + match e {
            DelegateEvent::Emitted { accepted, .. } => if accepted {
                1nat
            } else {
                0nat
            },
            _ => 0nat,
        },
        spec_history_extends(s.push(e), s),
{
    assert(s.push(e).drop_last() =~= s);
    assert(s.push(e).last() == e);
    assert(s.push(e).subrange(0, s.len() as int) =~= s);
}

/// No more emissions are accepted than are made: together with the walk's
/// outcome contract, `returned_entries` never exceeds the number of entries
/// the delegate was handed, which in turn never exceeds `seen_entries`.
pub proof fn law_accepted_at_most_emitted(s: Seq<DelegateEvent>)
    ensures
        spec_n_accepted(s) <= spec_n_emitted(s),
    decreases s,
{
    if s.len() > 0 {
        law_accepted_at_most_emitted(s.drop_last());
    }
}

/// The emission counts are additive over joined histories.
pub proof fn lemma_counts_split(a: Seq<DelegateEvent>, b: Seq<DelegateEvent>)
    ensures
        spec_n_emitted(a + b) == spec_n_emitted(a) + spec_n_emitted(b),
        spec_n_accepted(a + b) == spec_n_accepted(a) + spec_n_accepted(b),
    decreases b,
{
    if b.len() == 0 {
        assert(a + b =~= a);
    } else {
        lemma_counts_split(a, b.drop_last());
        assert((a + b).drop_last() =~= a + b.drop_last());
        assert((a + b).last() == b.last());
    }
}

/// A history extends itself.
pub proof fn lemma_extends_refl(s: Seq<DelegateEvent>)
    ensures
        spec_history_extends(s, s),
{
    assert(s.subrange(0, s.len() as int) =~= s);
}

/// Extension of histories composes.
pub proof fn lemma_extends_trans(
    a: Seq<DelegateEvent>,
    b: Seq<DelegateEvent>,
    c: Seq<DelegateEvent>,
)
    requires
        spec_history_extends(a, b),
        spec_history_extends(b, c),
    ensures
        spec_history_extends(a, c),
{
    assert(a.subrange(0, c.len() as int) =~= a.subrange(0, b.len() as int).subrange(
        0,
        c.len() as int,
    ));
}

/// A way for the caller to observe and control the traversal. The
/// `history` view records every call the walk makes; the walk promises,
/// through it, exactly which entries a delegate is handed.
pub trait Delegate {
    /// The calls this delegate has answered so far, oldest first. The
    /// answers are the delegate's own; the walk's contracts only read them.
    /// A verified delegate overrides this view so that `emit` and
    /// `can_recurse` can keep their promises; see [`Recorder`].
    open spec fn history(&self) -> Seq<DelegateEvent> {
        Seq::empty()
    }

    /// Called for each observed entry, or for a directory that stands in for
    /// its folded children. `collapsed_directory_status` is `Some(dir_status)`
    /// if this entry was part of a directory folded to `dir_status` while the
    /// entry's own status differs from it.
    fn emit(&mut self, entry: &Entry, collapsed_directory_status: Option<Status>) -> (r: Action)
        ensures
            final(self).history() == old(self).history().push(
                (DelegateEvent::Emitted {
                    rela_path: entry.rela_path@,
                    status: entry.status,
                    kind: entry.kind,
                    collapsed_directory_status: collapsed_directory_status,
                    accepted: r is Continue,
                }),
            ),
    ;

    /// Return `true` if the given entry should be recursed into. Only called
    /// for entries that are directories on disk. The conventional answer,
    /// which matches what `git status` does, is
    /// `entry.status.can_recurse(Some(entry.kind))`.
    fn can_recurse(&mut self, entry: &Entry) -> (r: bool)
        ensures
            final(self).history() == old(self).history().push(
                (DelegateEvent::Asked {
                    rela_path: entry.rela_path@,
                    status: entry.status,
                    kind: entry.kind,
                    descend: r,
                }),
            ),
    ;
}

/// A delegate that records everything it is handed and always answers as
/// `git status` would: entries are accepted, and only tracked or untracked
/// ordinary directories are descended into.
pub struct Recorder {
    /// The entries received through `emit`, with their dir-status tags,
    /// oldest first.
    pub entries: Vec<(Entry, Option<Status>)>,
    /// The history of calls, kept for the contracts.
    pub log: Ghost<Seq<DelegateEvent>>,
}

impl Recorder {
    /// An empty recorder.
    pub fn new() -> (r: Recorder)
        ensures
            r.entries@.len() == 0,
            r.history() == Seq::<DelegateEvent>::empty(),
    {
        Recorder { entries: Vec::new(), log: Ghost(Seq::empty()) }
    }
}

impl Delegate for Recorder {
    open spec fn history(&self) -> Seq<DelegateEvent> {
        self.log@
    }

    fn emit(&mut self, entry: &Entry, collapsed_directory_status: Option<Status>) -> (r: Action)
        ensures
            r is Continue,
            final(self).entries@.len() == old(self).entries@.len() + 1,
    {
        self.entries.push(
            (
                Entry {
                    rela_path: crate::bytes::clone_bytes(&entry.rela_path),
                    status: entry.status,
                    kind: entry.kind,
                },
                collapsed_directory_status,
            ),
        );
        self.log = Ghost(
            self.log@.push(
                DelegateEvent::Emitted {
                    rela_path: entry.rela_path@,
                    status: entry.status,
                    kind: entry.kind,
                    collapsed_directory_status: collapsed_directory_status,
                    accepted: true,
                },
            ),
        );
        Action::Continue
    }

    fn can_recurse(&mut self, entry: &Entry) -> (r: bool)
        ensures
            r == entry.status.spec_can_recurse(Some(entry.kind)),
    {
        let descend = entry.status.can_recurse(Some(entry.kind));
        self.log = Ghost(
            self.log@.push(
                DelegateEvent::Asked {
                    rela_path: entry.rela_path@,
                    status: entry.status,
                    kind: entry.kind,
                    descend,
                },
            ),
        );
        descend
    }
}

/// The way entries are emitted using the [`Delegate`].
#[derive(Debug, Clone, Copy, PartialEq, Eq, Structural)]
pub enum EmissionMode {
    /// Emit each entry as it matches exactly, without simplification.
    Matching,
    /// Emit only a containing directory if all of its entries fold to the
    /// same status.
    CollapseDirectory,
}

impl Default for EmissionMode {
    /// By default entries are emitted as they match.
    fn default() -> (r: Self)
        ensures
            r == EmissionMode::Matching,
    {
        EmissionMode::Matching
    }
}

/// Options for the [`walk`](crate::walk()) function.
#[derive(Debug, Clone, Copy, PartialEq, Eq, Structural)]
pub struct Options {
    /// If `true`, the directory reader is expected to have turned decomposed
    /// unicode names into their precomposed form.
    pub precompose_unicode: bool,
    /// If `true`, the `.git` test and index lookups fold ASCII case.
    pub ignore_case: bool,
    /// If `true`, nested repositories are traversed as ordinary directories.
    pub recurse_repositories: bool,
    /// If `true`, pruned entries whose kind is known reach the delegate.
    pub emit_pruned: bool,
    /// If `Some(mode)`, ignored entries are emitted according to `mode`;
    /// if `None`, they are not emitted at all.
    pub emit_ignored: Option<EmissionMode>,
    /// Must be `true` when collapsed directories are meant for deletion, so
    /// that no directory holding precious files is folded into an untracked
    /// directory entry.
    pub collapse_is_for_deletion: bool,
    /// If `true`, tracked entries reach the delegate.
    pub emit_tracked: bool,
    /// Controls the way untracked entries are emitted.
    pub emit_untracked: EmissionMode,
    /// If `true`, leaf-level empty directories are emitted.
    pub emit_empty_directories: bool,
}

impl Default for Options {
    /// The defaults of `git status`: only untracked entries are emitted,
    /// one by one.
    fn default() -> (r: Self)
        ensures
            r == (Options {
                precompose_unicode: false,
                ignore_case: false,
                recurse_repositories: false,
                emit_pruned: false,
                emit_ignored: None,
                collapse_is_for_deletion: false,
                emit_tracked: false,
                emit_untracked: EmissionMode::Matching,
                emit_empty_directories: false,
            }),
    {
        Options {
            precompose_unicode: false,
            ignore_case: false,
            recurse_repositories: false,
            emit_pruned: false,
            emit_ignored: None,
            collapse_is_for_deletion: false,
            emit_tracked: false,
            emit_untracked: EmissionMode::Matching,
            emit_empty_directories: false,
        }
    }
}

/// Additional information collected as outcome of a walk.
#[derive(Debug, Clone, Copy, PartialEq, Eq, Structural)]
pub struct Outcome {
    /// The number of directories whose contents were listed.
    pub read_dir_calls: u32,
    /// The number of entries the delegate accepted with `Continue`.
    pub returned_entries: usize,
    /// The number of entries seen, before filtering or folding hid them.
    pub seen_entries: u32,
}

impl Default for Outcome {
    /// All counts start at zero.
    fn default() -> (r: Self)
        ensures
            r == (Outcome { read_dir_calls: 0, returned_entries: 0, seen_entries: 0 }),
    {
        Outcome { read_dir_calls: 0, returned_entries: 0, seen_entries: 0 }
    }
}

/// The error returned by [`walk`](crate::walk()). Each variant carries the
/// paths that diagnose it; paths are byte strings with `/` separators.
#[derive(Debug, Clone, PartialEq, Eq)]
pub enum Error {
    /// The worktree root is not a directory.
    WorktreeRootIsFile {
        /// The offending worktree root.
        root: Vec<u8>,
    },
    /// The traversal root contains relative path components that could not
    /// be normalized away.
    NormalizeRoot {
        /// The offending traversal root.
        root: Vec<u8>,
    },
    /// The traversal root is not literally contained in the worktree root.
    RootNotInWorktree {
        /// The traversal root.
        root: Vec<u8>,
        /// The worktree root it escapes.
        worktree_root: Vec<u8>,
    },
    /// A symlink was found at a component of the traversal root.
    SymlinkInRoot {
        /// The traversal root.
        root: Vec<u8>,
        /// The worktree root.
        worktree_root: Vec<u8>,
        /// The zero-based index of the offending component, counted from the
        /// first component after the worktree root.
        component_index: usize,
    },
    /// The excludes stack could not be queried for a path.
    ExcludesAccess {
        /// The path whose query failed.
        path: Vec<u8>,
    },
    /// A directory could not be read.
    ReadDir {
        /// The unreadable directory.
        path: Vec<u8>,
    },
    /// A directory entry could not be obtained.
    DirEntry {
        /// The directory whose entry failed.
        parent_directory: Vec<u8>,
    },
    /// The file type of a directory entry could not be obtained.
    DirEntryFileType {
        /// The entry whose file type failed.
        path: Vec<u8>,
    },
    /// Metadata of a traversal-root component could not be obtained.
    SymlinkMetadata {
        /// The component whose metadata failed.
        path: Vec<u8>,
    },
}

} // verus!
