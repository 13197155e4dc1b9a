//! The set of tracked files, with the flags the walk reads.
use vstd::prelude::*;

use crate::bytes::spec_ieq;
use crate::bytes::spec_is_prefix;

verus! {

/// The mode recorded for a stage-0 index entry, reduced to what the walk
/// distinguishes.
#[derive(Debug, Clone, Copy, PartialEq, Eq, Structural)]
pub enum EntryMode {
    /// A blob, executable or not.
    File,
    /// A symbolic link.
    Symlink,
    /// A submodule commit.
    Submodule,
    /// A directory entry as written by cone-mode sparse checkout.
    SparseDirectory,
}

/// One stage-0 index entry.
#[derive(Debug, Clone)]
pub struct IndexEntry {
    /// The tracked path, worktree-relative with `/` separators.
    pub path: Vec<u8>,
    /// The entry's mode.
    pub mode: EntryMode,
    /// Whether the entry was refreshed against the filesystem and matches it.
    pub uptodate: bool,
    /// Whether the entry is intentionally absent from the worktree.
    pub skip_worktree: bool,
}

/// The index: the set of tracked files.
#[derive(Debug, Clone)]
pub struct Index {
    /// All stage-0 entries.
    pub entries: Vec<IndexEntry>,
}

/// Whether `e` is recorded at exactly `path`, with optional case folding.
pub open spec fn spec_entry_at(e: IndexEntry, path: Seq<u8>, ignore_case: bool) -> bool {
    spec_ieq(e.path@, path, ignore_case)
}

/// Whether `e` lies under the directory prefix `prefix` (which ends in `/`),
/// with optional case folding.
pub open spec fn spec_entry_under(e: IndexEntry, prefix: Seq<u8>, ignore_case: bool) -> bool {
    spec_is_prefix(prefix, e.path@, ignore_case)
}

/// The first entry of `s` recorded at exactly `path`.
pub open spec fn spec_first_at(s: Seq<IndexEntry>, path: Seq<u8>, ignore_case: bool) -> Option<
    IndexEntry,
>
    decreases s.len(),
{
    if s.len() == 0 {
        None
    } else if spec_entry_at(s[0], path, ignore_case) {
        Some(s[0])
    } else {
        spec_first_at(s.drop_first(), path, ignore_case)
    }
}

/// The first entry of `s` under the prefix `prefix`.
pub open spec fn spec_first_under(s: Seq<IndexEntry>, prefix: Seq<u8>, ignore_case: bool) -> Option<
    IndexEntry,
>
    decreases s.len(),
{
    if s.len() == 0 {
        None
    } else if spec_entry_under(s[0], prefix, ignore_case) {
        Some(s[0])
    } else {
        spec_first_under(s.drop_first(), prefix, ignore_case)
    }
}

/// How many entries of `s` lie under the prefix `prefix`.
pub open spec fn spec_count_under(s: Seq<IndexEntry>, prefix: Seq<u8>, ignore_case: bool) -> nat
    decreases s.len(),
{
    if s.len() == 0 {
        0
    } else {
        spec_count_under(s.drop_last(), prefix, ignore_case) + if spec_entry_under(
            s.last(),
            prefix,
            ignore_case,
        ) {
            1nat
        } else {
            0nat
        }
    }
}

/// Whether every entry of `s` under `prefix` carries the up-to-date flag.
pub open spec fn spec_all_under_uptodate(
    s: Seq<IndexEntry>,
    prefix: Seq<u8>,
    ignore_case: bool,
) -> bool {
    forall|i: int|
        0 <= i < s.len() && spec_entry_under(#[trigger] s[i], prefix, ignore_case) ==> s[i].uptodate
}

/// Whether every entry of `s` under `prefix` carries the skip-worktree flag.
pub open spec fn spec_all_under_skip_worktree(
    s: Seq<IndexEntry>,
    prefix: Seq<u8>,
    ignore_case: bool,
) -> bool {
    forall|i: int|
        0 <= i < s.len() && spec_entry_under(#[trigger] s[i], prefix, ignore_case)
            ==> s[i].skip_worktree
}

/// A positive count under a prefix means some entry lies under it.
pub proof fn lemma_count_pos_iff_exists(s: Seq<IndexEntry>, prefix: Seq<u8>, ignore_case: bool)
    ensures
        spec_count_under(s, prefix, ignore_case) > 0 <==> exists|i: int|
            0 <= i < s.len() && spec_entry_under(#[trigger] s[i], prefix, ignore_case),
    decreases s.len(),
{
    if s.len() > 0 {
        lemma_count_pos_iff_exists(s.drop_last(), prefix, ignore_case);
        if spec_count_under(s, prefix, ignore_case) > 0 {
            if spec_entry_under(s.last(), prefix, ignore_case) {
                assert(spec_entry_under(s[s.len() - 1], prefix, ignore_case));
            } else {
                let i = choose|i: int|
                    0 <= i < s.drop_last().len() && spec_entry_under(
                        #[trigger] s.drop_last()[i],
                        prefix,
                        ignore_case,
                    );
                assert(spec_entry_under(s[i], prefix, ignore_case));
            }
        }
        if exists|i: int| 0 <= i < s.len() && spec_entry_under(#[trigger] s[i], prefix, ignore_case) {
            let i = choose|i: int|
                0 <= i < s.len() && spec_entry_under(#[trigger] s[i], prefix, ignore_case);
            if i < s.len() - 1 {
                assert(spec_entry_under(s.drop_last()[i], prefix, ignore_case));
            }
        }
    }
}

/// The first entry under a prefix exists exactly when some entry lies under it.
pub proof fn lemma_first_some_iff_exists(s: Seq<IndexEntry>, prefix: Seq<u8>, ignore_case: bool)
    ensures
        spec_first_under(s, prefix, ignore_case) is Some <==> exists|i: int|
            0 <= i < s.len() && spec_entry_under(#[trigger] s[i], prefix, ignore_case),
    decreases s.len(),
{
    if s.len() > 0 {
        lemma_first_some_iff_exists(s.drop_first(), prefix, ignore_case);
        if !spec_entry_under(s[0], prefix, ignore_case) {
            if spec_first_under(s, prefix, ignore_case) is Some {
                let i = choose|i: int|
                    0 <= i < s.drop_first().len() && spec_entry_under(
                        #[trigger] s.drop_first()[i],
                        prefix,
                        ignore_case,
                    );
                assert(spec_entry_under(s[i + 1], prefix, ignore_case));
            }
            if exists|i: int|
                0 <= i < s.len() && spec_entry_under(#[trigger] s[i], prefix, ignore_case) {
                let i = choose|i: int|
                    0 <= i < s.len() && spec_entry_under(#[trigger] s[i], prefix, ignore_case);
                assert(spec_entry_under(s.drop_first()[i - 1], prefix, ignore_case));
            }
        }
    }
}

/// A positive count under a prefix yields a first entry under it.
pub proof fn lemma_count_under_first(s: Seq<IndexEntry>, prefix: Seq<u8>, ignore_case: bool)
    ensures
        spec_count_under(s, prefix, ignore_case) > 0 ==> spec_first_under(s, prefix, ignore_case)
            is Some,
{
    lemma_count_pos_iff_exists(s, prefix, ignore_case);
    lemma_first_some_iff_exists(s, prefix, ignore_case);
}

impl Index {
    /// Look up the first entry recorded at exactly `path`.
    pub fn entry_by_path<'a>(&'a self, path: &Vec<u8>, ignore_case: bool) -> (r: Option<
        &'a IndexEntry,
    >)
        ensures
            match r {
                Some(e) => spec_first_at(self.entries@, path@, ignore_case) == Some(*e),
                None => spec_first_at(self.entries@, path@, ignore_case) is None,
            },
    {
        let n = self.entries.len();
        proof {
            assert(self.entries@.subrange(0, n as int) =~= self.entries@);
        }
        let mut i: usize = 0;
        while i < n
            invariant
                n == self.entries@.len(),
                i <= n,
                spec_first_at(self.entries@, path@, ignore_case) == spec_first_at(
                    self.entries@.subrange(i as int, n as int),
                    path@,
                    ignore_case,
                ),
            decreases n - i,
        {
            proof {
                assert(self.entries@.subrange(i as int, n as int)[0] == self.entries@[i as int]);
                assert(self.entries@.subrange(i as int, n as int).drop_first()
                    =~= self.entries@.subrange(i + 1, n as int));
            }
            if crate::bytes::bytes_ieq(&self.entries[i].path, path, ignore_case) {
                return Some(&self.entries[i]);
            }
            i = i + 1;
        }
        proof {
            assert(self.entries@.subrange(n as int, n as int).len() == 0);
        }
        None
    }

    /// Survey the entries under the directory prefix `prefix`: their number,
    /// the first of them, and whether all of them are up to date or all of
    /// them carry the skip-worktree flag.
    pub fn prefix_survey<'a>(&'a self, prefix: &Vec<u8>, ignore_case: bool) -> (r: (
        usize,
        Option<&'a IndexEntry>,
        bool,
        bool,
    ))
        ensures
            r.0 == spec_count_under(self.entries@, prefix@, ignore_case),
            match r.1 {
                Some(e) => spec_first_under(self.entries@, prefix@, ignore_case) == Some(*e),
                None => spec_first_under(self.entries@, prefix@, ignore_case) is None,
            },
            r.2 == spec_all_under_uptodate(self.entries@, prefix@, ignore_case),
            r.3 == spec_all_under_skip_worktree(self.entries@, prefix@, ignore_case),
    {
        let n = self.entries.len();
        proof {
            assert(self.entries@.subrange(0, n as int) =~= self.entries@);
            assert(self.entries@.subrange(0, 0) =~= Seq::<IndexEntry>::empty());
        }
        let mut count: usize = 0;
        let mut first: Option<&'a IndexEntry> = None;
        let mut first_idx: usize = 0;
        let mut all_uptodate: bool = true;
        let mut all_skip: bool = true;
        let mut i: usize = 0;
        while i < n
            invariant
                n == self.entries@.len(),
                i <= n,
                count == spec_count_under(
                    self.entries@.subrange(0, i as int),
                    prefix@,
                    ignore_case,
                ),
                count <= i,
                match first {
                    Some(e) => spec_first_under(self.entries@, prefix@, ignore_case) == Some(*e)
                        && first_idx < i && spec_entry_under(
                        self.entries@[first_idx as int],
                        prefix@,
                        ignore_case,
                    ) && *e == self.entries@[first_idx as int],
                    None => spec_first_under(self.entries@, prefix@, ignore_case)
                        == spec_first_under(
                        self.entries@.subrange(i as int, n as int),
                        prefix@,
                        ignore_case,
                    ),
                },
                all_uptodate == spec_all_under_uptodate(
                    self.entries@.subrange(0, i as int),
                    prefix@,
                    ignore_case,
                ),
                all_skip == spec_all_under_skip_worktree(
                    self.entries@.subrange(0, i as int),
                    prefix@,
                    ignore_case,
                ),
            decreases n - i,
        {
            proof {
                assert(self.entries@.subrange(i as int, n as int)[0] == self.entries@[i as int]);
                assert(self.entries@.subrange(i as int, n as int).drop_first()
                    =~= self.entries@.subrange(i + 1, n as int));
                assert(self.entries@.subrange(0, i + 1).drop_last() =~= self.entries@.subrange(
                    0,
                    i as int,
                ));
                assert(self.entries@.subrange(0, i + 1).last() == self.entries@[i as int]);
            }
            if crate::bytes::starts_with_ieq(&self.entries[i].path, prefix, ignore_case) {
                count = count + 1;
                if matches!(first, None) {
                    first = Some(&self.entries[i]);
                    first_idx = i;
                }
                if !self.entries[i].uptodate {
                    all_uptodate = false;
                }
                if !self.entries[i].skip_worktree {
                    all_skip = false;
                }
            }
            proof {
                let sub1 = self.entries@.subrange(0, i + 1);
                assert forall|j: int|
                    0 <= j < sub1.len() && spec_entry_under(
                        #[trigger] sub1[j],
                        prefix@,
                        ignore_case,
                    ) implies (all_uptodate ==> sub1[j].uptodate) by {
                    if j < i {
                        assert(sub1[j] == self.entries@.subrange(0, i as int)[j]);
                    }
                }
                assert forall|j: int|
                    0 <= j < sub1.len() && spec_entry_under(
                        #[trigger] sub1[j],
                        prefix@,
                        ignore_case,
                    ) implies (all_skip ==> sub1[j].skip_worktree) by {
                    if j < i {
                        assert(sub1[j] == self.entries@.subrange(0, i as int)[j]);
                    }
                }
                if !all_uptodate {
                    assert(!spec_all_under_uptodate(sub1, prefix@, ignore_case)) by {
                        let old_sub = self.entries@.subrange(0, i as int);
                        if !spec_all_under_uptodate(old_sub, prefix@, ignore_case) {
                            let j = choose|j: int|
                                0 <= j < old_sub.len() && spec_entry_under(
                                    #[trigger] old_sub[j],
                                    prefix@,
                                    ignore_case,
                                ) && !old_sub[j].uptodate;
                            assert(sub1[j] == old_sub[j]);
                        } else {
                            assert(sub1[i as int] == self.entries@[i as int]);
                        }
                    }
                }
                if !all_skip {
                    assert(!spec_all_under_skip_worktree(sub1, prefix@, ignore_case)) by {
                        let old_sub = self.entries@.subrange(0, i as int);
                        if !spec_all_under_skip_worktree(old_sub, prefix@, ignore_case) {
                            let j = choose|j: int|
                                0 <= j < old_sub.len() && spec_entry_under(
                                    #[trigger] old_sub[j],
                                    prefix@,
                                    ignore_case,
                                ) && !old_sub[j].skip_worktree;
                            assert(sub1[j] == old_sub[j]);
                        } else {
                            assert(sub1[i as int] == self.entries@[i as int]);
                        }
                    }
                }
            }
            i = i + 1;
        }
        proof {
            assert(self.entries@.subrange(0, n as int) =~= self.entries@);
            if first is None {
                assert(self.entries@.subrange(n as int, n as int).len() == 0);
            }
        }
        (count, first, all_uptodate, all_skip)
    }
}

} // verus!
