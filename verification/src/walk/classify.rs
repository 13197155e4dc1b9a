//! Classification of a single worktree-relative path, and of the traversal
//! root prefix by prefix.
use vstd::prelude::*;

use crate::bytes::spec_dot_git;
use crate::bytes::spec_ieq;
use crate::entry::Kind;
use crate::entry::Status;
use crate::fstree::Node;
use crate::fstree::spec_find_child;
use crate::index::Index;
use crate::index::spec_all_under_skip_worktree;
use crate::index::spec_all_under_uptodate;
use crate::index::spec_count_under;
use crate::index::spec_first_at;
use crate::index::spec_first_under;
use crate::walk::Options;

verus! {

/// What the index says about a worktree-relative path: a kind, where the
/// index pins one down, and a tracking status. For a directory prefix the
/// ladder is: all entries up to date makes a fully tracked directory; a
/// single sparse-directory entry marks a cone-mode exclusion; otherwise,
/// when every entry carries the skip-worktree flag, whatever their number,
/// the prefix is a non-cone sparse exclusion; anything else is tracked but
/// mixed and forces traversal.
pub open spec fn spec_resolve_index(rela_path: Seq<u8>, index: Index, ignore_case: bool) -> (
    Option<Kind>,
    Option<Status>,
) {
    match spec_first_at(index.entries@, rela_path, ignore_case) {
        Some(e) => {
            let kind = if !e.uptodate {
                None
            } else if e.mode is Submodule {
                Some(Kind::Repository)
            } else if e.mode is File {
                Some(Kind::File)
            } else if e.mode is Symlink {
                Some(Kind::Symlink)
            } else {
                None
            };
            (kind, Some(Status::Indexed))
        },
        None => {
            let prefix = rela_path + seq![47u8];
            let count = spec_count_under(index.entries@, prefix, ignore_case);
            if count == 0 {
                (None, None)
            } else if spec_all_under_uptodate(index.entries@, prefix, ignore_case) {
                (Some(Kind::Directory), Some(Status::Indexed))
            } else if count == 1 && spec_first_under(
                index.entries@,
                prefix,
                ignore_case,
            )->Some_0.mode is SparseDirectory {
                (None, Some(Status::TrackedExcluded))
            } else if spec_all_under_skip_worktree(index.entries@, prefix, ignore_case) {
                (None, Some(Status::TrackedExcluded))
            } else {
                (None, Some(Status::Indexed))
            }
        },
    }
}

/// Determine whether `rela_path` is tracked: an exact index hit classifies
/// directly, otherwise the entries under `rela_path/` decide between a fully
/// tracked directory, a sparse-excluded one, and a mixed one.
pub fn resolve_file_type_with_index(rela_path: &Vec<u8>, index: &Index, ignore_case: bool) -> (r: (
    Option<Kind>,
    Option<Status>,
))
    ensures
        r == spec_resolve_index(rela_path@, *index, ignore_case),
{
    match index.entry_by_path(rela_path, ignore_case) {
        Some(e) => {
            let kind = if !e.uptodate {
                None
            } else if matches!(e.mode, crate::index::EntryMode::Submodule) {
                Some(Kind::Repository)
            } else if matches!(e.mode, crate::index::EntryMode::File) {
                Some(Kind::File)
            } else if matches!(e.mode, crate::index::EntryMode::Symlink) {
                Some(Kind::Symlink)
            } else {
                None
            };
            (kind, Some(Status::Indexed))
        },
        None => {
            let mut prefix = crate::bytes::clone_bytes(rela_path);
            prefix.push(47);
            proof {
                assert(prefix@ =~= rela_path@ + seq![47u8]);
            }
            let (count, first, all_uptodate, all_skip) = index.prefix_survey(&prefix, ignore_case);
            if count == 0 {
                (None, None)
            } else if all_uptodate {
                (Some(Kind::Directory), Some(Status::Indexed))
            } else {
                let single_sparse = count == 1 && match first {
                    Some(e) => matches!(e.mode, crate::index::EntryMode::SparseDirectory),
                    None => false,
                };
                proof {
                    if first is None {
                        crate::index::lemma_count_under_first(
                            index.entries@,
                            prefix@,
                            ignore_case,
                        );
                    }
                }
                if single_sparse {
                    (None, Some(Status::TrackedExcluded))
                } else if all_skip {
                    (None, Some(Status::TrackedExcluded))
                } else {
                    (None, Some(Status::Indexed))
                }
            }
        },
    }
}

/// The full classification ladder for one path: the `.git` test, the cheap
/// pathspec test, index resolution, the ignore answer, and finally the
/// untracked refinements (nested repositories for directories, the strict
/// pathspec match for everything else).
pub open spec fn spec_classify(
    node: Node,
    rela_path: Seq<u8>,
    filename_start: int,
    disk_kind: Option<Kind>,
    opts: Options,
    index: Index,
) -> (Status, Option<Kind>) {
    if spec_ieq(
        rela_path.subrange(filename_start, rela_path.len() as int),
        spec_dot_git(),
        opts.ignore_case,
    ) {
        (Status::DotGit, disk_kind)
    } else if rela_path.len() > 0 && !node.pathspec_could_match {
        (Status::Pruned, disk_kind)
    } else {
        let resolved = spec_resolve_index(rela_path, index, opts.ignore_case);
        let kind = if resolved.0 is Some {
            resolved.0
        } else if disk_kind is Some {
            disk_kind
        } else {
            Some(node.spec_disk_kind())
        };
        if resolved.1 is Some {
            (resolved.1->Some_0, kind)
        } else if node.ignored is Some {
            (Status::Ignored(node.ignored->Some_0), kind)
        } else if kind->Some_0.spec_is_dir() {
            if !opts.recurse_repositories && node.foreign_repo {
                (Status::Untracked, Some(Kind::Repository))
            } else {
                (Status::Untracked, kind)
            }
        } else if !node.pathspec_matches {
            (Status::Pruned, kind)
        } else {
            (Status::Untracked, kind)
        }
    }
}

/// Classify the path held in `rela_path`, whose filename starts at
/// `filename_start`; `node` is the filesystem node at that path and
/// `disk_kind` its kind where the caller already knows it.
pub fn path(
    node: &Node,
    rela_path: &Vec<u8>,
    filename_start: usize,
    disk_kind: Option<Kind>,
    opts: Options,
    index: &Index,
) -> (r: (Status, Option<Kind>))
    requires
        filename_start <= rela_path@.len(),
    ensures
        r == spec_classify(*node, rela_path@, filename_start as int, disk_kind, opts, *index),
{
    if crate::bytes::is_dot_git(rela_path, filename_start, opts.ignore_case) {
        return (Status::DotGit, disk_kind);
    }
    if rela_path.len() > 0 && !node.pathspec_could_match {
        return (Status::Pruned, disk_kind);
    }
    let resolved = resolve_file_type_with_index(rela_path, index, opts.ignore_case);
    let kind = if matches!(resolved.0, Some(_)) {
        resolved.0
    } else if matches!(disk_kind, Some(_)) {
        disk_kind
    } else {
        Some(node.disk_kind())
    };
    if let Some(tracking) = resolved.1 {
        return (tracking, kind);
    }
    if let Some(ignored) = node.ignored {
        return (Status::Ignored(ignored), kind);
    }
    let k = match kind {
        Some(k) => k,
        None => Kind::File,
    };
    if k.is_dir() {
        if !opts.recurse_repositories && node.foreign_repo {
            return (Status::Untracked, Some(Kind::Repository));
        }
        return (Status::Untracked, kind);
    }
    if !node.pathspec_matches {
        return (Status::Pruned, kind);
    }
    (Status::Untracked, kind)
}

/// The node reached from `root` by following `components`, last one first.
pub open spec fn spec_lookup(root: Node, components: Seq<Seq<u8>>) -> Option<Node>
    decreases components.len(),
{
    if components.len() == 0 {
        Some(root)
    } else {
        match spec_lookup(root, components.drop_last()) {
            Some(parent) => spec_find_child(parent.children@, components.last()),
            None => None,
        }
    }
}

/// The components joined with `/` separators.
pub open spec fn spec_join(components: Seq<Seq<u8>>) -> Seq<u8>
    decreases components.len(),
{
    if components.len() == 0 {
        Seq::empty()
    } else if components.len() == 1 {
        components[0]
    } else {
        spec_join(components.drop_last()) + seq![47u8] + components.last()
    }
}

/// Where the filename starts inside `spec_join(components.take(k + 1))`.
pub open spec fn spec_filename_start(components: Seq<Seq<u8>>, k: int) -> int {
    if k == 0 {
        0
    } else {
        spec_join(components.take(k)).len() + 1int
    }
}

/// The classification the root walk computes once it has reached component
/// `k`: classify the prefix ending at `k` and go deeper only while the
/// status allows recursion. The result carries the number of components
/// consumed; it is `None` where the tree lacks a component.
pub open spec fn spec_root_loop(
    root: Node,
    components: Seq<Seq<u8>>,
    k: int,
    opts: Options,
    index: Index,
) -> Option<(Status, Option<Kind>, int)>
    decreases components.len() - k,
{
    if !(0 <= k < components.len()) {
        None
    } else {
        match spec_lookup(root, components.take(k + 1)) {
            None => None,
            Some(node) => {
                let rela = spec_join(components.take(k + 1));
                let res = spec_classify(
                    node,
                    rela,
                    spec_filename_start(components, k),
                    Some(node.spec_disk_kind()),
                    opts,
                    index,
                );
                if !res.0.spec_can_recurse(res.1) || k == components.len() - 1 {
                    Some((res.0, res.1, k + 1))
                } else {
                    spec_root_loop(root, components, k + 1, opts, index)
                }
            },
        }
    }
}

/// The result of classifying the traversal root: the status and kind of the
/// deepest prefix the walk may stand on, and how many components lead there.
pub open spec fn spec_classify_root(
    root: Node,
    components: Seq<Seq<u8>>,
    opts: Options,
    index: Index,
) -> Option<(Status, Option<Kind>, int)> {
    if components.len() == 0 {
        let res = spec_classify(root, Seq::empty(), 0, Some(root.spec_disk_kind()), opts, index);
        Some((res.0, res.1, 0))
    } else {
        spec_root_loop(root, components, 0, opts, index)
    }
}

/// Classify the traversal root given by `components`, filling `buf` with the
/// joined path of the prefix whose classification is returned.
pub fn root(
    worktree: &Node,
    buf: &mut Vec<u8>,
    components: &Vec<Vec<u8>>,
    opts: Options,
    index: &Index,
) -> (r: (Status, Option<Kind>, usize))
    requires
        spec_classify_root(*worktree, components@.map_values(|c: Vec<u8>| c@), opts, *index)
            is Some,
    ensures
        ({
            let comps = components@.map_values(|c: Vec<u8>| c@);
            let res = spec_classify_root(*worktree, comps, opts, *index)->Some_0;
            &&& (r.0, r.1) == (res.0, res.1)
            &&& r.2 == res.2
            &&& r.2 <= components@.len()
            &&& final(buf)@ == spec_join(comps.take(r.2 as int))
        }),
{
    let ghost comps = components@.map_values(|c: Vec<u8>| c@);
    buf.clear();
    if components.len() == 0 {
        let res = path(worktree, buf, 0, Some(worktree.disk_kind()), opts, index);
        proof {
            assert(comps.take(0) =~= Seq::<Seq<u8>>::empty());
            assert(buf@ =~= spec_join(comps.take(0)));
            assert(buf@ =~= Seq::<u8>::empty());
        }
        return (res.0, res.1, 0);
    }
    let n = components.len();
    let mut k: usize = 0;
    let mut node: &Node = worktree;
    loop
        invariant
            n == components@.len(),
            comps == components@.map_values(|c: Vec<u8>| c@),
            0 <= k < n,
            spec_lookup(*worktree, comps.take(k as int)) == Some(*node),
            buf@ == spec_join(comps.take(k as int)),
            spec_root_loop(*worktree, comps, 0, opts, *index) == spec_root_loop(
                *worktree,
                comps,
                k as int,
                opts,
                *index,
            ),
            spec_root_loop(*worktree, comps, k as int, opts, *index) is Some,
        decreases n - k,
    {
        if k > 0 {
            buf.push(47);
        }
        let filename_start = if k == 0 { 0 } else { buf.len() };
        crate::bytes::append_bytes(buf, &components[k]);
        proof {
            assert(comps.take(k + 1).drop_last() =~= comps.take(k as int));
            assert(comps.take(k + 1).last() == comps[k as int]);
            if k == 0 {
                assert(comps.take(1) =~= seq![comps[0]]);
                assert(spec_join(comps.take(1)) == comps[0]);
                assert(buf@ =~= comps[0]);
            } else {
                assert(buf@ =~= spec_join(comps.take(k as int)) + seq![47u8] + comps[k as int]);
            }
            assert(buf@ == spec_join(comps.take(k + 1)));
            assert(filename_start as int == spec_filename_start(comps, k as int));
        }
        let child = match crate::fstree::find_child(&node.children, &components[k]) {
            Some(c) => c,
            None => {
                proof {
                    assert(spec_lookup(*worktree, comps.take(k + 1)) is None);
                    assert(false);
                }
                vstd::pervasive::unreached()
            },
        };
        proof {
            assert(spec_lookup(*worktree, comps.take(k + 1)) == Some(*child));
        }
        let res = path(child, buf, filename_start, Some(child.disk_kind()), opts, index);
        let recursable = res.0.can_recurse(res.1);
        if !recursable || k == n - 1 {
            return (res.0, res.1, k + 1);
        }
        node = child;
        k = k + 1;
    }
}

/// The joined path of the first `k + 1` components ends in component `k`,
/// which starts right where the filename is expected to start.
pub proof fn lemma_join_filename(components: Seq<Seq<u8>>, k: int)
    requires
        0 <= k < components.len(),
    ensures
        ({
            let rela = spec_join(components.take(k + 1));
            &&& spec_filename_start(components, k) <= rela.len()
            &&& rela.subrange(spec_filename_start(components, k), rela.len() as int)
                == components[k]
        }),
{
    let rela = spec_join(components.take(k + 1));
    if k == 0 {
        assert(components.take(1) =~= seq![components[0]]);
        assert(rela == components[0]);
        assert(rela.subrange(0, rela.len() as int) =~= components[0]);
    } else {
        assert(components.take(k + 1).drop_last() =~= components.take(k));
        assert(components.take(k + 1).last() == components[k]);
        assert(rela == spec_join(components.take(k)) + seq![47u8] + components[k]);
        assert(rela.subrange(
            spec_join(components.take(k)).len() + 1int,
            rela.len() as int,
        ) =~= components[k]);
    }
}

/// What the root walk's result is made of: it consumed between one and all
/// components, the node it stopped at exists, the returned classification
/// is that node's, and it only stopped short of the last component because
/// the classification forbids recursion.
pub proof fn lemma_root_loop_characterize(
    root: Node,
    components: Seq<Seq<u8>>,
    k: int,
    opts: Options,
    index: Index,
)
    requires
        0 <= k < components.len(),
        spec_root_loop(root, components, k, opts, index) is Some,
    ensures
        ({
            let rr = spec_root_loop(root, components, k, opts, index)->Some_0;
            &&& k + 1 <= rr.2 <= components.len()
            &&& spec_lookup(root, components.take(rr.2)) is Some
            &&& {
                let node = spec_lookup(root, components.take(rr.2))->Some_0;
                (rr.0, rr.1) == spec_classify(
                    node,
                    spec_join(components.take(rr.2)),
                    spec_filename_start(components, rr.2 - 1),
                    Some(node.spec_disk_kind()),
                    opts,
                    index,
                )
            }
            &&& (rr.2 < components.len() ==> !rr.0.spec_can_recurse(rr.1))
        }),
    decreases components.len() - k,
{
    let node = spec_lookup(root, components.take(k + 1))->Some_0;
    let res = spec_classify(
        node,
        spec_join(components.take(k + 1)),
        spec_filename_start(components, k),
        Some(node.spec_disk_kind()),
        opts,
        index,
    );
    if !(!res.0.spec_can_recurse(res.1) || k == components.len() - 1) {
        lemma_root_loop_characterize(root, components, k + 1, opts, index);
    }
}

/// A path whose final component is `.git` classifies as `DotGit` before
/// anything else is examined, and `DotGit` never allows recursion.
pub proof fn law_dot_git_classifies_first(
    node: Node,
    rela_path: Seq<u8>,
    filename_start: int,
    disk_kind: Option<Kind>,
    opts: Options,
    index: Index,
    file_type: Option<Kind>,
)
    requires
        spec_ieq(
            rela_path.subrange(filename_start, rela_path.len() as int),
            spec_dot_git(),
            opts.ignore_case,
        ),
    ensures
        spec_classify(node, rela_path, filename_start, disk_kind, opts, index) == (
            Status::DotGit,
            disk_kind,
        ),
        !Status::DotGit.spec_can_recurse(file_type),
{
}

/// A traversal root whose final component is `.git` never hands a
/// recursable directory to the walk: either the root validation stops
/// early, at a prefix whose status already forbids recursion, or it
/// reaches the final component and classifies it `DotGit`, which forbids
/// recursion as well. No directory below such a root is ever read.
pub proof fn law_dot_git_root_stops(
    root: Node,
    components: Seq<Seq<u8>>,
    opts: Options,
    index: Index,
)
    requires
        components.len() > 0,
        spec_ieq(components.last(), spec_dot_git(), opts.ignore_case),
        spec_root_loop(root, components, 0, opts, index) is Some,
    ensures
        ({
            let rr = spec_root_loop(root, components, 0, opts, index)->Some_0;
            &&& !rr.0.spec_can_recurse(rr.1)
            &&& (rr.2 == components.len() ==> rr.0 == Status::DotGit)
        }),
{
    lemma_root_loop_characterize(root, components, 0, opts, index);
    let rr = spec_root_loop(root, components, 0, opts, index)->Some_0;
    lemma_join_filename(components, rr.2 - 1);
    if rr.2 == components.len() {
        assert(components.take(rr.2) =~= components);
        assert(components[rr.2 - 1] == components.last());
    }
}

/// A tracked submodule is terminal for the root validation: if the walk
/// down the traversal root reaches a component whose path has an
/// up-to-date submodule entry in the index, it stops right there, with
/// status `Indexed` and kind `Repository`, and never descends further.
pub proof fn law_submodule_root_stops(
    root: Node,
    components: Seq<Seq<u8>>,
    k: int,
    opts: Options,
    index: Index,
)
    requires
        0 <= k < components.len(),
        spec_root_loop(root, components, k, opts, index) is Some,
        spec_lookup(root, components.take(k + 1)) is Some,
        !spec_ieq(components[k], crate::bytes::spec_dot_git(), opts.ignore_case),
        spec_lookup(root, components.take(k + 1))->Some_0.pathspec_could_match,
        ({
            let rela = spec_join(components.take(k + 1));
            let hit = spec_first_at(index.entries@, rela, opts.ignore_case);
            &&& hit is Some
            &&& hit->Some_0.mode is Submodule
            &&& hit->Some_0.uptodate
        }),
    ensures
        spec_root_loop(root, components, k, opts, index) == Some(
            (Status::Indexed, Some(Kind::Repository), k + 1),
        ),
{
    lemma_join_filename(components, k);
    let node = spec_lookup(root, components.take(k + 1))->Some_0;
    let rela = spec_join(components.take(k + 1));
    let res = spec_classify(
        node,
        rela,
        spec_filename_start(components, k),
        Some(node.spec_disk_kind()),
        opts,
        index,
    );
    assert(res == (Status::Indexed, Some(Kind::Repository)));
    assert(!res.0.spec_can_recurse(res.1));
}

} // verus!
