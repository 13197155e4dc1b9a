//! Walks over in-memory worktree views: classification, emission filtering,
//! and directory collapsing.
#![allow(dead_code)]

use gix_dir::Entry;
use gix_dir::entry::IgnoreKind;
use gix_dir::entry::Kind;
use gix_dir::entry::Status;
use gix_dir::fstree::DiskKind;
use gix_dir::fstree::Node;
use gix_dir::index::EntryMode;
use gix_dir::index::Index;
use gix_dir::index::IndexEntry;
use gix_dir::walk;
use gix_dir::walk::Action;
use gix_dir::walk::Delegate;
use gix_dir::walk::EmissionMode::CollapseDirectory;
use gix_dir::walk::EmissionMode::Matching;
use gix_dir::walk::Options;
use gix_dir::walk::Outcome;

use gix_dir::entry::IgnoreKind::Expendable;
use gix_dir::entry::IgnoreKind::Precious;
use gix_dir::entry::Kind::Directory;
use gix_dir::entry::Kind::EmptyDirectory;
use gix_dir::entry::Kind::File;
use gix_dir::entry::Kind::Repository;
use gix_dir::entry::Status::DotGit;
use gix_dir::entry::Status::Ignored;
use gix_dir::entry::Status::Indexed;
use gix_dir::entry::Status::Pruned;
use gix_dir::entry::Status::TrackedExcluded;
use gix_dir::entry::Status::Untracked;

fn node(name: &str, kind: DiskKind) -> Node {
    Node {
        name: name.as_bytes().to_vec(),
        kind,
        foreign_repo: false,
        ignored: None,
        pathspec_could_match: true,
        pathspec_matches: true,
        pathspec_explicit_match: false,
        children: vec![],
    }
}

fn file(name: &str) -> Node {
    node(name, DiskKind::File)
}

fn symlink(name: &str) -> Node {
    node(name, DiskKind::Symlink)
}

fn dir(name: &str, children: Vec<Node>) -> Node {
    let mut n = node(name, DiskKind::Directory);
    n.children = children;
    n
}

/// A directory containing a `.git` of a foreign repository.
fn repo(name: &str, children: Vec<Node>) -> Node {
    let mut n = dir(name, children);
    n.foreign_repo = true;
    n
}

fn ignored(mut n: Node, kind: IgnoreKind) -> Node {
    n.ignored = Some(kind);
    n
}

/// The pathspec can match neither this path nor anything below it.
fn no_match(mut n: Node) -> Node {
    n.pathspec_could_match = false;
    n.pathspec_matches = false;
    n
}

fn worktree(children: Vec<Node>) -> Node {
    dir("", children)
}

fn dot_git() -> Node {
    dir(".git", vec![])
}

fn index_of(entries: Vec<IndexEntry>) -> Index {
    Index { entries }
}

fn empty_index() -> Index {
    Index { entries: vec![] }
}

fn index_file(path: &str) -> IndexEntry {
    IndexEntry {
        path: path.as_bytes().to_vec(),
        mode: EntryMode::File,
        uptodate: true,
        skip_worktree: false,
    }
}

fn submodule(path: &str) -> IndexEntry {
    IndexEntry {
        path: path.as_bytes().to_vec(),
        mode: EntryMode::Submodule,
        uptodate: true,
        skip_worktree: false,
    }
}

fn sparse_dir(path: &str) -> IndexEntry {
    IndexEntry {
        path: path.as_bytes().to_vec(),
        mode: EntryMode::SparseDirectory,
        uptodate: false,
        skip_worktree: true,
    }
}

fn skipped(path: &str) -> IndexEntry {
    IndexEntry {
        path: path.as_bytes().to_vec(),
        mode: EntryMode::File,
        uptodate: false,
        skip_worktree: true,
    }
}

fn options() -> Options {
    Options::default()
}

fn options_emit_all() -> Options {
    Options {
        precompose_unicode: false,
        ignore_case: false,
        recurse_repositories: false,
        collapse_is_for_deletion: false,
        emit_pruned: true,
        emit_ignored: Some(Matching),
        emit_tracked: true,
        emit_untracked: Matching,
        emit_empty_directories: true,
    }
}

type Entries = Vec<(Entry, Option<Status>)>;

#[derive(Default)]
struct Collect {
    entries: Entries,
}

impl Delegate for Collect {
    fn emit(&mut self, entry: &Entry, dir_status: Option<Status>) -> Action {
        self.entries.push((entry.clone(), dir_status));
        Action::Continue
    }

    fn can_recurse(&mut self, entry: &Entry) -> bool {
        entry.status.can_recurse(Some(entry.kind))
    }
}

fn entry(rela_path: &str, status: Status, kind: Kind) -> (Entry, Option<Status>) {
    (
        Entry {
            rela_path: rela_path.as_bytes().to_vec(),
            status,
            kind,
        },
        None,
    )
}

fn entry_dirstat(
    rela_path: &str,
    status: Status,
    kind: Kind,
    dir_status: Status,
) -> (Entry, Option<Status>) {
    (
        Entry {
            rela_path: rela_path.as_bytes().to_vec(),
            status,
            kind,
        },
        Some(dir_status),
    )
}

fn collect_at(
    tree: &Node,
    index: &Index,
    root: &str,
    opts: Options,
) -> (Outcome, Entries) {
    let root_path = root.as_bytes().to_vec();
    let worktree_root = b"/wt".to_vec();
    let mut dlg = Collect::default();
    let out = walk(&root_path, &worktree_root, tree, index, opts, &mut dlg)
        .expect("walk succeeds");
    let mut entries = dlg.entries;
    entries.sort_by(|a, b| a.0.rela_path.cmp(&b.0.rela_path));
    (out, entries)
}

fn collect(tree: &Node, index: &Index, opts: Options) -> (Outcome, Entries) {
    collect_at(tree, index, "/wt", opts)
}

fn outcome(read_dir_calls: u32, returned_entries: usize, seen_entries: u32) -> Outcome {
    Outcome {
        read_dir_calls,
        returned_entries,
        seen_entries,
    }
}

#[test]
fn empty_root() {
    let tree = worktree(vec![]);
    let (out, entries) = collect(&tree, &empty_index(), options());
    assert_eq!(out, outcome(1, entries.len(), 1));
    assert_eq!(
        entries.len(),
        0,
        "by default, nothing is shown as the directory is empty"
    );

    let (out, entries) = collect(
        &tree,
        &empty_index(),
        Options {
            emit_empty_directories: true,
            ..options()
        },
    );
    assert_eq!(out, outcome(1, entries.len(), 1));
    assert_eq!(entries.len(), 1);
    assert_eq!(
        &entries[0],
        &entry("", Untracked, EmptyDirectory),
        "this is how we can indicate the worktree is entirely untracked"
    );
}

#[test]
fn complex_empty() {
    let tree = worktree(vec![
        dir(
            "dirs-and-files",
            vec![dir("dir", vec![file("file")]), dir("sub", vec![])],
        ),
        dir("empty-toplevel", vec![]),
        dir(
            "only-dirs",
            vec![dir("other", vec![]), dir("sub", vec![dir("subsub", vec![])])],
        ),
    ]);
    let (out, entries) = collect(&tree, &empty_index(), options_emit_all());
    assert_eq!(out, outcome(9, entries.len(), 5));
    assert_eq!(
        entries,
        vec![
            entry("dirs-and-files/dir/file", Untracked, File),
            entry("dirs-and-files/sub", Untracked, EmptyDirectory),
            entry("empty-toplevel", Untracked, EmptyDirectory),
            entry("only-dirs/other", Untracked, EmptyDirectory),
            entry("only-dirs/sub/subsub", Untracked, EmptyDirectory),
        ],
        "we see each and every directory, and get it classified as empty as it's set to be emitted"
    );

    let (out, entries) = collect(
        &tree,
        &empty_index(),
        Options {
            emit_empty_directories: false,
            ..options()
        },
    );
    assert_eq!(out, outcome(9, entries.len(), 5));
    assert_eq!(
        entries,
        vec![entry("dirs-and-files/dir/file", Untracked, File)],
        "by default, no empty directory shows up"
    );
}

fn only_untracked_tree() -> Node {
    worktree(vec![
        dot_git(),
        file("a"),
        file("b"),
        file("c"),
        dir(
            "d",
            vec![file("a"), file("b"), dir("d", vec![file("a")])],
        ),
    ])
}

fn only_untracked_tree_filtered() -> Node {
    // the pathspec `d/*` can match only below `d`
    worktree(vec![
        dot_git(),
        no_match(file("a")),
        no_match(file("b")),
        no_match(file("c")),
        dir(
            "d",
            vec![file("a"), file("b"), dir("d", vec![file("a")])],
        ),
    ])
}

#[test]
fn only_untracked() {
    let tree = only_untracked_tree();
    let (out, entries) = collect(&tree, &empty_index(), options());
    assert_eq!(out, outcome(3, entries.len(), 7));
    assert_eq!(
        entries,
        vec![
            entry("a", Untracked, File),
            entry("b", Untracked, File),
            entry("c", Untracked, File),
            entry("d/a", Untracked, File),
            entry("d/b", Untracked, File),
            entry("d/d/a", Untracked, File),
        ]
    );

    let filtered = only_untracked_tree_filtered();
    let (out, entries) = collect(&filtered, &empty_index(), options());
    assert_eq!(out, outcome(3, entries.len(), 7));
    assert_eq!(
        entries,
        vec![
            entry("d/a", Untracked, File),
            entry("d/b", Untracked, File),
            entry("d/d/a", Untracked, File),
        ]
    );

    let (out, entries) = collect(
        &tree,
        &empty_index(),
        Options {
            emit_untracked: CollapseDirectory,
            ..options()
        },
    );
    assert_eq!(
        out,
        outcome(3, entries.len(), 7 + 2),
        "There are 2 extra directories that we fold into, but ultimately discard"
    );
    assert_eq!(
        entries,
        vec![
            entry("a", Untracked, File),
            entry("b", Untracked, File),
            entry("c", Untracked, File),
            entry("d", Untracked, Directory),
        ]
    );
}

#[test]
fn only_untracked_from_subdir() {
    let tree = only_untracked_tree();
    let (out, entries) = collect_at(&tree, &empty_index(), "/wt/d/d", options());
    assert_eq!(out, outcome(1, entries.len(), 1));
    assert_eq!(
        entries,
        vec![entry("d/d/a", Untracked, File)],
        "even from subdirs, paths are worktree relative"
    );
}

fn subdir_untracked_index() -> Index {
    index_of(vec![
        index_file("a"),
        index_file("b"),
        index_file("c"),
        index_file("d/a"),
        index_file("d/b"),
    ])
}

#[test]
fn subdir_untracked() {
    let tree = only_untracked_tree();
    let index = subdir_untracked_index();
    let (out, entries) = collect(&tree, &index, options());
    assert_eq!(out, outcome(3, entries.len(), 7));
    assert_eq!(entries, vec![entry("d/d/a", Untracked, File)]);

    // the pathspec `d/d/*` can match only below `d/d`
    let filtered = worktree(vec![
        dot_git(),
        no_match(file("a")),
        no_match(file("b")),
        no_match(file("c")),
        dir(
            "d",
            vec![
                no_match(file("a")),
                no_match(file("b")),
                dir("d", vec![file("a")]),
            ],
        ),
    ]);
    let (out, entries) = collect(&filtered, &index, options());
    assert_eq!(
        out,
        outcome(3, entries.len(), 7),
        "pruning has no actual effect here as there is no extra directories that could be avoided"
    );
    assert_eq!(entries, vec![entry("d/d/a", Untracked, File)]);

    let (out, entries) = collect(
        &tree,
        &index,
        Options {
            emit_untracked: CollapseDirectory,
            ..options()
        },
    );
    assert_eq!(
        out,
        outcome(3, entries.len(), 7 + 1),
        "there is a folded directory we added"
    );
    assert_eq!(entries, vec![entry("d/d", Untracked, Directory)]);
}

fn untracked_and_ignored_tree() -> Node {
    worktree(vec![
        dot_git(),
        file(".gitignore"),
        file("a"),
        file("b"),
        file("c"),
        ignored(file("a.o"), Expendable),
        ignored(file("b.o"), Expendable),
        ignored(file("c.o"), Expendable),
        ignored(dir("generated", vec![file("one")]), Expendable),
        dir(
            "objs",
            vec![
                ignored(file("a.o"), Expendable),
                ignored(file("b.o"), Expendable),
                dir("sub", vec![ignored(file("other.o"), Expendable)]),
            ],
        ),
        dir(
            "d",
            vec![
                file("a"),
                file("b"),
                ignored(file("a.o"), Expendable),
                ignored(file("b.o"), Expendable),
                ignored(dir("generated", vec![file("two")]), Expendable),
                dir(
                    "d",
                    vec![
                        file("a"),
                        ignored(file("a.o"), Expendable),
                        ignored(file("b.o"), Expendable),
                        ignored(dir("generated", vec![file("three")]), Expendable),
                    ],
                ),
            ],
        ),
    ])
}

fn drop_exact_match_on_non_a_files(n: &mut Node) {
    if n.kind == DiskKind::File {
        let starts_with_a = n.name.first() == Some(&b'a');
        if !starts_with_a {
            n.pathspec_matches = false;
        }
    }
    for c in &mut n.children {
        drop_exact_match_on_non_a_files(c);
    }
}

#[test]
fn untracked_and_ignored() {
    let tree = untracked_and_ignored_tree();
    let index = subdir_untracked_index();
    let (out, entries) = collect(
        &tree,
        &index,
        Options {
            emit_ignored: Some(Matching),
            ..options()
        },
    );
    assert_eq!(
        out,
        outcome(5, entries.len(), 21),
        "some untracked ones are hidden by default"
    );
    assert_eq!(
        entries,
        vec![
            entry(".gitignore", Untracked, File),
            entry("a.o", Ignored(Expendable), File),
            entry("b.o", Ignored(Expendable), File),
            entry("c.o", Ignored(Expendable), File),
            entry("d/a.o", Ignored(Expendable), File),
            entry("d/b.o", Ignored(Expendable), File),
            entry("d/d/a", Untracked, File),
            entry("d/d/a.o", Ignored(Expendable), File),
            entry("d/d/b.o", Ignored(Expendable), File),
            entry("d/d/generated", Ignored(Expendable), Directory),
            entry("d/generated", Ignored(Expendable), Directory),
            entry("generated", Ignored(Expendable), Directory),
            entry("objs/a.o", Ignored(Expendable), File),
            entry("objs/b.o", Ignored(Expendable), File),
            entry("objs/sub/other.o", Ignored(Expendable), File),
        ]
    );

    // the pathspec `**/a*`: only `.gitignore` and `d/d/a` are untracked
    // non-directories, and of those only `d/d/a` matches a pattern exactly.
    let mut filtered = untracked_and_ignored_tree();
    drop_exact_match_on_non_a_files(&mut filtered);
    let (out, entries) = collect(
        &filtered,
        &index,
        Options {
            emit_pruned: true,
            ..options()
        },
    );
    assert_eq!(out, outcome(5, entries.len(), 21), "basically the same result...");
    assert_eq!(
        entries,
        vec![
            entry(".gitignore", Pruned, File),
            entry("d/d/a", Untracked, File),
        ],
        "...but with different classification as the ignore file is pruned so it's not untracked anymore"
    );

    let (out, entries) = collect(
        &tree,
        &index,
        Options {
            emit_ignored: None,
            emit_untracked: CollapseDirectory,
            ..options()
        },
    );
    assert_eq!(
        out,
        outcome(5, entries.len(), 21 + 1),
        "we still encounter the same amount of entries, and 1 folded directory"
    );
    assert_eq!(
        entries,
        vec![
            entry(".gitignore", Untracked, File),
            entry("d/d", Untracked, Directory),
        ],
        "aggregation kicks in here"
    );

    let (out, entries) = collect(
        &tree,
        &index,
        Options {
            emit_ignored: Some(CollapseDirectory),
            ..options()
        },
    );
    assert_eq!(
        out,
        outcome(5, entries.len(), 21 + 2),
        "some untracked ones are hidden by default, folded directories"
    );
    assert_eq!(
        entries,
        vec![
            entry(".gitignore", Untracked, File),
            entry("a.o", Ignored(Expendable), File),
            entry("b.o", Ignored(Expendable), File),
            entry("c.o", Ignored(Expendable), File),
            entry("d/a.o", Ignored(Expendable), File),
            entry("d/b.o", Ignored(Expendable), File),
            entry("d/d/a", Untracked, File),
            entry("d/d/a.o", Ignored(Expendable), File),
            entry("d/d/b.o", Ignored(Expendable), File),
            entry("d/d/generated", Ignored(Expendable), Directory),
            entry("d/generated", Ignored(Expendable), Directory),
            entry("generated", Ignored(Expendable), Directory),
            entry("objs", Ignored(Expendable), Directory),
        ],
        "objects are aggregated"
    );

    let (out, entries) = collect(
        &tree,
        &index,
        Options {
            emit_ignored: Some(CollapseDirectory),
            emit_untracked: CollapseDirectory,
            ..options()
        },
    );
    assert_eq!(
        out,
        outcome(5, entries.len(), 21 + 3),
        "some untracked ones are hidden by default, and folded directories"
    );
    assert_eq!(
        entries,
        vec![
            entry(".gitignore", Untracked, File),
            entry("a.o", Ignored(Expendable), File),
            entry("b.o", Ignored(Expendable), File),
            entry("c.o", Ignored(Expendable), File),
            entry("d/a.o", Ignored(Expendable), File),
            entry("d/b.o", Ignored(Expendable), File),
            entry("d/d", Untracked, Directory),
            entry_dirstat("d/d/a.o", Ignored(Expendable), File, Untracked),
            entry_dirstat("d/d/b.o", Ignored(Expendable), File, Untracked),
            entry_dirstat("d/d/generated", Ignored(Expendable), Directory, Untracked),
            entry("d/generated", Ignored(Expendable), Directory),
            entry("generated", Ignored(Expendable), Directory),
            entry("objs", Ignored(Expendable), Directory),
        ],
        "ignored ones are aggregated, and collapsing of untracked happens while \
         the ignored files that were inside are still listed with a dir-status tag"
    );
}

fn untracked_and_precious_tree() -> Node {
    worktree(vec![
        dot_git(),
        file(".gitignore"),
        file("b"),
        ignored(file("a.o"), Expendable),
        dir(
            "d",
            vec![
                ignored(file("a.o"), Expendable),
                ignored(file("b.o"), Expendable),
                file("file"),
                dir(
                    "d",
                    vec![ignored(file("a.precious"), Precious), file("new")],
                ),
            ],
        ),
    ])
}

fn untracked_and_precious_index() -> Index {
    index_of(vec![index_file(".gitignore"), index_file("b"), index_file("d/file")])
}

#[test]
fn precious_are_not_expendable() {
    let tree = untracked_and_precious_tree();
    let index = untracked_and_precious_index();
    let (out, entries) = collect(
        &tree,
        &index,
        Options {
            emit_ignored: Some(CollapseDirectory),
            emit_untracked: CollapseDirectory,
            ..options()
        },
    );
    assert_eq!(out, outcome(3, entries.len(), 10));
    assert_eq!(
        entries,
        vec![
            entry("a.o", Ignored(Expendable), File),
            entry("d/a.o", Ignored(Expendable), File),
            entry("d/b.o", Ignored(Expendable), File),
            entry("d/d", Untracked, Directory),
            entry_dirstat("d/d/a.precious", Ignored(Precious), File, Untracked),
        ],
        "by default precious files are treated no differently than expendable files, \
         which is fine unless you want to delete `d/d`"
    );

    // the pathspecs `d/*`, `d/` and `d` all restrict matches to below `d`
    let mut filtered = untracked_and_precious_tree();
    for c in &mut filtered.children {
        if c.name != b"d" && c.name != b".git" {
            c.pathspec_could_match = false;
            c.pathspec_matches = false;
        }
    }
    let (out, entries) = collect(
        &filtered,
        &index,
        Options {
            emit_ignored: Some(CollapseDirectory),
            emit_untracked: CollapseDirectory,
            ..options()
        },
    );
    assert_eq!(out, outcome(3, entries.len(), 10), "should yield same result");
    assert_eq!(
        entries,
        vec![
            entry("d/a.o", Ignored(Expendable), File),
            entry("d/b.o", Ignored(Expendable), File),
            entry("d/d", Untracked, Directory),
            entry_dirstat("d/d/a.precious", Ignored(Precious), File, Untracked),
        ],
        "a pathspec restricted to `d` should yield the same entries below it"
    );

    let (out, entries) = collect(
        &tree,
        &index,
        Options {
            emit_ignored: Some(CollapseDirectory),
            emit_untracked: CollapseDirectory,
            collapse_is_for_deletion: true,
            ..options()
        },
    );
    assert_eq!(out, outcome(3, entries.len(), 9));
    assert_eq!(
        entries,
        vec![
            entry("a.o", Ignored(Expendable), File),
            entry("d/a.o", Ignored(Expendable), File),
            entry("d/b.o", Ignored(Expendable), File),
            entry("d/d/a.precious", Ignored(Precious), File),
            entry("d/d/new", Untracked, File),
        ],
        "if collapses are for deletion, precious files show up individually and \
         prevent collapsing into a folder in the first place"
    );
}

fn expendable_and_precious_tree() -> Node {
    worktree(vec![
        dot_git(),
        file(".gitignore"),
        ignored(file("a.o"), Expendable),
        ignored(dir("all-expendable", vec![file("x.o"), file("y.o")]), Expendable),
        dir(
            "all-expendable-by-filematch",
            vec![
                ignored(file("e.o"), Expendable),
                ignored(file("f.o"), Expendable),
            ],
        ),
        ignored(dir("all-precious", vec![file("x"), file("y")]), Precious),
        dir(
            "all-precious-by-filematch",
            vec![
                ignored(file("a.precious"), Precious),
                ignored(file("b.precious"), Precious),
            ],
        ),
        dir(
            "mixed",
            vec![
                ignored(file("b.o"), Expendable),
                ignored(file("precious"), Precious),
            ],
        ),
        ignored(file("precious"), Precious),
        dir(
            "some-expendable",
            vec![
                file("file"),
                ignored(file("file.o"), Expendable),
                file("new"),
            ],
        ),
        dir(
            "some-precious",
            vec![
                file("file"),
                ignored(file("file.precious"), Precious),
                file("new"),
            ],
        ),
    ])
}

fn expendable_and_precious_index() -> Index {
    index_of(vec![
        index_file(".gitignore"),
        index_file("some-expendable/file"),
        index_file("some-precious/file"),
    ])
}

#[test]
fn expendable_and_precious() {
    let tree = expendable_and_precious_tree();
    let index = expendable_and_precious_index();
    let (out, entries) = collect(&tree, &index, options_emit_all());
    assert_eq!(out, outcome(6, entries.len(), 18));
    assert_eq!(
        entries,
        vec![
            entry(".gitignore", Indexed, File),
            entry("a.o", Ignored(Expendable), File),
            entry("all-expendable", Ignored(Expendable), Directory),
            entry("all-expendable-by-filematch/e.o", Ignored(Expendable), File),
            entry("all-expendable-by-filematch/f.o", Ignored(Expendable), File),
            entry("all-precious", Ignored(Precious), Directory),
            entry("all-precious-by-filematch/a.precious", Ignored(Precious), File),
            entry("all-precious-by-filematch/b.precious", Ignored(Precious), File),
            entry("mixed/b.o", Ignored(Expendable), File),
            entry("mixed/precious", Ignored(Precious), File),
            entry("precious", Ignored(Precious), File),
            entry("some-expendable/file", Indexed, File),
            entry("some-expendable/file.o", Ignored(Expendable), File),
            entry("some-expendable/new", Untracked, File),
            entry("some-precious/file", Indexed, File),
            entry("some-precious/file.precious", Ignored(Precious), File),
            entry("some-precious/new", Untracked, File),
        ],
        "listing everything is a 'matching' preset, which is among the most efficient."
    );

    let (out, entries) = collect(
        &tree,
        &index,
        Options {
            emit_ignored: Some(CollapseDirectory),
            emit_tracked: true,
            ..options()
        },
    );
    assert_eq!(out, outcome(6, entries.len(), 18 + 2));
    assert_eq!(
        entries,
        vec![
            entry(".gitignore", Indexed, File),
            entry("a.o", Ignored(Expendable), File),
            entry("all-expendable", Ignored(Expendable), Directory),
            entry("all-expendable-by-filematch", Ignored(Expendable), Directory),
            entry("all-precious", Ignored(Precious), Directory),
            entry("all-precious-by-filematch", Ignored(Precious), Directory),
            entry("mixed/b.o", Ignored(Expendable), File),
            entry("mixed/precious", Ignored(Precious), File),
            entry("precious", Ignored(Precious), File),
            entry("some-expendable/file", Indexed, File),
            entry("some-expendable/file.o", Ignored(Expendable), File),
            entry("some-expendable/new", Untracked, File),
            entry("some-precious/file", Indexed, File),
            entry("some-precious/file.precious", Ignored(Precious), File),
            entry("some-precious/new", Untracked, File),
        ],
        "those that have tracked and ignored won't be collapsed, nor will be folders with \
         mixed precious and ignored files, those with all files of one type will be collapsed"
    );

    let (out, entries) = collect(
        &tree,
        &index,
        Options {
            emit_ignored: None,
            emit_untracked: CollapseDirectory,
            emit_tracked: false,
            ..options()
        },
    );
    assert_eq!(out, outcome(6, entries.len(), 16 + 2));
    assert_eq!(
        entries,
        vec![
            entry("some-expendable/new", Untracked, File),
            entry("some-precious/new", Untracked, File),
        ],
        "even with collapsing, once there is a tracked file in the directory, \
         we show the untracked file directly"
    );
}

#[test]
fn root_may_not_go_through_dot_git() {
    let tree = worktree(vec![
        dot_git(),
        dir("dir", vec![dir(".git", vec![dir("subdir", vec![])])]),
    ]);
    for root in ["/wt/dir/.git", "/wt/dir/.git/subdir"] {
        let (out, entries) = collect_at(&tree, &empty_index(), root, options_emit_all());
        assert_eq!(out, outcome(0, entries.len(), 1));
        assert_eq!(entries.len(), 1, "no traversal happened as root passes though .git");
        assert_eq!(&entries[0], &entry("dir/.git", DotGit, Directory));
    }
}

#[test]
fn root_enters_directory_with_dot_git_in_reconfigured_worktree_tracked() {
    // `dir-with-dot-git` holds our own `.git`, so it is no foreign repository.
    let tree = worktree(vec![dir(
        "dir-with-dot-git",
        vec![dir(".git", vec![]), file("inside")],
    )]);
    let index = index_of(vec![index_file("dir-with-dot-git/inside")]);
    let (out, entries) = collect_at(
        &tree,
        &index,
        "/wt/dir-with-dot-git/inside",
        Options {
            emit_tracked: true,
            ..options()
        },
    );
    assert_eq!(out, outcome(0, entries.len(), 1));
    assert_eq!(entries.len(), 1);
    assert_eq!(
        &entries[0],
        &entry("dir-with-dot-git/inside", Indexed, File),
        "everything is tracked, so it won't try to detect git repositories anyway"
    );

    let (out, entries) = collect_at(
        &tree,
        &index,
        "/wt/dir-with-dot-git/inside",
        Options {
            emit_tracked: false,
            ..options()
        },
    );
    assert_eq!(out, outcome(0, 0, 1));
    assert!(entries.is_empty());
}

#[test]
fn root_enters_directory_with_dot_git_in_reconfigured_worktree_untracked() {
    let tree = worktree(vec![dir(
        "dir-with-dot-git",
        vec![dir(".git", vec![]), file("inside")],
    )]);
    let (_out, entries) = collect_at(
        &tree,
        &empty_index(),
        "/wt/dir-with-dot-git/inside",
        options(),
    );
    assert_eq!(entries.len(), 1);
    assert_eq!(
        &entries[0],
        &entry("dir-with-dot-git/inside", Untracked, File),
        "it can enter a dir and treat it as normal even if own .git is inside, \
         which otherwise would be a repository"
    );
}

#[test]
fn root_may_not_go_through_nested_repository_unless_enabled() {
    let tree = worktree(vec![
        dot_git(),
        repo("nested", vec![dot_git(), file("file")]),
    ]);
    let (_out, entries) = collect_at(
        &tree,
        &empty_index(),
        "/wt/nested/file",
        Options {
            recurse_repositories: true,
            ..options()
        },
    );
    assert_eq!(entries.len(), 1);
    assert_eq!(
        &entries[0],
        &entry("nested/file", Untracked, File),
        "it happily enters the repository and lists the file"
    );

    let (out, entries) = collect_at(&tree, &empty_index(), "/wt/nested/file", options());
    assert_eq!(out, outcome(0, entries.len(), 1));
    assert_eq!(entries.len(), 1);
    assert_eq!(
        &entries[0],
        &entry("nested", Untracked, Repository),
        "thus it ends in the directory that is a repository"
    );
}

fn with_submodule_tree() -> Node {
    worktree(vec![
        dot_git(),
        file(".gitmodules"),
        dir("dir", vec![file("file")]),
        dir("submodule", vec![dot_git(), dir("dir", vec![file("file")])]),
    ])
}

fn with_submodule_index() -> Index {
    index_of(vec![
        index_file(".gitmodules"),
        index_file("dir/file"),
        submodule("submodule"),
    ])
}

#[test]
fn root_may_not_go_through_submodule() {
    let tree = with_submodule_tree();
    let index = with_submodule_index();
    let (out, entries) = collect_at(
        &tree,
        &index,
        "/wt/submodule/dir/file",
        options_emit_all(),
    );
    assert_eq!(out, outcome(0, entries.len(), 1));
    assert_eq!(entries.len(), 1, "it refuses to start traversal in a submodule");
    assert_eq!(
        &entries[0],
        &entry("submodule", Indexed, Repository),
        "thus it ends in the directory that is the submodule"
    );
}

#[test]
fn walk_with_submodule() {
    let tree = with_submodule_tree();
    let index = with_submodule_index();
    let (out, entries) = collect(&tree, &index, options_emit_all());
    assert_eq!(out, outcome(2, entries.len(), 4));
    assert_eq!(
        entries,
        vec![
            entry(".gitmodules", Indexed, File),
            entry("dir/file", Indexed, File),
            entry("submodule", Indexed, Repository),
        ],
        "thus it ends in the directory that is the submodule"
    );
}

#[test]
fn root_that_is_tracked_file_is_returned() {
    let tree = worktree(vec![dot_git(), dir("dir", vec![file("file")])]);
    let index = index_of(vec![index_file("dir/file")]);
    let (out, entries) = collect_at(&tree, &index, "/wt/dir/file", options_emit_all());
    assert_eq!(out, outcome(0, entries.len(), 1));
    assert_eq!(entries.len(), 1);
    assert_eq!(
        &entries[0],
        &entry("dir/file", Indexed, File),
        "a tracked file as root just returns that file (even though no iteration is possible)"
    );
}

#[test]
fn root_that_is_untracked_file_is_returned() {
    let tree = worktree(vec![dot_git(), dir("dir", vec![file("file")])]);
    let (out, entries) = collect_at(&tree, &empty_index(), "/wt/dir/file", options());
    assert_eq!(out, outcome(0, entries.len(), 1));
    assert_eq!(entries.len(), 1);
    assert_eq!(
        &entries[0],
        &entry("dir/file", Untracked, File),
        "an untracked file as root just returns that file (even though no iteration is possible)"
    );
}

#[test]
fn top_level_root_that_is_a_file() {
    let mut tree = worktree(vec![]);
    tree.kind = DiskKind::File;
    let root = b"/wt".to_vec();
    let mut dlg = Collect::default();
    let err = walk(&root, &root, &tree, &empty_index(), options(), &mut dlg).unwrap_err();
    assert!(matches!(
        err,
        gix_dir::walk::Error::WorktreeRootIsFile { .. }
    ));
}

#[test]
fn root_can_be_pruned_early_with_pathspec() {
    // the pathspec `no-match/` cannot match anything under `dir`
    let tree = worktree(vec![
        dot_git(),
        no_match(dir("dir", vec![file("file")])),
    ]);
    let (out, entries) = collect_at(&tree, &empty_index(), "/wt/dir", options_emit_all());
    assert_eq!(out, outcome(0, entries.len(), 1));
    assert_eq!(entries.len(), 1);
    assert_eq!(
        &entries[0],
        &entry("dir", Pruned, Directory),
        "the pathspec didn't match the root, early abort"
    );
}

#[test]
fn file_root_is_shown_if_pathspec_matches_exactly() {
    let tree = worktree(vec![dot_git(), dir("dir", vec![file("file")])]);
    let (out, entries) = collect_at(&tree, &empty_index(), "/wt/dir/file", options());
    assert_eq!(out, outcome(0, entries.len(), 1));
    assert_eq!(entries.len(), 1);
    assert_eq!(
        &entries[0],
        &entry("dir/file", Untracked, File),
        "the pathspec matched the root precisely"
    );
}

fn tracked_is_ignored_tree() -> Node {
    worktree(vec![
        dot_git(),
        file(".gitignore"),
        ignored(
            dir("dir", vec![ignored(file("file"), Expendable)]),
            Expendable,
        ),
    ])
}

fn tracked_is_ignored_index() -> Index {
    index_of(vec![index_file(".gitignore"), index_file("dir/file")])
}

#[test]
fn root_that_is_tracked_and_ignored_is_considered_tracked() {
    let tree = tracked_is_ignored_tree();
    let index = tracked_is_ignored_index();
    let (out, entries) = collect_at(&tree, &index, "/wt/dir/file", options_emit_all());
    assert_eq!(out, outcome(0, entries.len(), 1));
    assert_eq!(entries.len(), 1);
    assert_eq!(
        &entries[0],
        &entry("dir/file", Indexed, File),
        "tracking is checked first, so we can safe exclude checks for most entries"
    );
}

#[test]
fn root_with_dir_that_is_tracked_and_ignored() {
    let tree = tracked_is_ignored_tree();
    let index = tracked_is_ignored_index();
    for emission in [Matching, CollapseDirectory] {
        let (out, entries) = collect(
            &tree,
            &index,
            Options {
                emit_ignored: Some(emission),
                emit_tracked: true,
                emit_untracked: emission,
                ..options_emit_all()
            },
        );
        assert_eq!(out, outcome(2, entries.len(), 3));
        assert_eq!(entries.len(), 2);
        assert_eq!(
            entries,
            vec![
                entry(".gitignore", Indexed, File),
                entry("dir/file", Indexed, File),
            ],
            "'tracked' is the overriding property here, so we even enter ignored \
             directories if they have tracked contents"
        );
    }
}

#[test]
fn root_that_is_ignored_is_listed_for_files_and_directories() {
    let tree = worktree(vec![
        dot_git(),
        ignored(
            dir("dir", vec![ignored(file("file"), Expendable)]),
            Expendable,
        ),
    ]);
    for root in ["/wt/dir", "/wt/dir/file"] {
        for emission in [Matching, CollapseDirectory] {
            let (out, entries) = collect_at(
                &tree,
                &empty_index(),
                root,
                Options {
                    emit_ignored: Some(emission),
                    ..options()
                },
            );
            assert_eq!(out, outcome(0, entries.len(), 1));
            assert_eq!(entries.len(), 1);
            assert_eq!(
                &entries[0],
                &entry("dir", Ignored(Expendable), Directory),
                "excluded directories or files are listed without further recursion"
            );
        }
    }
}

#[test]
fn root_cannot_pass_through_case_altered_capital_dot_git_if_case_insensitive() {
    let tree = worktree(vec![
        dot_git(),
        dir(
            "dir",
            vec![dir(".GIT", vec![file("config"), dir("subdir", vec![])])],
        ),
    ]);
    for root in ["/wt/dir/.GIT", "/wt/dir/.GIT/subdir"] {
        let (out, entries) = collect_at(
            &tree,
            &empty_index(),
            root,
            Options {
                ignore_case: true,
                ..options_emit_all()
            },
        );
        assert_eq!(out, outcome(0, entries.len(), 1));
        assert_eq!(entries.len(), 1, "no traversal happened as root passes though .git");
        assert_eq!(
            &entries[0],
            &entry("dir/.GIT", DotGit, Directory),
            "it compares in a case-insensitive fashion"
        );
    }

    let (_out, entries) = collect_at(
        &tree,
        &empty_index(),
        "/wt/dir/.GIT/config",
        Options {
            ignore_case: false,
            ..options()
        },
    );
    assert_eq!(entries.len(), 1);
    assert_eq!(
        &entries[0],
        &entry("dir/.GIT/config", Untracked, File),
        "it passes right through what now seems like any other directory"
    );
}

#[test]
fn partial_checkout_cone_and_non_one() {
    let tree = worktree(vec![dot_git(), dir("d", vec![file("file-created-manually")])]);
    let cone_index = index_of(vec![sparse_dir("d/")]);
    let non_cone_index = index_of(vec![skipped("d/a"), skipped("d/b")]);
    let non_cone_single_index = index_of(vec![skipped("d/a")]);
    for index in [cone_index, non_cone_index, non_cone_single_index] {
        let (out, entries) = collect_at(
            &tree,
            &index,
            "/wt/d/file-created-manually",
            options_emit_all(),
        );
        assert_eq!(out, outcome(0, entries.len(), 1));
        assert_eq!(entries.len(), 1);
        assert_eq!(
            &entries[0],
            &entry("d", TrackedExcluded, Directory),
            "we avoid entering excluded sparse-checkout directories even if they are \
             present on disk, no matter with cone or without"
        );
    }
}

#[test]
fn root_may_not_lead_through_symlinks() {
    for (tree, root, expected) in [
        (
            worktree(vec![symlink("breakout")]),
            "/wt/breakout",
            0usize,
        ),
        (
            worktree(vec![dir("hide", vec![symlink("breakout")])]),
            "/wt/hide/breakout",
            1,
        ),
        (
            worktree(vec![dir("hide", vec![symlink("breakout")])]),
            "/wt/hide/../hide/breakout",
            1,
        ),
    ] {
        let root_path = root.as_bytes().to_vec();
        let worktree_root = b"/wt".to_vec();
        let mut dlg = Collect::default();
        let err = walk(
            &root_path,
            &worktree_root,
            &tree,
            &empty_index(),
            options(),
            &mut dlg,
        )
        .unwrap_err();
        assert!(
            matches!(
                err,
                gix_dir::walk::Error::SymlinkInRoot { component_index, .. }
                    if component_index == expected
            ),
            "{root} should have component {expected}"
        );
    }
}

#[test]
fn root_must_be_in_worktree() {
    let tree = worktree(vec![]);
    let root = b"traversal".to_vec();
    let worktree_root = b"unrelated-worktree".to_vec();
    let mut dlg = Collect::default();
    let err = walk(
        &root,
        &worktree_root,
        &tree,
        &empty_index(),
        options(),
        &mut dlg,
    )
    .unwrap_err();
    assert!(matches!(
        err,
        gix_dir::walk::Error::RootNotInWorktree { .. }
    ));
}

#[test]
fn worktree_root_can_be_symlink() {
    // the worktree root itself was resolved through a symlink; the view the
    // caller builds is the resolved directory
    let tree = worktree(vec![dot_git(), file("file")]);
    let (out, entries) = collect_at(&tree, &empty_index(), "/wt/file", options());
    assert_eq!(out, outcome(0, entries.len(), 1));
    assert_eq!(entries.len(), 1);
    assert_eq!(
        &entries[0],
        &entry("file", Untracked, File),
        "it allows symlinks for the worktree itself"
    );
}
