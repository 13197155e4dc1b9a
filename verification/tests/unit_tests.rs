//! Error cases of the root pipeline, delegate cancellation, and the small
//! helpers: entry predicates and the extension header decoder.
#![allow(dead_code)]

use gix_dir::Entry;
use gix_dir::entry::IgnoreKind;
use gix_dir::entry::Kind;
use gix_dir::entry::Status;
use gix_dir::extension::header;
use gix_dir::fstree::DiskKind;
use gix_dir::fstree::Node;
use gix_dir::index::Index;
use gix_dir::walk;
use gix_dir::walk::Action;
use gix_dir::walk::Delegate;
use gix_dir::walk::EmissionMode;
use gix_dir::walk::Error;
use gix_dir::walk::Options;

fn node(name: &str, kind: DiskKind) -> Node {
    Node {
        name: name.as_bytes().to_vec(),
        kind,
        foreign_repo: false,
        ignored: None,
        pathspec_could_match: true,
        pathspec_matches: true,
        pathspec_explicit_match: false,
        children: vec![],
    }
}

fn file(name: &str) -> Node {
    node(name, DiskKind::File)
}

fn dir(name: &str, children: Vec<Node>) -> Node {
    let mut n = node(name, DiskKind::Directory);
    n.children = children;
    n
}

fn worktree(children: Vec<Node>) -> Node {
    dir("", children)
}

fn empty_index() -> Index {
    Index { entries: vec![] }
}

#[derive(Default)]
struct Collect {
    entries: Vec<(Entry, Option<Status>)>,
}

impl Delegate for Collect {
    fn emit(&mut self, entry: &Entry, dir_status: Option<Status>) -> Action {
        self.entries.push((entry.clone(), dir_status));
        Action::Continue
    }

    fn can_recurse(&mut self, entry: &Entry) -> bool {
        entry.status.can_recurse(Some(entry.kind))
    }
}

/// A delegate that cancels after accepting a fixed number of entries.
struct CancelAfter {
    accepted: usize,
    limit: usize,
}

impl Delegate for CancelAfter {
    fn emit(&mut self, _entry: &Entry, _dir_status: Option<Status>) -> Action {
        if self.accepted < self.limit {
            self.accepted += 1;
            Action::Continue
        } else {
            Action::Cancel
        }
    }

    fn can_recurse(&mut self, entry: &Entry) -> bool {
        entry.status.can_recurse(Some(entry.kind))
    }
}

fn run<D: Delegate>(
    tree: &Node,
    root: &str,
    worktree_root: &str,
    dlg: &mut D,
) -> Result<gix_dir::walk::Outcome, Error> {
    walk(
        &root.as_bytes().to_vec(),
        &worktree_root.as_bytes().to_vec(),
        tree,
        &empty_index(),
        Options::default(),
        dlg,
    )
}

#[test]
fn unresolvable_dot_dot_in_root_fails_normalization() {
    let tree = worktree(vec![file("a")]);
    let mut dlg = Collect::default();
    let err = run(&tree, "/wt/../escape", "/wt", &mut dlg).unwrap_err();
    assert!(matches!(err, Error::NormalizeRoot { .. }));
}

#[test]
fn resolvable_dot_dot_in_root_is_folded_away() {
    let tree = worktree(vec![dir("d", vec![file("a")])]);
    let mut dlg = Collect::default();
    let out = run(&tree, "/wt/d/../d/a", "/wt", &mut dlg).unwrap();
    assert_eq!(out.returned_entries, 1);
    assert_eq!(dlg.entries[0].0.rela_path, b"d/a".to_vec());
}

#[test]
fn missing_root_component_fails_with_metadata_error() {
    let tree = worktree(vec![file("a")]);
    let mut dlg = Collect::default();
    let err = run(&tree, "/wt/not-there/deeper", "/wt", &mut dlg).unwrap_err();
    assert!(matches!(err, Error::SymlinkMetadata { .. }));
}

#[test]
fn cancellation_stops_the_walk_and_counts_only_accepted_entries() {
    let tree = worktree(vec![file("a"), file("b"), file("c")]);
    let mut dlg = CancelAfter {
        accepted: 0,
        limit: 1,
    };
    let out = run(&tree, "/wt", "/wt", &mut dlg).unwrap();
    assert_eq!(
        out.returned_entries, 1,
        "only emissions the delegate accepted with Continue are counted"
    );
    assert!(out.seen_entries >= out.returned_entries as u32);
}

#[test]
fn cancellation_on_the_first_entry_returns_nothing() {
    let tree = worktree(vec![file("a"), file("b")]);
    let mut dlg = CancelAfter {
        accepted: 0,
        limit: 0,
    };
    let out = run(&tree, "/wt", "/wt", &mut dlg).unwrap();
    assert_eq!(out.returned_entries, 0);
    assert_eq!(out.seen_entries, 1, "the cancelled emission was still seen");
}

#[test]
fn unicode_names_pass_through_unchanged() {
    // the directory reader is responsible for precomposition; the walk emits
    // whatever names the view holds
    let decomposed = "a\u{308}";
    let precomposed = "\u{e4}";
    for name in [decomposed, precomposed] {
        let tree = worktree(vec![dir(name, vec![file(name)])]);
        let mut dlg = Collect::default();
        let out = run(&tree, "/wt", "/wt", &mut dlg).unwrap();
        assert_eq!(out.returned_entries, 1);
        assert_eq!(
            dlg.entries[0].0.rela_path,
            format!("{name}/{name}").as_bytes().to_vec()
        );
    }
}

#[test]
fn traversal_root_below_the_worktree_can_fold_itself() {
    let tree = worktree(vec![dir("d", vec![file("a"), file("b")])]);
    let mut dlg = Collect::default();
    let out = walk(
        &b"/wt/d".to_vec(),
        &b"/wt".to_vec(),
        &tree,
        &empty_index(),
        Options {
            emit_untracked: EmissionMode::CollapseDirectory,
            ..Options::default()
        },
        &mut dlg,
    )
    .unwrap();
    assert_eq!(out.read_dir_calls, 1);
    assert_eq!(out.returned_entries, 1);
    assert_eq!(
        out.seen_entries, 3,
        "two held files were folded away, the folded directory itself was emitted"
    );
    assert_eq!(dlg.entries.len(), 1);
    assert_eq!(dlg.entries[0].0.rela_path, b"d".to_vec());
    assert_eq!(dlg.entries[0].0.status, Status::Untracked);
    assert_eq!(dlg.entries[0].0.kind, Kind::Directory);
}

#[test]
fn recorder_answers_like_git_status_and_collects_everything() {
    let tree = worktree(vec![file("a"), dir("d", vec![file("b")])]);
    let mut dlg = gix_dir::walk::Recorder::new();
    let out = walk(
        &b"/wt".to_vec(),
        &b"/wt".to_vec(),
        &tree,
        &empty_index(),
        Options::default(),
        &mut dlg,
    )
    .unwrap();
    assert_eq!(out.returned_entries, 2);
    assert_eq!(dlg.entries.len(), 2);
    assert_eq!(dlg.entries[0].0.rela_path, b"a".to_vec());
    assert_eq!(dlg.entries[1].0.rela_path, b"d/b".to_vec());
}

#[test]
fn fold_is_refused_over_an_explicit_pathspec_match() {
    // without explicit matches, d's two untracked files fold into d
    let tree = worktree(vec![dir("d", vec![file("a"), file("b")])]);
    let mut dlg = Collect::default();
    let collapse = Options {
        emit_untracked: EmissionMode::CollapseDirectory,
        ..Options::default()
    };
    let out = walk(
        &b"/wt".to_vec(),
        &b"/wt".to_vec(),
        &tree,
        &empty_index(),
        collapse,
        &mut dlg,
    )
    .unwrap();
    assert_eq!(out.returned_entries, 1);
    assert_eq!(dlg.entries[0].0.rela_path, b"d".to_vec());

    // an explicitly matched file below d keeps the fold from happening
    let mut explicit = worktree(vec![dir("d", vec![file("a"), file("b")])]);
    explicit.children[0].children[0].pathspec_explicit_match = true;
    let mut dlg = Collect::default();
    let out = walk(
        &b"/wt".to_vec(),
        &b"/wt".to_vec(),
        &explicit,
        &empty_index(),
        collapse,
        &mut dlg,
    )
    .unwrap();
    assert_eq!(
        out.returned_entries, 2,
        "the explicitly requested file must stay visible, so nothing folds"
    );
    dlg.entries.sort_by(|a, b| a.0.rela_path.cmp(&b.0.rela_path));
    assert_eq!(dlg.entries[0].0.rela_path, b"d/a".to_vec());
    assert_eq!(dlg.entries[1].0.rela_path, b"d/b".to_vec());
}

#[test]
fn status_predicates_follow_the_documented_rules() {
    assert!(Status::DotGit.is_pruned());
    assert!(Status::Pruned.is_pruned());
    assert!(Status::TrackedExcluded.is_pruned());
    assert!(!Status::Indexed.is_pruned());
    assert!(!Status::Untracked.is_pruned());
    assert!(!Status::Ignored(IgnoreKind::Precious).is_pruned());

    assert!(Status::Indexed.can_recurse(Some(Kind::Directory)));
    assert!(Status::Untracked.can_recurse(Some(Kind::Directory)));
    assert!(!Status::Untracked.can_recurse(Some(Kind::Repository)));
    assert!(!Status::Untracked.can_recurse(Some(Kind::File)));
    assert!(!Status::Untracked.can_recurse(None));
    assert!(!Status::DotGit.can_recurse(Some(Kind::Directory)));
    assert!(!Status::Ignored(IgnoreKind::Expendable).can_recurse(Some(Kind::Directory)));

    assert!(Kind::Directory.is_dir());
    assert!(Kind::Repository.is_dir());
    assert!(!Kind::File.is_dir());
    assert!(!Kind::Symlink.is_dir());
    assert!(!Kind::EmptyDirectory.is_dir());
}

#[test]
fn should_hold_requires_a_collapsing_mode_and_an_unpruned_status() {
    let collapse_untracked = Options {
        emit_untracked: EmissionMode::CollapseDirectory,
        ..Options::default()
    };
    assert!(collapse_untracked.should_hold(Status::Untracked));
    assert!(collapse_untracked.should_hold(Status::Indexed));
    assert!(collapse_untracked.should_hold(Status::Ignored(IgnoreKind::Precious)));
    assert!(!collapse_untracked.should_hold(Status::Pruned));
    assert!(!collapse_untracked.should_hold(Status::DotGit));
    assert!(!collapse_untracked.should_hold(Status::TrackedExcluded));
    assert!(!Options::default().should_hold(Status::Untracked));

    let collapse_ignored = Options {
        emit_ignored: Some(EmissionMode::CollapseDirectory),
        ..Options::default()
    };
    assert!(collapse_ignored.should_hold(Status::Untracked));
}

#[test]
fn header_splits_signature_size_and_rest() {
    let data: Vec<u8> = vec![
        b'T', b'R', b'E', b'E', 0x00, 0x00, 0x01, 0x02, 0xaa, 0xbb, 0xcc,
    ];
    let (signature, size, rest) = header(&data);
    assert_eq!(&signature, b"TREE");
    assert_eq!(size, 0x0102);
    assert_eq!(rest, &[0xaa, 0xbb, 0xcc]);
}

#[test]
fn header_reads_the_size_in_big_endian_order() {
    let data: Vec<u8> = vec![b'l', b'i', b'n', b'k', 0x01, 0x02, 0x03, 0x04];
    let (signature, size, rest) = header(&data);
    assert_eq!(&signature, b"link");
    assert_eq!(size, 0x01020304);
    assert!(rest.is_empty());
}
