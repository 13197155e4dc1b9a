//! The in-memory view of the worktree that a walk runs over.
//!
//! Reading the disk, querying the ignore stack, and matching pathspecs are
//! outside work; the caller performs it up front and records the answers in
//! a [`Node`] tree. The walk itself is then a pure function of this tree.
use vstd::prelude::*;

use crate::entry::IgnoreKind;
use crate::entry::Kind;

verus! {

/// What a filesystem node is on disk, as `symlink_metadata` would report it.
#[derive(Debug, Clone, Copy, PartialEq, Eq, Structural)]
pub enum DiskKind {
    /// A regular file.
    File,
    /// A symbolic link.
    Symlink,
    /// A directory.
    Directory,
}

/// One filesystem node below the worktree root, together with the answers
/// the external oracles give for its path.
#[derive(Debug)]
pub struct Node {
    /// The file name of this node, without any separator.
    pub name: Vec<u8>,
    /// What the node is on disk.
    pub kind: DiskKind,
    /// Whether this directory contains a `.git` of a non-bare repository
    /// whose real path differs from our own git-dir's real path.
    pub foreign_repo: bool,
    /// What the ignore stack answers for this path: `None` when no rule
    /// matches or no ignore stack is configured.
    pub ignored: Option<IgnoreKind>,
    /// Whether any pathspec pattern could match this path or a descendant.
    pub pathspec_could_match: bool,
    /// Whether a non-excluded pathspec pattern matches exactly this path.
    pub pathspec_matches: bool,
    /// Whether a pattern the caller wrote out explicitly matches exactly
    /// this path; an empty pathspec matches everything but nothing
    /// explicitly. A directory never folds over an explicit match.
    pub pathspec_explicit_match: bool,
    /// The children of this node; empty unless it is a directory.
    pub children: Vec<Node>,
}

impl Node {
    /// The entry kind this node has on disk, before any classification.
    pub open spec fn spec_disk_kind(self) -> Kind {
        match self.kind {
            DiskKind::File => Kind::File,
            DiskKind::Symlink => Kind::Symlink,
            DiskKind::Directory => Kind::Directory,
        }
    }

    /// Return the entry kind this node has on disk.
    pub fn disk_kind(&self) -> (r: Kind)
        ensures
            r == self.spec_disk_kind(),
    {
        match self.kind {
            DiskKind::File => Kind::File,
            DiskKind::Symlink => Kind::Symlink,
            DiskKind::Directory => Kind::Directory,
        }
    }
}

/// The number of nodes in the tree rooted at `n`, the root included.
pub open spec fn node_count(n: Node) -> nat
    decreases n,
{
    1 + nodes_count(n.children@)
}

/// The number of nodes in all trees of `s` together.
pub open spec fn nodes_count(s: Seq<Node>) -> nat
    decreases s,
{
    if s.len() == 0 {
        0
    } else {
        nodes_count(s.drop_last()) + node_count(s.last())
    }
}

/// A prefix of a sibling sequence holds no more nodes than the whole.
pub proof fn lemma_nodes_count_take(s: Seq<Node>, i: int)
    requires
        0 <= i <= s.len(),
    ensures
        nodes_count(s.subrange(0, i)) <= nodes_count(s),
    decreases s.len() - i,
{
    if i < s.len() {
        lemma_nodes_count_take(s, i + 1);
        assert(s.subrange(0, i + 1).drop_last() =~= s.subrange(0, i));
        assert(s.subrange(0, i + 1).last() == s[i]);
    } else {
        assert(s.subrange(0, i) =~= s);
    }
}

/// Extending a prefix of siblings by one node adds that node's count.
pub proof fn lemma_nodes_count_take_step(s: Seq<Node>, i: int)
    requires
        0 <= i < s.len(),
    ensures
        nodes_count(s.subrange(0, i + 1)) == nodes_count(s.subrange(0, i)) + node_count(s[i]),
{
    assert(s.subrange(0, i + 1).drop_last() =~= s.subrange(0, i));
    assert(s.subrange(0, i + 1).last() == s[i]);
}

/// Each sibling's tree is contained in the count of the whole sequence.
pub proof fn lemma_nodes_count_index(s: Seq<Node>, i: int)
    requires
        0 <= i < s.len(),
    ensures
        node_count(s[i]) <= nodes_count(s),
        nodes_count(s[i].children@) < nodes_count(s),
    decreases s.len(),
{
    if i == s.len() - 1 {
        assert(s.last() == s[i]);
        lemma_nodes_count_take(s, i);
    } else {
        lemma_nodes_count_index(s.drop_last(), i);
        assert(s.drop_last()[i] == s[i]);
    }
}

/// The first child of `s` whose name equals `name`, byte for byte.
pub open spec fn spec_find_child(s: Seq<Node>, name: Seq<u8>) -> Option<Node>
    decreases s.len(),
{
    if s.len() == 0 {
        None
    } else if s[0].name@ == name {
        Some(s[0])
    } else {
        spec_find_child(s.drop_first(), name)
    }
}

/// A found child is one of the sequence's elements.
pub proof fn lemma_find_child_is_member(s: Seq<Node>, name: Seq<u8>)
    requires
        spec_find_child(s, name) is Some,
    ensures
        exists|i: int|
            0 <= i < s.len() && s[i] == spec_find_child(s, name)->Some_0,
    decreases s.len(),
{
    if s.len() > 0 && s[0].name@ != name {
        lemma_find_child_is_member(s.drop_first(), name);
        let j = choose|j: int|
            0 <= j < s.drop_first().len() && s.drop_first()[j] == spec_find_child(
                s.drop_first(),
                name,
            )->Some_0;
        assert(s[j + 1] == s.drop_first()[j]);
    }
}

/// A node found below `root` heads a tree no larger than `root`'s.
pub proof fn lemma_lookup_count(root: Node, components: Seq<Seq<u8>>)
    requires
        crate::walk::classify::spec_lookup(root, components) is Some,
    ensures
        node_count(crate::walk::classify::spec_lookup(root, components)->Some_0) <= node_count(
            root,
        ),
    decreases components.len(),
{
    if components.len() > 0 {
        lemma_lookup_count(root, components.drop_last());
        let parent = crate::walk::classify::spec_lookup(root, components.drop_last())->Some_0;
        lemma_find_child_is_member(parent.children@, components.last());
        let i = choose|i: int|
            0 <= i < parent.children@.len() && parent.children@[i] == spec_find_child(
                parent.children@,
                components.last(),
            )->Some_0;
        lemma_nodes_count_index(parent.children@, i);
    }
}

/// Look up the first child named `name` in a sibling list.
pub fn find_child<'a>(s: &'a Vec<Node>, name: &Vec<u8>) -> (r: Option<&'a Node>)
    ensures
        match r {
            Some(n) => spec_find_child(s@, name@) == Some(*n),
            None => spec_find_child(s@, name@) is None,
        },
{
    let n = s.len();
    proof {
        assert(s@.subrange(0, n as int) =~= s@);
    }
    let mut i: usize = 0;
    while i < n
        invariant
            n == s@.len(),
            i <= n,
            spec_find_child(s@, name@) == spec_find_child(s@.subrange(i as int, n as int), name@),
        decreases n - i,
    {
        proof {
            assert(s@.subrange(i as int, n as int)[0] == s@[i as int]);
            assert(s@.subrange(i as int, n as int).drop_first() =~= s@.subrange(
                i + 1,
                n as int,
            ));
        }
        if crate::bytes::bytes_ieq(&s[i].name, name, false) {
            proof {
                assert(crate::bytes::spec_ieq(s@[i as int].name@, name@, false) ==> s@[i as
                    int].name@ =~= name@);
            }
            return Some(&s[i]);
        }
        proof {
            assert(!(s@[i as int].name@ =~= name@));
        }
        i = i + 1;
    }
    proof {
        assert(s@.subrange(n as int, n as int).len() == 0);
    }
    None
}

} // verus!
