//! The walk entry point: root normalization and validation, then the
//! recursive traversal, with every emission funneled through one function.
use vstd::prelude::*;

use crate::Entry;
use crate::entry::Kind;
use crate::entry::Status;
use crate::fstree::Node;
use crate::fstree::node_count;
use crate::fstree::spec_find_child;
use crate::index::Index;
use crate::walk::Action;
use crate::walk::Delegate;
use crate::walk::DelegateEvent;
use crate::walk::Error;
use crate::walk::Options;
use crate::walk::Outcome;
use crate::walk::spec_history_extends;
use crate::walk::spec_n_accepted;
use crate::walk::spec_n_emitted;
use crate::walk::classify;
use crate::walk::classify::spec_classify_root;
use crate::walk::classify::spec_join;
use crate::walk::classify::spec_lookup;
use crate::walk::readdir;
use crate::walk::readdir::State;
use crate::walk::readdir::spec_all_descends;
use crate::walk::readdir::spec_default_frame;
use crate::walk::readdir::spec_emissions_of_held_p;

verus! {

/// Whether an entry of this status and kind passes the emission filters.
pub open spec fn spec_should_emit(status: Status, kind: Option<Kind>, opts: Options) -> bool {
    &&& kind is Some
    &&& !(kind == Some(Kind::EmptyDirectory) && !opts.emit_empty_directories)
    &&& !(status == Status::Indexed && !opts.emit_tracked)
    &&& !(status matches Status::Ignored(_) && opts.emit_ignored is None)
    &&& !(status.spec_is_pruned() && !opts.emit_pruned)
}

/// The events recorded when the held entries `s` are emitted one after
/// another and each is accepted: entries that fail the emission filters are
/// counted but never handed over.
pub open spec fn spec_emissions_of_held(s: Seq<Entry>, opts: Options) -> Seq<DelegateEvent>
    decreases s,
{
    if s.len() == 0 {
        Seq::empty()
    } else {
        let rest = spec_emissions_of_held(s.drop_last(), opts);
        let e = s.last();
        if spec_should_emit(e.status, Some(e.kind), opts) {
            rest.push(
                (DelegateEvent::Emitted {
                    rela_path: e.rela_path@,
                    status: e.status,
                    kind: e.kind,
                    collapsed_directory_status: None,
                    accepted: true,
                }),
            )
        } else {
            rest
        }
    }
}

/// The events recorded when a directory folds to `fold` and every handed
/// entry is accepted: held children whose own status differs from `fold`
/// are handed over with the fold status as dir-status tag, the rest are
/// silently dropped.
pub open spec fn spec_emissions_of_fold(s: Seq<Entry>, fold: Status, opts: Options) -> Seq<
    DelegateEvent,
>
    decreases s,
{
    if s.len() == 0 {
        Seq::empty()
    } else {
        let rest = spec_emissions_of_fold(s.drop_last(), fold, opts);
        let e = s.last();
        if e.status != fold && spec_should_emit(e.status, Some(e.kind), opts) {
            rest.push(
                (DelegateEvent::Emitted {
                    rela_path: e.rela_path@,
                    status: e.status,
                    kind: e.kind,
                    collapsed_directory_status: Some(fold),
                    accepted: true,
                }),
            )
        } else {
            rest
        }
    }
}

/// Count the entry as seen, and hand it to the delegate if its kind is
/// known and the options ask for its status. `returned_entries` grows by
/// one exactly when the delegate was called and answered `Continue`, and
/// the delegate's history shows exactly this entry when the filters pass.
pub(crate) fn emit_entry<D: Delegate>(
    rela_path: &Vec<u8>,
    status: Status,
    dir_status: Option<Status>,
    kind: Option<Kind>,
    opts: Options,
    out: &mut Outcome,
    delegate: &mut D,
) -> (r: Action)
    requires
        old(out).seen_entries < u32::MAX,
        old(out).returned_entries < usize::MAX,
    ensures
        final(out).seen_entries == old(out).seen_entries + 1,
        final(out).read_dir_calls == old(out).read_dir_calls,
        spec_should_emit(status, kind, opts) ==> final(out).returned_entries == old(
            out,
        ).returned_entries + (if r is Continue {
            1int
        } else {
            0int
        }),
        !spec_should_emit(status, kind, opts) ==> final(out).returned_entries == old(
            out,
        ).returned_entries && r is Continue,
        spec_should_emit(status, kind, opts) ==> final(delegate).history() == old(
            delegate,
        ).history().push(
            (DelegateEvent::Emitted {
                rela_path: rela_path@,
                status: status,
                kind: kind->Some_0,
                collapsed_directory_status: dir_status,
                accepted: r is Continue,
            }),
        ),
        !spec_should_emit(status, kind, opts) ==> final(delegate).history() == old(
            delegate,
        ).history(),
        final(out).returned_entries - old(out).returned_entries == spec_n_accepted(
            final(delegate).history(),
        ) - spec_n_accepted(old(delegate).history()),
        final(out).seen_entries - old(out).seen_entries >= spec_n_emitted(
            final(delegate).history(),
        ) - spec_n_emitted(old(delegate).history()),
        spec_history_extends(final(delegate).history(), old(delegate).history()),
{
    out.seen_entries = out.seen_entries + 1;
    let kind = match kind {
        Some(kind) => kind,
        None => {
            proof {
                crate::walk::lemma_extends_refl(delegate.history());
            }
            return Action::Continue;
        },
    };
    if (matches!(kind, Kind::EmptyDirectory) && !opts.emit_empty_directories) || (matches!(
        status,
        Status::Indexed,
    ) && !opts.emit_tracked) || (matches!(status, Status::Ignored(_)) && matches!(
        opts.emit_ignored,
        None,
    )) || (status.is_pruned() && !opts.emit_pruned) {
        proof {
            crate::walk::lemma_extends_refl(delegate.history());
        }
        return Action::Continue;
    }
    let entry = Entry { rela_path: crate::bytes::clone_bytes(rela_path), status, kind };
    let action = delegate.emit(&entry, dir_status);
    proof {
        crate::walk::lemma_counts_push(
            old(delegate).history(),
            DelegateEvent::Emitted {
                rela_path: rela_path@,
                status: status,
                kind: kind,
                collapsed_directory_status: dir_status,
                accepted: action is Continue,
            },
        );
    }
    if matches!(action, Action::Continue) {
        out.returned_entries = out.returned_entries + 1;
    }
    action
}

/// Decide whether to recurse: an entry is recursable only if it is an
/// ordinary directory whose status is tracked or untracked, and the
/// delegate agrees. The delegate can only veto; it is not even asked about
/// an entry the status rules already refuse.
pub(crate) fn can_recurse<D: Delegate>(
    rela_path: &Vec<u8>,
    status: Status,
    kind: Option<Kind>,
    delegate: &mut D,
) -> (r: bool)
    ensures
        r ==> status.spec_can_recurse(kind),
        status.spec_can_recurse(kind) ==> final(delegate).history() == old(
            delegate,
        ).history().push(
            (DelegateEvent::Asked {
                rela_path: rela_path@,
                status: status,
                kind: kind->Some_0,
                descend: r,
            }),
        ),
        !status.spec_can_recurse(kind) ==> final(delegate).history() == old(
            delegate,
        ).history() && !r,
        spec_history_extends(final(delegate).history(), old(delegate).history()),
        spec_n_accepted(final(delegate).history()) == spec_n_accepted(old(delegate).history()),
        spec_n_emitted(final(delegate).history()) == spec_n_emitted(old(delegate).history()),
{
    if !status.can_recurse(kind) {
        proof {
            crate::walk::lemma_extends_refl(delegate.history());
        }
        return false;
    }
    let k = match kind {
        Some(k) => k,
        None => vstd::pervasive::unreached(),
    };
    let entry = Entry { rela_path: crate::bytes::clone_bytes(rela_path), status, kind: k };
    let descend = delegate.can_recurse(&entry);
    proof {
        crate::walk::lemma_counts_push(
            old(delegate).history(),
            DelegateEvent::Asked { rela_path: rela_path@, status: status, kind: k, descend },
        );
    }
    descend
}

/// The position of the first `/` in `p`, or `p.len()` if there is none.
pub open spec fn spec_first_slash(p: Seq<u8>) -> int
    decreases p.len(),
{
    if p.len() == 0 {
        0
    } else if p[0] == 47 {
        0
    } else {
        1 + spec_first_slash(p.drop_first())
    }
}

/// The first slash lies between zero and the length of the string.
pub proof fn lemma_first_slash_bounds(p: Seq<u8>)
    ensures
        0 <= spec_first_slash(p) <= p.len(),
        spec_first_slash(p) < p.len() ==> p[spec_first_slash(p)] == 47,
        forall|i: int| 0 <= i < spec_first_slash(p) ==> p[i] != 47,
    decreases p.len(),
{
    if p.len() > 0 && p[0] != 47 {
        lemma_first_slash_bounds(p.drop_first());
        let f = spec_first_slash(p.drop_first());
        if 1 + f < p.len() {
            assert(p[1 + f] == p.drop_first()[f]);
        }
        assert forall|i: int| 0 <= i < spec_first_slash(p) implies p[i] != 47 by {
            if i > 0 {
                assert(p[i] == p.drop_first()[i - 1]);
            }
        }
    }
}

/// A position with no slash before it and a slash (or the end) at it is the
/// first slash.
pub proof fn lemma_first_slash_at(p: Seq<u8>, k: int)
    requires
        0 <= k <= p.len(),
        forall|i: int| 0 <= i < k ==> p[i] != 47,
        k == p.len() || p[k] == 47,
    ensures
        spec_first_slash(p) == k,
    decreases p.len(),
{
    if p.len() > 0 && p[0] != 47 {
        assert(forall|i: int| 0 <= i < k - 1 ==> p.drop_first()[i] != 47);
        lemma_first_slash_at(p.drop_first(), k - 1);
    }
}

/// The path split at `/` separators, empty components dropped.
pub open spec fn spec_split(p: Seq<u8>) -> Seq<Seq<u8>>
    decreases p.len(),
    via spec_split_decreases
{
    if p.len() == 0 {
        seq![]
    } else {
        let i = spec_first_slash(p);
        let head = p.subrange(0, i);
        let rest = if i == p.len() {
            Seq::<u8>::empty()
        } else {
            p.subrange(i + 1, p.len() as int)
        };
        if head.len() == 0 {
            spec_split(rest)
        } else {
            seq![head] + spec_split(rest)
        }
    }
}

#[via_fn]
proof fn spec_split_decreases(p: Seq<u8>) {
    lemma_first_slash_bounds(p);
}

/// Split a path into its non-empty components.
pub fn split_components(p: &Vec<u8>) -> (r: Vec<Vec<u8>>)
    ensures
        r@.map_values(|c: Vec<u8>| c@) == spec_split(p@),
{
    let n = p.len();
    let mut r: Vec<Vec<u8>> = Vec::new();
    let mut i: usize = 0;
    proof {
        assert(p@.subrange(0, n as int) =~= p@);
        assert(r@.map_values(|c: Vec<u8>| c@) + spec_split(p@) =~= spec_split(p@));
    }
    while i < n
        invariant
            n == p@.len(),
            i <= n,
            spec_split(p@) == r@.map_values(|c: Vec<u8>| c@) + spec_split(
                p@.subrange(i as int, n as int),
            ),
        decreases n - i,
    {
        if p[i] == 47 {
            proof {
                let rem = p@.subrange(i as int, n as int);
                assert(rem[0] == 47);
                assert(spec_first_slash(rem) == 0);
                assert(rem.subrange(0, 0).len() == 0);
                assert(rem.subrange(1, rem.len() as int) =~= p@.subrange(i + 1, n as int));
            }
            i = i + 1;
        } else {
            let start = i;
            let mut j = i;
            while j < n
                invariant
                    start <= j <= n,
                    n == p@.len(),
                    forall|t: int| start <= t < j ==> p@[t] != 47,
                ensures
                    start <= j <= n,
                    n == p@.len(),
                    forall|t: int| start <= t < j ==> p@[t] != 47,
                    j == n || p@[j as int] == 47,
                decreases n - j,
            {
                if p[j] == 47 {
                    break ;
                }
                j = j + 1;
            }
            proof {
                assert(p@[start as int] != 47);
                assert(j > start);
            }
            let component = crate::bytes::copy_range(p, start, j);
            proof {
                let rem = p@.subrange(start as int, n as int);
                assert(forall|t: int| 0 <= t < j - start ==> rem[t] != 47);
                if j < n {
                    assert(rem[j - start] == p@[j as int]);
                }
                lemma_first_slash_at(rem, j - start);
                assert(rem.subrange(0, j - start) =~= p@.subrange(start as int, j as int));
                assert(component@.len() > 0);
                if j < n {
                    assert(rem.subrange(j - start + 1, rem.len() as int) =~= p@.subrange(
                        j + 1,
                        n as int,
                    ));
                    assert(spec_split(rem) == seq![component@] + spec_split(
                        p@.subrange(j + 1, n as int),
                    ));
                } else {
                    assert(spec_split(rem) == seq![component@] + spec_split(Seq::<u8>::empty()));
                    assert(spec_split(Seq::<u8>::empty()) =~= Seq::<Seq<u8>>::empty());
                    assert(p@.subrange(n as int, n as int) =~= Seq::<u8>::empty());
                }
            }
            let ghost r_old = r@;
            r.push(component);
            proof {
                assert(r@.map_values(|c: Vec<u8>| c@) =~= r_old.map_values(|c: Vec<u8>| c@)
                    + seq![component@]);
                assert(r@.map_values(|c: Vec<u8>| c@) + spec_split(
                    p@.subrange(if j < n { j + 1 } else { n as int }, n as int),
                ) =~= spec_split(p@));
            }
            if j < n {
                i = j + 1;
            } else {
                i = n;
            }
        }
    }
    proof {
        assert(p@.subrange(n as int, n as int).len() == 0);
        assert(spec_split(p@.subrange(n as int, n as int)) =~= Seq::<Seq<u8>>::empty());
        assert(r@.map_values(|c: Vec<u8>| c@) =~= spec_split(p@));
    }
    r
}

/// The component `.`.
pub open spec fn spec_dot() -> Seq<u8> {
    seq![46u8]
}

/// The component `..`.
pub open spec fn spec_dot_dot() -> Seq<u8> {
    seq![46u8, 46u8]
}

/// The components with `.` dropped and `..` folded away; `None` when a `..`
/// would climb above the start.
pub open spec fn spec_normalize(comps: Seq<Seq<u8>>) -> Option<Seq<Seq<u8>>>
    decreases comps.len(),
{
    if comps.len() == 0 {
        Some(seq![])
    } else {
        match spec_normalize(comps.drop_last()) {
            None => None,
            Some(acc) => {
                let c = comps.last();
                if c == spec_dot() {
                    Some(acc)
                } else if c == spec_dot_dot() {
                    if acc.len() == 0 {
                        None
                    } else {
                        Some(acc.drop_last())
                    }
                } else {
                    Some(acc.push(c))
                }
            },
        }
    }
}

/// Once normalization fails on a prefix, it fails on the whole.
proof fn lemma_normalize_none_extends(views: Seq<Seq<u8>>, k: int)
    requires
        0 <= k <= views.len(),
        spec_normalize(views.take(k)) is None,
    ensures
        spec_normalize(views) is None,
    decreases views.len() - k,
{
    if k < views.len() {
        assert(views.take(k + 1).drop_last() =~= views.take(k));
        lemma_normalize_none_extends(views, k + 1);
    } else {
        assert(views.take(k) =~= views);
    }
}

/// Eliminate `.` and `..` components; `None` when `..` cannot be resolved.
pub fn normalize_components(comps: &Vec<Vec<u8>>) -> (r: Option<Vec<Vec<u8>>>)
    ensures
        match r {
            Some(acc) => spec_normalize(comps@.map_values(|c: Vec<u8>| c@)) == Some(
                acc@.map_values(|c: Vec<u8>| c@),
            ),
            None => spec_normalize(comps@.map_values(|c: Vec<u8>| c@)) is None,
        },
{
    let ghost views = comps@.map_values(|c: Vec<u8>| c@);
    let mut dot: Vec<u8> = Vec::new();
    dot.push(46);
    let mut dot_dot: Vec<u8> = Vec::new();
    dot_dot.push(46);
    dot_dot.push(46);
    proof {
        assert(dot@ =~= spec_dot());
        assert(dot_dot@ =~= spec_dot_dot());
    }
    let n = comps.len();
    let mut acc: Vec<Vec<u8>> = Vec::new();
    let mut k: usize = 0;
    proof {
        assert(views.take(0) =~= Seq::<Seq<u8>>::empty());
    }
    while k < n
        invariant
            n == comps@.len(),
            k <= n,
            views == comps@.map_values(|c: Vec<u8>| c@),
            spec_normalize(views.take(k as int)) == Some(acc@.map_values(|c: Vec<u8>| c@)),
            dot@ == spec_dot(),
            dot_dot@ == spec_dot_dot(),
        decreases n - k,
    {
        proof {
            assert(views.take(k + 1).drop_last() =~= views.take(k as int));
            assert(views.take(k + 1).last() == views[k as int]);
        }
        let ghost acc_old = acc@;
        if crate::bytes::bytes_ieq(&comps[k], &dot, false) {
            proof {
                assert(views[k as int] =~= spec_dot());
            }
        } else if crate::bytes::bytes_ieq(&comps[k], &dot_dot, false) {
            proof {
                assert(views[k as int] =~= spec_dot_dot());
            }
            if acc.len() == 0 {
                proof {
                    assert(spec_normalize(views.take(k + 1)) is None);
                    lemma_normalize_none_extends(views, k + 1);
                }
                return None;
            }
            let _ = acc.pop();
            proof {
                assert(acc@.map_values(|c: Vec<u8>| c@) =~= acc_old.map_values(
                    |c: Vec<u8>| c@,
                ).drop_last());
            }
        } else {
            proof {
                if views[k as int] == spec_dot() {
                    assert(crate::bytes::spec_ieq(views[k as int], spec_dot(), false));
                }
                if views[k as int] == spec_dot_dot() {
                    assert(crate::bytes::spec_ieq(views[k as int], spec_dot_dot(), false));
                }
            }
            acc.push(crate::bytes::clone_bytes(&comps[k]));
            proof {
                assert(acc@.map_values(|c: Vec<u8>| c@) =~= acc_old.map_values(
                    |c: Vec<u8>| c@,
                ).push(views[k as int]));
            }
        }
        k = k + 1;
    }
    proof {
        assert(views.take(n as int) =~= views);
    }
    Some(acc)
}

/// Whether `prefix` is a component-wise prefix of `comps`.
pub open spec fn spec_comps_prefix(prefix: Seq<Seq<u8>>, comps: Seq<Seq<u8>>) -> bool {
    &&& prefix.len() <= comps.len()
    &&& forall|i: int| 0 <= i < prefix.len() ==> prefix[i] == comps[i]
}

/// Check that every component of `prefix` literally equals the
/// corresponding component of `comps`.
pub fn comps_start_with(comps: &Vec<Vec<u8>>, prefix: &Vec<Vec<u8>>) -> (r: bool)
    ensures
        r == spec_comps_prefix(
            prefix@.map_values(|c: Vec<u8>| c@),
            comps@.map_values(|c: Vec<u8>| c@),
        ),
{
    let ghost pv = prefix@.map_values(|c: Vec<u8>| c@);
    let ghost cv = comps@.map_values(|c: Vec<u8>| c@);
    let m = prefix.len();
    if m > comps.len() {
        return false;
    }
    let mut i: usize = 0;
    while i < m
        invariant
            pv == prefix@.map_values(|c: Vec<u8>| c@),
            cv == comps@.map_values(|c: Vec<u8>| c@),
            m == prefix@.len(),
            m <= comps@.len(),
            i <= m,
            forall|j: int| 0 <= j < i ==> pv[j] == cv[j],
        decreases m - i,
    {
        if !crate::bytes::bytes_ieq(&prefix[i], &comps[i], false) {
            proof {
                assert(!(prefix@[i as int]@ =~= comps@[i as int]@));
                assert(pv[i as int] == prefix@[i as int]@);
                assert(cv[i as int] == comps@[i as int]@);
                assert(!spec_comps_prefix(pv, cv));
            }
            return false;
        }
        proof {
            assert(prefix@[i as int]@ =~= comps@[i as int]@);
            assert(pv[i as int] == cv[i as int]);
        }
        i = i + 1;
    }
    true
}

/// What walking the traversal-root components finds first: a missing
/// component (`Some((false, k))`), a symlink (`Some((true, k))`), or
/// nothing objectionable (`None`).
pub open spec fn spec_validate_from(node: Node, comps: Seq<Seq<u8>>, k: int) -> Option<(bool, int)>
    decreases comps.len() - k,
{
    if !(0 <= k < comps.len()) {
        None
    } else {
        match spec_find_child(node.children@, comps[k]) {
            None => Some((false, k)),
            Some(c) => {
                if c.kind is Symlink {
                    Some((true, k))
                } else {
                    spec_validate_from(c, comps, k + 1)
                }
            },
        }
    }
}

/// A validated traversal root exists in the tree at every depth.
pub proof fn lemma_validate_gives_lookup(root: Node, node: Node, comps: Seq<Seq<u8>>, k: int)
    requires
        0 <= k <= comps.len(),
        spec_lookup(root, comps.take(k)) == Some(node),
        spec_validate_from(node, comps, k) is None,
    ensures
        forall|j: int| k <= j <= comps.len() ==> spec_lookup(root, #[trigger] comps.take(j))
            is Some,
    decreases comps.len() - k,
{
    if k < comps.len() {
        let c = spec_find_child(node.children@, comps[k]);
        assert(c is Some);
        assert(comps.take(k + 1).drop_last() =~= comps.take(k));
        assert(comps.take(k + 1).last() == comps[k]);
        assert(spec_lookup(root, comps.take(k + 1)) == c);
        lemma_validate_gives_lookup(root, c->Some_0, comps, k + 1);
        assert forall|j: int| k <= j <= comps.len() implies spec_lookup(
            root,
            #[trigger] comps.take(j),
        ) is Some by {
            if j == k {
                assert(spec_lookup(root, comps.take(k)) == Some(node));
            }
        }
    } else {
        assert(comps.take(k) =~= comps.take(comps.len() as int));
    }
}

/// A traversal root that exists at every depth can be classified.
pub proof fn lemma_root_loop_some(
    root: Node,
    comps: Seq<Seq<u8>>,
    k: int,
    opts: Options,
    index: Index,
)
    requires
        0 <= k < comps.len(),
        forall|j: int| 0 <= j <= comps.len() ==> spec_lookup(root, #[trigger] comps.take(j))
            is Some,
    ensures
        classify::spec_root_loop(root, comps, k, opts, index) is Some,
    decreases comps.len() - k,
{
    assert(spec_lookup(root, comps.take(k + 1)) is Some);
    if k + 1 < comps.len() {
        lemma_root_loop_some(root, comps, k + 1, opts, index);
    }
}

/// Every prefix of the first `depth` components exists below `root`.
pub open spec fn spec_prefixes_exist(root: Node, views: Seq<Seq<u8>>, depth: int) -> bool {
    forall|j: int| 0 <= j <= depth ==> spec_lookup(root, #[trigger] views.take(j)) is Some
}

/// Walk the child chain of `comps` below `root` down to `depth`.
pub(crate) fn walk_to<'a>(root: &'a Node, comps: &Vec<Vec<u8>>, depth: usize) -> (r: &'a Node)
    requires
        depth <= comps@.len(),
        spec_prefixes_exist(*root, comps@.map_values(|c: Vec<u8>| c@), depth as int),
    ensures
        spec_lookup(*root, comps@.map_values(|c: Vec<u8>| c@).take(depth as int)) == Some(*r),
{
    let ghost views = comps@.map_values(|c: Vec<u8>| c@);
    let mut node = root;
    let mut k: usize = 0;
    proof {
        assert(views.take(0) =~= Seq::<Seq<u8>>::empty());
    }
    while k < depth
        invariant
            depth <= comps@.len(),
            views == comps@.map_values(|c: Vec<u8>| c@),
            k <= depth,
            spec_lookup(*root, views.take(k as int)) == Some(*node),
            spec_prefixes_exist(*root, views, depth as int),
        decreases depth - k,
    {
        proof {
            assert(views.take(k + 1).drop_last() =~= views.take(k as int));
            assert(views.take(k + 1).last() == views[k as int]);
            assert(spec_lookup(*root, views.take(k + 1)) is Some);
        }
        let child = match crate::fstree::find_child(&node.children, &comps[k]) {
            Some(c) => c,
            None => vstd::pervasive::unreached(),
        };
        node = child;
        k = k + 1;
    }
    node
}

/// Check the traversal-root components for existence and symlinks.
pub(crate) fn validate_root<'a>(root: &'a Node, comps: &Vec<Vec<u8>>) -> (r: Option<(bool, usize)>)
    ensures
        match r {
            Some(v) => spec_validate_from(*root, comps@.map_values(|c: Vec<u8>| c@), 0) == Some(
                (v.0, v.1 as int),
            ) && v.1 < comps@.len(),
            None => spec_validate_from(*root, comps@.map_values(|c: Vec<u8>| c@), 0) is None,
        },
{
    let ghost views = comps@.map_values(|c: Vec<u8>| c@);
    let n = comps.len();
    let mut node = root;
    let mut k: usize = 0;
    while k < n
        invariant
            n == comps@.len(),
            views == comps@.map_values(|c: Vec<u8>| c@),
            k <= n,
            spec_validate_from(*root, views, 0) == spec_validate_from(*node, views, k as int),
        decreases n - k,
    {
        let child = match crate::fstree::find_child(&node.children, &comps[k]) {
            Some(c) => c,
            None => {
                return Some((false, k));
            },
        };
        if matches!(child.kind, crate::fstree::DiskKind::Symlink) {
            return Some((true, k));
        }
        node = child;
        k = k + 1;
    }
    None
}

/// Exactly when each error of the root pipeline is returned, and that
/// success is owed otherwise: the traversal root must be contained in the
/// worktree root, its relative part must normalize, the worktree root must
/// be a directory, and every component must exist and must not be a
/// symlink.
pub open spec fn spec_walk_errors(
    root: Seq<u8>,
    worktree_root: Seq<u8>,
    worktree: Node,
    index: Index,
    opts: Options,
    res: Result<Outcome, Error>,
) -> bool {
    let rc = spec_split(root);
    let wc = spec_split(worktree_root);
    &&& (res is Err ==> ((res matches Err(Error::RootNotInWorktree { .. })) || (res matches Err(
        Error::NormalizeRoot { .. },
    )) || (res matches Err(Error::SymlinkInRoot { .. })) || (res matches Err(
        Error::SymlinkMetadata { .. },
    )) || (res matches Err(Error::WorktreeRootIsFile { .. }))))
    &&& ((res matches Err(Error::RootNotInWorktree { .. })) <==> !spec_comps_prefix(wc, rc))
    &&& ((res matches Err(Error::NormalizeRoot { .. })) <==> (spec_comps_prefix(wc, rc)
        && spec_normalize(rc.skip(wc.len() as int)) is None))
    &&& ((spec_comps_prefix(wc, rc) && spec_normalize(rc.skip(wc.len() as int)) is Some) ==> {
        let rel = spec_normalize(rc.skip(wc.len() as int))->Some_0;
        let v = spec_validate_from(worktree, rel, 0);
        &&& ((res matches Err(Error::WorktreeRootIsFile { .. })) <==> !(worktree.kind
            is Directory))
        &&& (worktree.kind is Directory ==> {
            &&& ((res matches Err(Error::SymlinkInRoot { .. })) <==> (v matches Some(p) && p.0))
            &&& (res matches Err(Error::SymlinkInRoot { component_index, .. })
                ==> component_index as int == v->Some_0.1)
            &&& ((res matches Err(Error::SymlinkMetadata { .. })) <==> (v matches Some(p)
                && !p.0))
            &&& (v is None ==> res is Ok)
        })
    })
}

/// The root pipeline up to classification succeeded: the traversal root is
/// contained, its relative part normalizes, the worktree root is a
/// directory, and every component exists without being a symlink.
pub open spec fn spec_pipeline_ok(root: Seq<u8>, worktree_root: Seq<u8>, worktree: Node) -> bool {
    let rc = spec_split(root);
    let wc = spec_split(worktree_root);
    &&& spec_comps_prefix(wc, rc)
    &&& spec_normalize(rc.skip(wc.len() as int)) is Some
    &&& worktree.kind is Directory
    &&& spec_validate_from(worktree, spec_normalize(rc.skip(wc.len() as int))->Some_0, 0)
        is None
}

/// Whether the root pipeline succeeds and the traversal root's status
/// forbids recursion. Such a root is terminal, whatever the delegate does:
/// the status rules already refuse to descend, so the delegate is never
/// asked, no directory is listed, and at most the root itself is emitted.
pub open spec fn spec_root_is_terminal(
    root: Seq<u8>,
    worktree_root: Seq<u8>,
    worktree: Node,
    index: Index,
    opts: Options,
) -> bool {
    let rc = spec_split(root);
    let wc = spec_split(worktree_root);
    &&& spec_pipeline_ok(root, worktree_root, worktree)
    &&& {
        let rel = spec_normalize(rc.skip(wc.len() as int))->Some_0;
        let rr = spec_classify_root(worktree, rel, opts, index)->Some_0;
        !rr.0.spec_can_recurse(rr.1)
    }
}

/// The exact events and counts of a root that is not traversed: zero
/// directory reads, one seen entry, and exactly the root emission when the
/// emission filters pass, preceded by the recorded refusal where the
/// delegate was asked. The emission's accepted flag equals whether the
/// outcome counted a returned entry.
pub open spec fn spec_terminal_root_events(
    rr: (Status, Option<Kind>, int),
    rpath: Seq<u8>,
    opts: Options,
    out: Outcome,
    h0: Seq<DelegateEvent>,
    h1: Seq<DelegateEvent>,
    asked: bool,
) -> bool {
    let base = if asked {
        h0.push(h1[h0.len() as int])
    } else {
        h0
    };
    &&& out.read_dir_calls == 0
    &&& out.seen_entries == 1
    &&& out.returned_entries <= 1
    &&& (spec_should_emit(rr.0, rr.1, opts) ==> h1 == base.push(
        (DelegateEvent::Emitted {
            rela_path: rpath,
            status: rr.0,
            kind: rr.1->Some_0,
            collapsed_directory_status: None,
            accepted: out.returned_entries == 1,
        }),
    ))
    &&& (!spec_should_emit(rr.0, rr.1, opts) ==> h1 == base && out.returned_entries == 0)
}

/// What the delegate sees of the traversal root when the root pipeline
/// succeeds: a root whose status forbids recursion is terminal without the
/// delegate being asked; a recursable root is asked about first, and a
/// recorded refusal pins the same single emission and zero directory
/// reads, whatever the delegate is.
pub open spec fn spec_walk_root_events(
    root: Seq<u8>,
    worktree_root: Seq<u8>,
    worktree: Node,
    index: Index,
    opts: Options,
    res: Result<Outcome, Error>,
    h0: Seq<DelegateEvent>,
    h1: Seq<DelegateEvent>,
) -> bool {
    let rc = spec_split(root);
    let wc = spec_split(worktree_root);
    (spec_pipeline_ok(root, worktree_root, worktree) && res is Ok) ==> {
        let rel = spec_normalize(rc.skip(wc.len() as int))->Some_0;
        let rr = spec_classify_root(worktree, rel, opts, index)->Some_0;
        let rpath = spec_join(rel.take(rr.2));
        let out = res->Ok_0;
        if rr.0.spec_can_recurse(rr.1) {
            &&& h1.len() > h0.len()
            &&& (h1[h0.len() as int] matches DelegateEvent::Asked {
                rela_path,
                status,
                kind,
                descend,
            } && rela_path == rpath && status == rr.0 && kind == rr.1->Some_0 && (descend
                ==> out.read_dir_calls >= 1) && (!descend ==> spec_terminal_root_events(
                rr,
                rpath,
                opts,
                out,
                h0,
                h1,
                true,
            )))
        } else {
            spec_terminal_root_events(rr, rpath, opts, out, h0, h1, false)
        }
    }
}

/// Assembling the walk-level trace: the recorded root question, the
/// subtree traversal, and the final drain of the root frame's held entries
/// amount to the planned traversal, provided the history shows full
/// agreement and acceptance.
#[verifier::rlimit(100)]
proof fn lemma_walk_descend_assembly(
    target: Node,
    buf_root: Seq<u8>,
    status: Status,
    dir_kind: Kind,
    opts: Options,
    index: Index,
    h0: Seq<DelegateEvent>,
    h_ask: Seq<DelegateEvent>,
    h_rec: Seq<DelegateEvent>,
    h1: Seq<DelegateEvent>,
    entries_drain: Seq<crate::Entry>,
    flags_drain: Seq<bool>,
    action: Action,
    drain_action: Action,
    seen_rec: int,
    seen_final: int,
    rdc_final: int,
)
    requires
        entries_drain.len() == flags_drain.len(),
        h_ask == h0.push(
            (DelegateEvent::Asked {
                rela_path: buf_root,
                status: status,
                kind: dir_kind,
                descend: true,
            }),
        ),
        spec_history_extends(h_rec, h_ask),
        spec_history_extends(h1, h_rec),
        ({
            let t = spec_default_frame(
                target.children@,
                buf_root,
                status,
                dir_kind,
                buf_root.len() == 0,
                target.pathspec_explicit_match,
                opts,
                index,
            );
            &&& ((action is Continue && spec_all_descends(h_rec.skip(h_ask.len() as int)))
                ==> (h_rec == h_ask + t.events && crate::walk::readdir::spec_planned_of(
                entries_drain,
                flags_drain,
            ) == t.pushes && seen_rec == t.seen && rdc_final == t.read_dirs))
            &&& (action is Cancel ==> (h1 == h_rec && spec_n_accepted(h_rec) - spec_n_accepted(
                h_ask,
            ) < spec_n_emitted(h_rec) - spec_n_emitted(h_ask)))
            &&& (action is Continue ==> {
                &&& (drain_action is Continue ==> h1 == h_rec + spec_emissions_of_held(
                    entries_drain,
                    opts,
                ) && seen_final == seen_rec + entries_drain.len())
                &&& (drain_action is Cancel ==> spec_n_accepted(h1) - spec_n_accepted(h_rec)
                    < spec_n_emitted(h1) - spec_n_emitted(h_rec))
                &&& (drain_action is Continue ==> spec_n_accepted(h1) - spec_n_accepted(h_rec)
                    == spec_n_emitted(h1) - spec_n_emitted(h_rec))
                &&& (action is Continue ==> spec_n_accepted(h_rec) - spec_n_accepted(h_ask)
                    == spec_n_emitted(h_rec) - spec_n_emitted(h_ask))
            })
        }),
    ensures
        (spec_all_descends(h1.skip(h0.len() as int)) && spec_n_accepted(
            h1.skip(h0.len() as int),
        ) == spec_n_emitted(h1.skip(h0.len() as int))) ==> {
            let t = spec_default_frame(
                target.children@,
                buf_root,
                status,
                dir_kind,
                buf_root.len() == 0,
                target.pathspec_explicit_match,
                opts,
                index,
            );
            &&& h1 == h0 + (seq![
                (DelegateEvent::Asked {
                    rela_path: buf_root,
                    status: status,
                    kind: dir_kind,
                    descend: true,
                }),
            ] + (t.events + spec_emissions_of_held_p(t.pushes, opts)))
            &&& seen_final == t.seen + t.pushes.len()
            &&& rdc_final == t.read_dirs
        },
{
    let ask = DelegateEvent::Asked {
        rela_path: buf_root,
        status: status,
        kind: dir_kind,
        descend: true,
    };
    crate::walk::lemma_counts_push(h0, ask);
    crate::walk::lemma_extends_trans(h_rec, h_ask, h0);
    crate::walk::lemma_extends_trans(h1, h_rec, h0);
    let delta = h1.skip(h0.len() as int);
    if spec_all_descends(delta) && spec_n_accepted(delta) == spec_n_emitted(delta) {
        assert(h1 =~= h0 + delta);
        crate::walk::lemma_counts_split(h0, delta);
        let rec_delta = h_rec.skip(h_ask.len() as int);
        let drain_delta = h1.skip(h_rec.len() as int);
        assert(delta =~= (seq![ask] + rec_delta) + drain_delta);
        crate::walk::readdir::lemma_all_descends_split(seq![ask] + rec_delta, drain_delta);
        crate::walk::readdir::lemma_all_descends_split(seq![ask], rec_delta);
        assert(h_rec =~= h_ask + rec_delta);
        crate::walk::lemma_counts_split(h_ask, rec_delta);
        assert(h_ask =~= h0 + seq![ask]);
        crate::walk::lemma_counts_split(h0, seq![ask]);
        assert(h1 =~= h_rec + drain_delta);
        crate::walk::lemma_counts_split(h_rec, drain_delta);
        assert(action is Continue);
        assert(drain_action is Continue);
        let t = spec_default_frame(
            target.children@,
            buf_root,
            status,
            dir_kind,
            buf_root.len() == 0,
            target.pathspec_explicit_match,
            opts,
            index,
        );
        crate::walk::readdir::lemma_planned_bridge(
            entries_drain,
            flags_drain,
            Status::Untracked,
            opts,
        );
        assert(h1 == h0 + (seq![ask] + (t.events + spec_emissions_of_held_p(t.pushes, opts))))
            by {
            assert(h_rec == h_ask + t.events);
            assert(h1 == h_rec + spec_emissions_of_held_p(t.pushes, opts));
            assert(h_ask + (t.events + spec_emissions_of_held_p(t.pushes, opts)) =~= (h_ask
                + t.events) + spec_emissions_of_held_p(t.pushes, opts));
            assert(h0 + (seq![ask] + (t.events + spec_emissions_of_held_p(t.pushes, opts)))
                =~= (h0 + seq![ask]) + (t.events + spec_emissions_of_held_p(t.pushes, opts)));
        }
    }
}

/// The whole walk as a canonical delegate sees it: when the root pipeline
/// succeeds, the traversal root is recursable, and the history shows that
/// the delegate agreed to every recursion it was asked about and accepted
/// every emission — as [`crate::walk::Recorder`] does — then the full
/// event stream and the outcome counters are exactly the planned traversal
/// of the root's subtree, followed by the drain of whatever the root frame
/// left held.
pub open spec fn spec_walk_traversal_events(
    root: Seq<u8>,
    worktree_root: Seq<u8>,
    worktree: Node,
    index: Index,
    opts: Options,
    res: Result<Outcome, Error>,
    h0: Seq<DelegateEvent>,
    h1: Seq<DelegateEvent>,
) -> bool {
    let rc = spec_split(root);
    let wc = spec_split(worktree_root);
    (spec_pipeline_ok(root, worktree_root, worktree) && res is Ok && spec_all_descends(
        h1.skip(h0.len() as int),
    ) && spec_n_accepted(h1.skip(h0.len() as int)) == spec_n_emitted(
        h1.skip(h0.len() as int),
    )) ==> {
        let rel = spec_normalize(rc.skip(wc.len() as int))->Some_0;
        let rr = spec_classify_root(worktree, rel, opts, index)->Some_0;
        let rpath = spec_join(rel.take(rr.2));
        let out = res->Ok_0;
        rr.0.spec_can_recurse(rr.1) ==> {
            let target = spec_lookup(worktree, rel.take(rr.2))->Some_0;
            let t = spec_default_frame(
                target.children@,
                rpath,
                rr.0,
                rr.1->Some_0,
                rpath.len() == 0,
                target.pathspec_explicit_match,
                opts,
                index,
            );
            &&& h1 == h0 + (seq![
                (DelegateEvent::Asked {
                    rela_path: rpath,
                    status: rr.0,
                    kind: rr.1->Some_0,
                    descend: true,
                }),
            ] + (t.events + spec_emissions_of_held_p(t.pushes, opts)))
            &&& out.seen_entries == t.seen + t.pushes.len()
            &&& out.read_dir_calls == t.read_dirs
        }
    }
}

/// Walk the worktree view rooted at `worktree`, starting at the traversal
/// root `root`, which must lie within `worktree_root`; classify what is
/// found and emit it through `delegate`.
///
/// The traversal root is first contained, normalized, and checked for
/// symlinks; the resulting error cases are stated exactly below. On
/// success the delegate never sees more accepted entries than were seen:
/// `returned_entries` equals the number of emissions the delegate accepted
/// during this walk, and `seen_entries` bounds the number it was handed.
#[verifier::rlimit(100)]
pub fn walk<D: Delegate>(
    root: &Vec<u8>,
    worktree_root: &Vec<u8>,
    worktree: &Node,
    index: &Index,
    opts: Options,
    delegate: &mut D,
) -> (res: Result<Outcome, Error>)
    requires
        2 * node_count(*worktree) + 2 <= u32::MAX,
    ensures
        spec_walk_errors(root@, worktree_root@, *worktree, *index, opts, res),
        res matches Ok(out) ==> out.returned_entries <= out.seen_entries && out.seen_entries <= 2
            * node_count(*worktree) + 2 && out.read_dir_calls <= 1 + node_count(*worktree),
        spec_root_is_terminal(root@, worktree_root@, *worktree, *index, opts) ==> (res
            matches Ok(out) ==> out.read_dir_calls == 0 && out.seen_entries == 1
            && out.returned_entries <= 1),
        spec_history_extends(final(delegate).history(), old(delegate).history()),
        res matches Ok(out) ==> out.returned_entries == spec_n_accepted(
            final(delegate).history(),
        ) - spec_n_accepted(old(delegate).history()) && out.seen_entries >= spec_n_emitted(
            final(delegate).history(),
        ) - spec_n_emitted(old(delegate).history()),
        res is Err ==> final(delegate).history() == old(delegate).history(),
        spec_walk_root_events(
            root@,
            worktree_root@,
            *worktree,
            *index,
            opts,
            res,
            old(delegate).history(),
            final(delegate).history(),
        ),
        spec_walk_traversal_events(
            root@,
            worktree_root@,
            *worktree,
            *index,
            opts,
            res,
            old(delegate).history(),
            final(delegate).history(),
        ),
{
    proof {
        crate::walk::lemma_extends_refl(delegate.history());
    }
    let root_comps = split_components(root);
    let wt_comps = split_components(worktree_root);
    if !comps_start_with(&root_comps, &wt_comps) {
        return Err(
            Error::RootNotInWorktree {
                root: crate::bytes::clone_bytes(root),
                worktree_root: crate::bytes::clone_bytes(worktree_root),
            },
        );
    }
    let mut rel_raw: Vec<Vec<u8>> = Vec::new();
    let mut k = wt_comps.len();
    let n = root_comps.len();
    proof {
        let rc = spec_split(root@);
        assert(rel_raw@.map_values(|c: Vec<u8>| c@) =~= rc.subrange(
            spec_split(worktree_root@).len() as int,
            spec_split(worktree_root@).len() as int,
        ));
    }
    while k < n
        invariant
            wt_comps@.len() <= k <= n,
            n == root_comps@.len(),
            root_comps@.map_values(|c: Vec<u8>| c@) == spec_split(root@),
            wt_comps@.map_values(|c: Vec<u8>| c@) == spec_split(worktree_root@),
            rel_raw@.map_values(|c: Vec<u8>| c@) == spec_split(root@).subrange(
                spec_split(worktree_root@).len() as int,
                k as int,
            ),
        decreases n - k,
    {
        let ghost rel_old = rel_raw@;
        rel_raw.push(crate::bytes::clone_bytes(&root_comps[k]));
        proof {
            let wlen = spec_split(worktree_root@).len() as int;
            assert(rel_raw@.map_values(|c: Vec<u8>| c@) =~= rel_old.map_values(
                |c: Vec<u8>| c@,
            ).push(root_comps@[k as int]@));
            assert(root_comps@[k as int]@ == spec_split(root@)[k as int]);
            assert(spec_split(root@).subrange(wlen, k + 1) =~= spec_split(root@).subrange(
                wlen,
                k as int,
            ).push(spec_split(root@)[k as int]));
            assert(rel_raw@.map_values(|c: Vec<u8>| c@) =~= spec_split(root@).subrange(
                wlen,
                k + 1,
            ));
        }
        k = k + 1;
    }
    proof {
        assert(spec_split(root@).subrange(
            spec_split(worktree_root@).len() as int,
            spec_split(root@).len() as int,
        ) =~= spec_split(root@).skip(spec_split(worktree_root@).len() as int));
    }
    let rel = match normalize_components(&rel_raw) {
        Some(rel) => rel,
        None => {
            return Err(Error::NormalizeRoot { root: crate::bytes::clone_bytes(root) });
        },
    };
    if !matches!(worktree.kind, crate::fstree::DiskKind::Directory) {
        return Err(Error::WorktreeRootIsFile { root: crate::bytes::clone_bytes(worktree_root) });
    }
    let ghost rel_views = rel@.map_values(|c: Vec<u8>| c@);
    match validate_root(worktree, &rel) {
        Some((true, component_index)) => {
            return Err(
                Error::SymlinkInRoot {
                    root: crate::bytes::clone_bytes(root),
                    worktree_root: crate::bytes::clone_bytes(worktree_root),
                    component_index,
                },
            );
        },
        Some((false, component_index)) => {
            let mut path = crate::bytes::clone_bytes(worktree_root);
            let mut j: usize = 0;
            while j < component_index && j < rel.len()
                invariant
                    j <= rel@.len(),
                decreases rel@.len() - j,
            {
                path.push(47);
                crate::bytes::append_bytes(&mut path, &rel[j]);
                j = j + 1;
            }
            return Err(Error::SymlinkMetadata { path });
        },
        None => {},
    }
    proof {
        assert(rel_views.take(0) =~= Seq::<Seq<u8>>::empty());
        lemma_validate_gives_lookup(*worktree, *worktree, rel_views, 0);
        if rel_views.len() > 0 {
            lemma_root_loop_some(*worktree, rel_views, 0, opts, *index);
        }
    }
    let mut buf: Vec<u8> = Vec::new();
    let (status, kind, depth) = classify::root(worktree, &mut buf, &rel, opts, index);
    let ghost buf_root = buf@;
    let mut out = Outcome { read_dir_calls: 0, returned_entries: 0, seen_entries: 0 };
    let descend = can_recurse(&buf, status, kind, delegate);
    let ghost h_ask = delegate.history();
    if descend {
        let dir_kind = match kind {
            Some(k) => k,
            None => vstd::pervasive::unreached(),
        };
        let target = walk_to(worktree, &rel, depth);
        let mut state = State { on_hold: Vec::new(), on_hold_explicit: Vec::new() };
        proof {
            crate::fstree::lemma_lookup_count(*worktree, rel_views.take(depth as int));
        }
        let ghost entries_rec = state.on_hold@;
        let ghost flags_rec = state.on_hold_explicit@;
        let action = readdir::recursive(
            buf.len() == 0,
            &target.children,
            &mut buf,
            status,
            dir_kind,
            target.pathspec_explicit_match,
            index,
            opts,
            delegate,
            &mut out,
            &mut state,
        );
        let ghost h_rec = delegate.history();
        let ghost entries_drain = state.on_hold@;
        let ghost flags_drain = state.on_hold_explicit@;
        let ghost seen_rec = out.seen_entries;
        proof {
            crate::walk::lemma_extends_trans(
                delegate.history(),
                h_ask,
                old(delegate).history(),
            );
        }
        let mut drain_action = Action::Continue;
        if matches!(action, Action::Continue) {
            let leftover = crate::walk::readdir::Mark { start_index: 0, is_worktree_dir: false };
            drain_action = leftover.emit_all_held(&mut state, opts, &mut out, delegate);
            proof {
                crate::walk::lemma_extends_trans(
                    delegate.history(),
                    h_rec,
                    old(delegate).history(),
                );
            }
        }
        proof {
            let h0 = old(delegate).history();
            let h1 = delegate.history();
            assert(h1.subrange(0, h_ask.len() as int) == h_ask);
            assert(h1[h0.len() as int] == h1.subrange(0, h_ask.len() as int)[h0.len() as int]);
            assert(entries_drain.skip(0) =~= entries_drain);
            assert(flags_drain.skip(0) =~= flags_drain);
            crate::walk::lemma_extends_refl(h1);
            lemma_walk_descend_assembly(
                *target,
                buf_root,
                status,
                dir_kind,
                opts,
                *index,
                h0,
                h_ask,
                h_rec,
                h1,
                entries_drain,
                flags_drain,
                action,
                drain_action,
                seen_rec as int,
                out.seen_entries as int,
                out.read_dir_calls as int,
            );
        }
        Ok(out)
    } else {
        let _ = emit_entry(&buf, status, None, kind, opts, &mut out, delegate);
        proof {
            crate::walk::lemma_extends_trans(
                delegate.history(),
                h_ask,
                old(delegate).history(),
            );
            if status.spec_can_recurse(kind) {
                let h0 = old(delegate).history();
                let h1 = delegate.history();
                assert(h1.subrange(0, h_ask.len() as int) == h_ask);
                assert(h1[h0.len() as int] == h1.subrange(0, h_ask.len() as int)[h0.len()
                    as int]);
                // the delegate's refusal is on record, so the history does
                // not show full agreement
                let delta = h1.skip(h0.len() as int);
                assert(delta[0] == h1[h0.len() as int]);
                assert(!spec_all_descends(delta));
            }
        }
        Ok(out)
    }
}

} // verus!
