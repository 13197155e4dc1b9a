//! The recursive walker: visit a directory's children, hold candidates for
//! collapsing, and fold or emit them once the directory is done.
use vstd::prelude::*;

use crate::Entry;
use crate::entry::IgnoreKind;
use crate::entry::Kind;
use crate::entry::Status;
use crate::fstree::Node;
use crate::fstree::lemma_nodes_count_index;
use crate::fstree::lemma_nodes_count_take;
use crate::fstree::lemma_nodes_count_take_step;
use crate::fstree::nodes_count;
use crate::index::Index;
use crate::walk::Action;
use crate::walk::Delegate;
use crate::walk::DelegateEvent;
use crate::walk::EmissionMode;
use crate::walk::Options;
use crate::walk::Outcome;
use crate::walk::classify;
use crate::walk::function::can_recurse;
use crate::walk::function::emit_entry;
use crate::walk::function::spec_emissions_of_fold;
use crate::walk::function::spec_emissions_of_held;
use crate::walk::function::spec_should_emit;
use crate::walk::lemma_extends_trans;
use crate::walk::spec_history_extends;
use crate::walk::spec_n_accepted;
use crate::walk::spec_n_emitted;

verus! {

/// No held entry is pruned: pruned entries are never held back.
pub open spec fn spec_held_wf(s: Seq<Entry>) -> bool {
    forall|i: int| 0 <= i < s.len() ==> !(#[trigger] s[i]).status.spec_is_pruned()
}

/// Whether `e` records exactly this path, status and kind.
pub open spec fn spec_entry_is(e: Entry, rela_path: Seq<u8>, status: Status, kind: Kind) -> bool {
    &&& e.rela_path@ == rela_path
    &&& e.status == status
    &&& e.kind == kind
}

/// Whether any of the flags is set.
pub open spec fn spec_any_true(s: Seq<bool>) -> bool {
    exists|i: int| 0 <= i < s.len() && #[trigger] s[i]
}

/// Extending a prefix of flags by one position folds in that flag.
proof fn lemma_any_true_take_step(s: Seq<bool>, m: int)
    requires
        0 <= m < s.len(),
    ensures
        spec_any_true(s.take(m + 1)) == (spec_any_true(s.take(m)) || s[m]),
{
    if spec_any_true(s.take(m + 1)) {
        let i = choose|i: int| 0 <= i < s.take(m + 1).len() && #[trigger] s.take(m + 1)[i];
        if i < m {
            assert(s.take(m)[i]);
        }
    }
    if spec_any_true(s.take(m)) {
        let i = choose|i: int| 0 <= i < s.take(m).len() && #[trigger] s.take(m)[i];
        assert(s.take(m + 1)[i]);
    }
    if s[m] {
        assert(s.take(m + 1)[m]);
    }
}

/// How many held entries are ignored-expendable, ignored-precious, and
/// untracked, in this order.
pub open spec fn spec_tally(s: Seq<Entry>) -> (nat, nat, nat)
    decreases s,
{
    if s.len() == 0 {
        (0nat, 0nat, 0nat)
    } else {
        let t = spec_tally(s.drop_last());
        match s.last().status {
            Status::Ignored(IgnoreKind::Expendable) => (t.0 + 1, t.1, t.2),
            Status::Ignored(IgnoreKind::Precious) => (t.0, t.1 + 1, t.2),
            Status::Untracked => (t.0, t.1, t.2 + 1),
            _ => t,
        }
    }
}

/// The fold decision for a directory whose held children are `s`: fold to
/// `Untracked` when untracked entries are present, nothing but untracked and
/// ignored entries are held, and precious entries do not block a deletion;
/// otherwise fold to the one ignore kind that all entries share; otherwise
/// do not fold. A tracked child always prevents folding. An explicit
/// pathspec match among the held children vetoes any fold separately; see
/// [`Mark::try_collapse`].
pub open spec fn spec_collapse_status(s: Seq<Entry>, opts: Options) -> Option<Status> {
    let t = spec_tally(s);
    if opts.emit_untracked is CollapseDirectory && t.2 != 0 && t.0 + t.1 + t.2 == s.len() && (
    !opts.collapse_is_for_deletion || t.1 == 0) {
        Some(Status::Untracked)
    } else if opts.emit_ignored == Some(EmissionMode::CollapseDirectory) {
        if t.0 != 0 && t.0 == s.len() {
            Some(Status::Ignored(IgnoreKind::Expendable))
        } else if t.1 != 0 && t.1 == s.len() {
            Some(Status::Ignored(IgnoreKind::Precious))
        } else {
            None
        }
    } else {
        None
    }
}

/// Precious safety: when collapses are meant for deletion, no directory
/// holding a precious entry is ever folded into an `Untracked` entry.
pub proof fn law_precious_blocks_deletion_fold(s: Seq<Entry>, opts: Options)
    requires
        opts.collapse_is_for_deletion,
        spec_tally(s).1 > 0,
    ensures
        spec_collapse_status(s, opts) != Some(Status::Untracked),
{
}

/// The fold decision reads nothing but the children's statuses: two held
/// sequences whose statuses agree pointwise fold the same way. A directory
/// already folded to a status therefore weighs exactly as much as a plain
/// child of that status would, which makes folding idempotent up the tree.
pub proof fn law_fold_reads_statuses_only(s1: Seq<Entry>, s2: Seq<Entry>, opts: Options)
    requires
        s1.len() == s2.len(),
        forall|i: int| 0 <= i < s1.len() ==> s1[i].status == s2[i].status,
    ensures
        spec_collapse_status(s1, opts) == spec_collapse_status(s2, opts),
    decreases s1.len(),
{
    lemma_tally_statuses_only(s1, s2);
}

/// The tally of held entries depends only on their statuses.
proof fn lemma_tally_statuses_only(s1: Seq<Entry>, s2: Seq<Entry>)
    requires
        s1.len() == s2.len(),
        forall|i: int| 0 <= i < s1.len() ==> s1[i].status == s2[i].status,
    ensures
        spec_tally(s1) == spec_tally(s2),
    decreases s1.len(),
{
    if s1.len() > 0 {
        assert(forall|i: int|
            0 <= i < s1.drop_last().len() ==> s1.drop_last()[i].status == s2.drop_last()[i].status);
        lemma_tally_statuses_only(s1.drop_last(), s2.drop_last());
        assert(s1.last().status == s2.last().status);
    }
}

/// The worktree-relative path of a child named `name` below `bstr`.
pub open spec fn spec_child_rela(bstr: Seq<u8>, name: Seq<u8>) -> Seq<u8> {
    if bstr.len() == 0 {
        name
    } else {
        bstr + seq![47u8] + name
    }
}

/// Where the filename starts inside a child path below `bstr`.
pub open spec fn spec_child_fstart(bstr: Seq<u8>) -> int {
    if bstr.len() == 0 {
        0
    } else {
        bstr.len() + 1int
    }
}

/// The kind the walk classifies a child of the directory at `bstr` as.
pub open spec fn spec_child_kind(
    child: Node,
    bstr: Seq<u8>,
    opts: Options,
    index: Index,
) -> Option<Kind> {
    classify::spec_classify(
        child,
        spec_child_rela(bstr, child.name@),
        spec_child_fstart(bstr),
        None,
        opts,
        index,
    ).1
}

/// How many children classify as something that is no directory on disk.
/// Such children can never be recursed into, whatever the delegate
/// answers, so each of them is eventually counted as seen.
pub open spec fn spec_n_nondir_children(
    s: Seq<Node>,
    bstr: Seq<u8>,
    opts: Options,
    index: Index,
) -> nat
    decreases s,
{
    if s.len() == 0 {
        0
    } else {
        spec_n_nondir_children(s.drop_last(), bstr, opts, index) + (if (spec_child_kind(
            s.last(),
            bstr,
            opts,
            index,
        ) matches Some(k) && k.spec_is_dir()) {
            0nat
        } else {
            1nat
        })
    }
}

/// One entry as the traversal plans it: the view of a held or emitted
/// entry, beside the explicit-match flag that can veto folds.
pub struct PlannedEntry {
    /// The worktree-relative path.
    pub rela_path: Seq<u8>,
    /// The classified status.
    pub status: Status,
    /// The classified kind.
    pub kind: Kind,
    /// Whether an explicitly written pathspec pattern matches the path.
    pub explicit: bool,
}

/// What a traversal amounts to: the events handed to the delegate in
/// order, the entries left behind in the caller's hold buffer, and the
/// exact growth of the seen and read-dir counters.
pub struct Traversal {
    /// The delegate calls, oldest first.
    pub events: Seq<DelegateEvent>,
    /// The held entries the traversal leaves for its caller.
    pub pushes: Seq<PlannedEntry>,
    /// How much `seen_entries` grows.
    pub seen: nat,
    /// How much `read_dir_calls` grows.
    pub read_dirs: nat,
}

/// The planned view of held entries and their explicit-match flags.
pub open spec fn spec_planned_of(entries: Seq<Entry>, flags: Seq<bool>) -> Seq<PlannedEntry> {
    Seq::new(
        entries.len(),
        |i: int|
            PlannedEntry {
                rela_path: entries[i].rela_path@,
                status: entries[i].status,
                kind: entries[i].kind,
                explicit: flags[i],
            },
    )
}

/// The tally of planned entries, like [`spec_tally`].
pub open spec fn spec_tally_p(s: Seq<PlannedEntry>) -> (nat, nat, nat)
    decreases s,
{
    if s.len() == 0 {
        (0nat, 0nat, 0nat)
    } else {
        let t = spec_tally_p(s.drop_last());
        match s.last().status {
            Status::Ignored(IgnoreKind::Expendable) => (t.0 + 1, t.1, t.2),
            Status::Ignored(IgnoreKind::Precious) => (t.0, t.1 + 1, t.2),
            Status::Untracked => (t.0, t.1, t.2 + 1),
            _ => t,
        }
    }
}

/// The fold decision over planned entries, like [`spec_collapse_status`].
pub open spec fn spec_collapse_status_p(s: Seq<PlannedEntry>, opts: Options) -> Option<Status> {
    let t = spec_tally_p(s);
    if opts.emit_untracked is CollapseDirectory && t.2 != 0 && t.0 + t.1 + t.2 == s.len() && (
    !opts.collapse_is_for_deletion || t.1 == 0) {
        Some(Status::Untracked)
    } else if opts.emit_ignored == Some(EmissionMode::CollapseDirectory) {
        if t.0 != 0 && t.0 == s.len() {
            Some(Status::Ignored(IgnoreKind::Expendable))
        } else if t.1 != 0 && t.1 == s.len() {
            Some(Status::Ignored(IgnoreKind::Precious))
        } else {
            None
        }
    } else {
        None
    }
}

/// Whether any planned entry carries an explicit pathspec match.
pub open spec fn spec_any_explicit_p(s: Seq<PlannedEntry>) -> bool {
    exists|i: int| 0 <= i < s.len() && (#[trigger] s[i]).explicit
}

/// The emission, if any, of a single entry under the filters.
pub open spec fn spec_emit_plan(
    rela_path: Seq<u8>,
    status: Status,
    kind: Option<Kind>,
    dir_status: Option<Status>,
    opts: Options,
) -> Seq<DelegateEvent> {
    if spec_should_emit(status, kind, opts) {
        seq![
            (DelegateEvent::Emitted {
                rela_path: rela_path,
                status: status,
                kind: kind->Some_0,
                collapsed_directory_status: dir_status,
                accepted: true,
            }),
        ]
    } else {
        Seq::empty()
    }
}

/// The emissions of planned held entries, like [`spec_emissions_of_held`].
pub open spec fn spec_emissions_of_held_p(s: Seq<PlannedEntry>, opts: Options) -> Seq<
    DelegateEvent,
>
    decreases s,
{
    if s.len() == 0 {
        Seq::empty()
    } else {
        spec_emissions_of_held_p(s.drop_last(), opts) + spec_emit_plan(
            s.last().rela_path,
            s.last().status,
            Some(s.last().kind),
            None,
            opts,
        )
    }
}

/// The emissions of a fold over planned entries, like
/// [`spec_emissions_of_fold`].
pub open spec fn spec_emissions_of_fold_p(
    s: Seq<PlannedEntry>,
    fold: Status,
    opts: Options,
) -> Seq<DelegateEvent>
    decreases s,
{
    if s.len() == 0 {
        Seq::empty()
    } else {
        spec_emissions_of_fold_p(s.drop_last(), fold, opts) + (if s.last().status != fold {
            spec_emit_plan(s.last().rela_path, s.last().status, Some(s.last().kind), Some(fold), opts)
        } else {
            Seq::empty()
        })
    }
}

/// Whether the delegate agreed to every recursion it was asked about. The
/// walk only asks about directories whose status allows recursion, so this
/// is how a delegate that answers as `git status` does — [`Recorder`] for
/// one — behaves.
pub open spec fn spec_all_descends(delta: Seq<DelegateEvent>) -> bool {
    forall|i: int|
        0 <= i < delta.len() ==> match #[trigger] delta[i] {
            DelegateEvent::Asked { descend, .. } => descend,
            _ => true,
        }
}

/// The traversal of one directory frame when the delegate accepts every
/// emission and agrees to every recursion: classify each child, descend
/// into the recursable ones, hold or emit the rest, then fold or drain the
/// held entries — or emit the directory itself when it has no children.
pub open spec fn spec_default_frame(
    children: Seq<Node>,
    bstr: Seq<u8>,
    dir_status: Status,
    dir_kind: Kind,
    is_worktree: bool,
    dir_explicit: bool,
    opts: Options,
    index: Index,
) -> Traversal
    decreases children, 1int,
{
    if children.len() == 0 {
        let kind = if dir_kind is Repository {
            Kind::Repository
        } else {
            Kind::EmptyDirectory
        };
        Traversal {
            events: spec_emit_plan(bstr, dir_status, Some(kind), None, opts),
            pushes: Seq::empty(),
            seen: 1,
            read_dirs: 1,
        }
    } else {
        let sub = spec_default_children(children, bstr, opts, index);
        let held = sub.pushes;
        let fold = spec_collapse_status_p(held, opts);
        if !is_worktree && !spec_any_explicit_p(held) && fold is Some {
            Traversal {
                events: sub.events + spec_emissions_of_fold_p(held, fold->Some_0, opts),
                pushes: seq![
                    PlannedEntry {
                        rela_path: bstr,
                        status: fold->Some_0,
                        kind: dir_kind,
                        explicit: dir_explicit,
                    },
                ],
                seen: sub.seen + held.len(),
                read_dirs: 1 + sub.read_dirs,
            }
        } else {
            Traversal {
                events: sub.events + spec_emissions_of_held_p(held, opts),
                pushes: Seq::empty(),
                seen: sub.seen + held.len(),
                read_dirs: 1 + sub.read_dirs,
            }
        }
    }
}

/// The concatenated traversals of a directory's children, in order.
pub open spec fn spec_default_children(
    s: Seq<Node>,
    bstr: Seq<u8>,
    opts: Options,
    index: Index,
) -> Traversal
    decreases s, 0int,
{
    if s.len() == 0 {
        Traversal { events: Seq::empty(), pushes: Seq::empty(), seen: 0, read_dirs: 0 }
    } else {
        let front = spec_default_children(s.drop_last(), bstr, opts, index);
        let last = spec_default_child(s.last(), bstr, opts, index);
        Traversal {
            events: front.events + last.events,
            pushes: front.pushes + last.pushes,
            seen: front.seen + last.seen,
            read_dirs: front.read_dirs + last.read_dirs,
        }
    }
}

/// The traversal of one child: a recursable child is asked about and
/// descended into; otherwise the child is held when a collapse is under
/// way, and emitted right away when not.
pub open spec fn spec_default_child(
    child: Node,
    bstr: Seq<u8>,
    opts: Options,
    index: Index,
) -> Traversal
    decreases child, 2int,
{
    let rela = spec_child_rela(bstr, child.name@);
    let res = classify::spec_classify(
        child,
        rela,
        spec_child_fstart(bstr),
        None,
        opts,
        index,
    );
    let status = res.0;
    let kind = res.1;
    if status.spec_can_recurse(kind) {
        let ask = DelegateEvent::Asked {
            rela_path: rela,
            status: status,
            kind: kind->Some_0,
            descend: true,
        };
        let sub = spec_default_frame(
            child.children@,
            rela,
            status,
            kind->Some_0,
            false,
            child.pathspec_explicit_match,
            opts,
            index,
        );
        Traversal {
            events: seq![ask] + sub.events,
            pushes: sub.pushes,
            seen: sub.seen,
            read_dirs: sub.read_dirs,
        }
    } else if kind is Some && opts.spec_should_hold(status) {
        Traversal {
            events: Seq::empty(),
            pushes: seq![
                PlannedEntry {
                    rela_path: rela,
                    status: status,
                    kind: kind->Some_0,
                    explicit: child.pathspec_explicit_match,
                },
            ],
            seen: 0,
            read_dirs: 0,
        }
    } else {
        Traversal {
            events: spec_emit_plan(rela, status, kind, None, opts),
            pushes: Seq::empty(),
            seen: 1,
            read_dirs: 0,
        }
    }
}

/// The planned view preserves everything the collapse engine reads: the
/// tally, the fold decision, the explicit-match veto, and both emission
/// sequences.
pub(crate) proof fn lemma_planned_bridge(entries: Seq<Entry>, flags: Seq<bool>, fold: Status, opts: Options)
    requires
        entries.len() == flags.len(),
    ensures
        spec_tally_p(spec_planned_of(entries, flags)) == spec_tally(entries),
        spec_collapse_status_p(spec_planned_of(entries, flags), opts) == spec_collapse_status(
            entries,
            opts,
        ),
        spec_any_explicit_p(spec_planned_of(entries, flags)) == spec_any_true(flags),
        spec_emissions_of_held_p(spec_planned_of(entries, flags), opts)
            == spec_emissions_of_held(entries, opts),
        spec_emissions_of_fold_p(spec_planned_of(entries, flags), fold, opts)
            == spec_emissions_of_fold(entries, fold, opts),
    decreases entries.len(),
{
    let p = spec_planned_of(entries, flags);
    if spec_any_true(flags) {
        let i = choose|i: int| 0 <= i < flags.len() && #[trigger] flags[i];
        assert(p[i].explicit);
    }
    if spec_any_explicit_p(p) {
        let i = choose|i: int| 0 <= i < p.len() && (#[trigger] p[i]).explicit;
        assert(flags[i]);
    }
    if entries.len() == 0 {
        assert(p =~= Seq::<PlannedEntry>::empty());
    } else {
        lemma_planned_bridge(entries.drop_last(), flags.drop_last(), fold, opts);
        assert(p.drop_last() =~= spec_planned_of(entries.drop_last(), flags.drop_last()));
        assert(p.last().status == entries.last().status);
        assert(spec_emissions_of_held_p(p, opts) =~= spec_emissions_of_held(entries, opts));
        assert(spec_emissions_of_fold_p(p, fold, opts) =~= spec_emissions_of_fold(
            entries,
            fold,
            opts,
        ));
    }
}

/// The planned view of a concatenation is the concatenation of the views.
proof fn lemma_planned_of_concat(e1: Seq<Entry>, f1: Seq<bool>, e2: Seq<Entry>, f2: Seq<bool>)
    requires
        e1.len() == f1.len(),
        e2.len() == f2.len(),
    ensures
        spec_planned_of(e1 + e2, f1 + f2) == spec_planned_of(e1, f1) + spec_planned_of(e2, f2),
{
    assert(spec_planned_of(e1 + e2, f1 + f2) =~= spec_planned_of(e1, f1) + spec_planned_of(
        e2,
        f2,
    ));
}

/// A concatenated history agrees to every recursion exactly when both of
/// its parts do.
pub(crate) proof fn lemma_all_descends_split(a: Seq<DelegateEvent>, b: Seq<DelegateEvent>)
    ensures
        spec_all_descends(a + b) <==> (spec_all_descends(a) && spec_all_descends(b)),
{
    if spec_all_descends(a + b) {
        assert forall|i: int| 0 <= i < a.len() implies match #[trigger] a[i] {
            DelegateEvent::Asked { descend, .. } => descend,
            _ => true,
        } by {
            assert((a + b)[i] == a[i]);
        }
        assert forall|i: int| 0 <= i < b.len() implies match #[trigger] b[i] {
            DelegateEvent::Asked { descend, .. } => descend,
            _ => true,
        } by {
            assert((a + b)[a.len() + i] == b[i]);
        }
    }
    if spec_all_descends(a) && spec_all_descends(b) {
        assert forall|i: int| 0 <= i < (a + b).len() implies match #[trigger] (a + b)[i] {
            DelegateEvent::Asked { descend, .. } => descend,
            _ => true,
        } by {
            if i < a.len() {
                assert((a + b)[i] == a[i]);
            } else {
                assert((a + b)[i] == b[i - a.len()]);
            }
        }
    }
}

/// Joining histories is associative.
proof fn lemma_events_assoc(a: Seq<DelegateEvent>, b: Seq<DelegateEvent>, c: Seq<DelegateEvent>)
    ensures
        (a + b) + c == a + (b + c),
{
    assert((a + b) + c =~= a + (b + c));
}

/// Appending one event is joining a singleton history.
proof fn lemma_events_push(a: Seq<DelegateEvent>, e: DelegateEvent)
    ensures
        a.push(e) == a + seq![e],
{
    assert(a.push(e) =~= a + seq![e]);
}

/// Assembling one child step of the traversal trace: with the front
/// children's trace in place and the child's own segment known, the trace
/// of one more child holds.
proof fn lemma_trace_step(
    children: Seq<Node>,
    i: int,
    bstr: Seq<u8>,
    opts: Options,
    index: Index,
    h0: Seq<DelegateEvent>,
    h_now: Seq<DelegateEvent>,
    child_events: Seq<DelegateEvent>,
    child_pushes: Seq<PlannedEntry>,
    entries_step: Seq<Entry>,
    flags_step: Seq<bool>,
    entries_now: Seq<Entry>,
    flags_now: Seq<bool>,
    mark_start: int,
)
    requires
        0 <= i < children.len(),
        0 <= mark_start <= entries_step.len(),
        entries_step.len() == flags_step.len(),
        entries_now.len() == flags_now.len(),
        entries_now.len() >= entries_step.len(),
        entries_now.subrange(0, entries_step.len() as int) == entries_step,
        flags_now.subrange(0, flags_step.len() as int) == flags_step,
        spec_default_child(children[i], bstr, opts, index).events == child_events,
        spec_default_child(children[i], bstr, opts, index).pushes == child_pushes,
        h_now == (h0 + spec_default_children(
            children.subrange(0, i),
            bstr,
            opts,
            index,
        ).events) + child_events,
        spec_planned_of(
            entries_step.skip(mark_start),
            flags_step.skip(mark_start),
        ) == spec_default_children(children.subrange(0, i), bstr, opts, index).pushes,
        spec_planned_of(
            entries_now.skip(entries_step.len() as int),
            flags_now.skip(flags_step.len() as int),
        ) == child_pushes,
    ensures
        h_now == h0 + spec_default_children(children.subrange(0, i + 1), bstr, opts, index).events,
        spec_planned_of(entries_now.skip(mark_start), flags_now.skip(mark_start))
            == spec_default_children(children.subrange(0, i + 1), bstr, opts, index).pushes,
        spec_default_children(children.subrange(0, i + 1), bstr, opts, index).seen
            == spec_default_children(children.subrange(0, i), bstr, opts, index).seen
            + spec_default_child(children[i], bstr, opts, index).seen,
        spec_default_children(children.subrange(0, i + 1), bstr, opts, index).read_dirs
            == spec_default_children(children.subrange(0, i), bstr, opts, index).read_dirs
            + spec_default_child(children[i], bstr, opts, index).read_dirs,
{
    assert(children.subrange(0, i + 1).drop_last() =~= children.subrange(0, i));
    assert(children.subrange(0, i + 1).last() == children[i]);
    let t_front = spec_default_children(children.subrange(0, i), bstr, opts, index);
    lemma_events_assoc(h0, t_front.events, child_events);
    assert(entries_now.skip(mark_start) =~= entries_step.skip(mark_start) + entries_now.skip(
        entries_step.len() as int,
    ));
    assert(flags_now.skip(mark_start) =~= flags_step.skip(mark_start) + flags_now.skip(
        flags_step.len() as int,
    ));
    lemma_planned_of_concat(
        entries_step.skip(mark_start),
        flags_step.skip(mark_start),
        entries_now.skip(entries_step.len() as int),
        flags_now.skip(flags_step.len() as int),
    );
}

/// The entries held back until it is clear what to do with them.
pub struct State {
    /// The hold buffer, shared by all recursion frames.
    pub on_hold: Vec<Entry>,
    /// Beside each held entry: whether an explicitly written pathspec
    /// pattern matches its path, which vetoes folding it away.
    pub on_hold_explicit: Vec<bool>,
}

/// The two hold vectors always run in parallel, and no held entry is
/// pruned.
pub open spec fn spec_state_wf(st: State) -> bool {
    &&& st.on_hold@.len() == st.on_hold_explicit@.len()
    &&& spec_held_wf(st.on_hold@)
}

/// Where in the hold buffer the current directory's children begin, and
/// whether that directory is the worktree root, which never folds.
pub struct Mark {
    /// The index of the first held entry belonging to this directory.
    pub start_index: usize,
    /// Whether this directory is the worktree root.
    pub is_worktree_dir: bool,
}

impl Options {
    /// Whether `status` makes an entry a candidate for holding.
    pub open spec fn spec_should_hold(self, status: Status) -> bool {
        &&& !status.spec_is_pruned()
        &&& (self.emit_ignored == Some(EmissionMode::CollapseDirectory) || self.emit_untracked
            is CollapseDirectory)
    }

    /// An entry is held back only if it is not pruned and some emission mode
    /// asks for directory collapsing.
    pub fn should_hold(&self, status: Status) -> (r: bool)
        ensures
            r == self.spec_should_hold(status),
    {
        if status.is_pruned() {
            return false;
        }
        matches!(self.emit_ignored, Some(EmissionMode::CollapseDirectory)) || matches!(
            self.emit_untracked,
            EmissionMode::CollapseDirectory,
        )
    }
}

impl State {
    /// Hold the entry if it is a candidate for collapsing the containing
    /// directory; entries without a known kind (such as `.git`) are never
    /// held. `explicit` records whether an explicitly written pathspec
    /// pattern matches the entry.
    pub(crate) fn held_for_directory_collapse(
        &mut self,
        rela_path: &Vec<u8>,
        status: Status,
        kind: Option<Kind>,
        explicit: bool,
        opts: &Options,
    ) -> (r: bool)
        requires
            spec_state_wf(*old(self)),
        ensures
            spec_state_wf(*final(self)),
            r == (kind is Some && opts.spec_should_hold(status)),
            r ==> final(self).on_hold@.len() == old(self).on_hold@.len() + 1
                && final(self).on_hold@.drop_last() == old(self).on_hold@ && spec_entry_is(
                final(self).on_hold@.last(),
                rela_path@,
                status,
                kind->Some_0,
            ) && final(self).on_hold_explicit@ == old(self).on_hold_explicit@.push(explicit),
            !r ==> final(self).on_hold@ == old(self).on_hold@ && final(self).on_hold_explicit@
                == old(self).on_hold_explicit@,
    {
        let kind = match kind {
            Some(kind) => kind,
            None => {
                return false;
            },
        };
        if opts.should_hold(status) {
            self.on_hold.push(
                Entry { rela_path: crate::bytes::clone_bytes(rela_path), status, kind },
            );
            self.on_hold_explicit.push(explicit);
            proof {
                assert(final(self).on_hold@.drop_last() =~= old(self).on_hold@);
                assert forall|i: int| 0 <= i < final(self).on_hold@.len() implies !(
                #[trigger] final(self).on_hold@[i]).status.spec_is_pruned() by {
                    if i < old(self).on_hold@.len() {
                        assert(final(self).on_hold@[i] == old(self).on_hold@[i]);
                    }
                }
            }
            true
        } else {
            false
        }
    }

    /// Record where the current directory's children begin.
    pub(crate) fn mark(&self, is_worktree_dir: bool) -> (r: Mark)
        ensures
            r.start_index == self.on_hold@.len(),
            r.is_worktree_dir == is_worktree_dir,
    {
        Mark { start_index: self.on_hold.len(), is_worktree_dir }
    }
}

impl Mark {
    /// Decide what happens to the directory that just finished: an empty
    /// directory is emitted as such, otherwise its held children either fold
    /// into a single directory entry or are emitted one by one.
    pub(crate) fn reduce_held_entries<D: Delegate>(
        &self,
        num_entries: usize,
        state: &mut State,
        dir_rela_path: &Vec<u8>,
        dir_status: Status,
        dir_kind: Kind,
        dir_explicit: bool,
        opts: Options,
        out: &mut Outcome,
        delegate: &mut D,
    ) -> (r: Action)
        requires
            self.start_index <= old(state).on_hold@.len(),
            num_entries == 0 ==> self.start_index == old(state).on_hold@.len(),
            spec_state_wf(*old(state)),
            old(out).seen_entries + (old(state).on_hold@.len() - self.start_index) + 1
                <= u32::MAX,
            old(out).returned_entries <= old(out).seen_entries,
        ensures
            spec_state_wf(*final(state)),
            final(state).on_hold@.subrange(0, self.start_index as int) == old(
                state,
            ).on_hold@.subrange(0, self.start_index as int),
            final(state).on_hold_explicit@.subrange(0, self.start_index as int) == old(
                state,
            ).on_hold_explicit@.subrange(0, self.start_index as int),
            final(state).on_hold@.len() == self.start_index || final(state).on_hold@.len()
                == self.start_index + 1,
            final(state).on_hold@.len() == self.start_index + 1 ==> final(state).on_hold@.last()
                .rela_path@ == dir_rela_path@,
            final(out).seen_entries + final(state).on_hold@.len() <= old(out).seen_entries + old(
                state,
            ).on_hold@.len() + 1,
            final(out).seen_entries >= old(out).seen_entries,
            final(out).returned_entries >= old(out).returned_entries,
            final(out).returned_entries <= final(out).seen_entries,
            final(out).read_dir_calls == old(out).read_dir_calls,
            spec_history_extends(final(delegate).history(), old(delegate).history()),
            final(out).returned_entries - old(out).returned_entries == spec_n_accepted(
                final(delegate).history(),
            ) - spec_n_accepted(old(delegate).history()),
            final(out).seen_entries - old(out).seen_entries >= spec_n_emitted(
                final(delegate).history(),
            ) - spec_n_emitted(old(delegate).history()),
            num_entries == 0 ==> {
                let kind = if dir_kind is Repository {
                    Kind::Repository
                } else {
                    Kind::EmptyDirectory
                };
                &&& final(out).seen_entries == old(out).seen_entries + 1
                &&& (spec_should_emit(dir_status, Some(kind), opts) ==> final(delegate)
                    .history() == old(delegate).history().push(
                    (crate::walk::DelegateEvent::Emitted {
                        rela_path: dir_rela_path@,
                        status: dir_status,
                        kind: kind,
                        collapsed_directory_status: None,
                        accepted: r is Continue,
                    }),
                ))
                &&& (!spec_should_emit(dir_status, Some(kind), opts) ==> final(delegate)
                    .history() == old(delegate).history() && r is Continue)
            },
            num_entries > 0 ==> ((final(state).on_hold@.len() == self.start_index + 1) <==> (
            !self.is_worktree_dir && !spec_any_true(
                old(state).on_hold_explicit@.skip(self.start_index as int),
            ) && spec_collapse_status(
                old(state).on_hold@.skip(self.start_index as int),
                opts,
            ) is Some)),
            num_entries > 0 && final(state).on_hold@.len() == self.start_index + 1
                ==> spec_entry_is(
                final(state).on_hold@.last(),
                dir_rela_path@,
                spec_collapse_status(
                    old(state).on_hold@.skip(self.start_index as int),
                    opts,
                )->Some_0,
                dir_kind,
            ) && final(state).on_hold_explicit@ == old(state).on_hold_explicit@.subrange(
                0,
                self.start_index as int,
            ).push(dir_explicit),
            num_entries > 0 && final(state).on_hold@.len() == self.start_index ==> final(state)
                .on_hold_explicit@ == old(state).on_hold_explicit@.subrange(
                0,
                self.start_index as int,
            ),
            num_entries > 0 && r is Continue ==> final(out).seen_entries == old(out).seen_entries
                + (old(state).on_hold@.len() - self.start_index),
            r is Continue ==> spec_n_accepted(final(delegate).history()) - spec_n_accepted(
                old(delegate).history(),
            ) == spec_n_emitted(final(delegate).history()) - spec_n_emitted(
                old(delegate).history(),
            ),
            r is Cancel ==> spec_n_accepted(final(delegate).history()) - spec_n_accepted(
                old(delegate).history(),
            ) < spec_n_emitted(final(delegate).history()) - spec_n_emitted(
                old(delegate).history(),
            ),
            num_entries > 0 && r is Continue ==> {
                let held = old(state).on_hold@.skip(self.start_index as int);
                let flags = old(state).on_hold_explicit@.skip(self.start_index as int);
                let fold = spec_collapse_status(held, opts);
                if !self.is_worktree_dir && !spec_any_true(flags) && fold is Some {
                    final(delegate).history() == old(delegate).history()
                        + spec_emissions_of_fold(held, fold->Some_0, opts)
                } else {
                    final(delegate).history() == old(delegate).history()
                        + spec_emissions_of_held(held, opts)
                }
            },
    {
        if num_entries == 0 {
            let kind = if matches!(dir_kind, Kind::Repository) {
                dir_kind
            } else {
                Kind::EmptyDirectory
            };
            let r = emit_entry(dir_rela_path, dir_status, None, Some(kind), opts, out, delegate);
            proof {
                assert(final(state).on_hold@.subrange(0, self.start_index as int)
                    =~= old(state).on_hold@.subrange(0, self.start_index as int));
                assert(final(state).on_hold_explicit@.subrange(0, self.start_index as int)
                    =~= old(state).on_hold_explicit@.subrange(0, self.start_index as int));
            }
            r
        } else {
            match self.try_collapse(
                dir_rela_path,
                dir_kind,
                dir_explicit,
                state,
                out,
                opts,
                delegate,
            ) {
                Some(action) => action,
                None => self.emit_all_held(state, opts, out, delegate),
            }
        }
    }

    /// Emit every held child of this directory individually, stopping at a
    /// `Cancel`; the held range is cleared either way.
    pub(crate) fn emit_all_held<D: Delegate>(
        &self,
        state: &mut State,
        opts: Options,
        out: &mut Outcome,
        delegate: &mut D,
    ) -> (r: Action)
        requires
            self.start_index <= old(state).on_hold@.len(),
            spec_state_wf(*old(state)),
            old(out).seen_entries + (old(state).on_hold@.len() - self.start_index) <= u32::MAX,
            old(out).returned_entries <= old(out).seen_entries,
        ensures
            spec_state_wf(*final(state)),
            final(state).on_hold@ == old(state).on_hold@.subrange(0, self.start_index as int),
            final(state).on_hold_explicit@ == old(state).on_hold_explicit@.subrange(
                0,
                self.start_index as int,
            ),
            final(out).seen_entries + final(state).on_hold@.len() <= old(out).seen_entries + old(
                state,
            ).on_hold@.len(),
            final(out).seen_entries >= old(out).seen_entries,
            final(out).returned_entries >= old(out).returned_entries,
            final(out).returned_entries <= final(out).seen_entries,
            final(out).read_dir_calls == old(out).read_dir_calls,
            spec_history_extends(final(delegate).history(), old(delegate).history()),
            final(out).returned_entries - old(out).returned_entries == spec_n_accepted(
                final(delegate).history(),
            ) - spec_n_accepted(old(delegate).history()),
            final(out).seen_entries - old(out).seen_entries >= spec_n_emitted(
                final(delegate).history(),
            ) - spec_n_emitted(old(delegate).history()),
            r is Continue ==> final(out).seen_entries == old(out).seen_entries + (old(
                state,
            ).on_hold@.len() - self.start_index),
            r is Continue ==> final(delegate).history() == old(delegate).history()
                + spec_emissions_of_held(
                old(state).on_hold@.skip(self.start_index as int),
                opts,
            ),
            r is Continue ==> spec_n_accepted(final(delegate).history()) - spec_n_accepted(
                old(delegate).history(),
            ) == spec_n_emitted(final(delegate).history()) - spec_n_emitted(
                old(delegate).history(),
            ),
            r is Cancel ==> spec_n_accepted(final(delegate).history()) - spec_n_accepted(
                old(delegate).history(),
            ) < spec_n_emitted(final(delegate).history()) - spec_n_emitted(
                old(delegate).history(),
            ),
    {
        let ghost held = old(state).on_hold@.skip(self.start_index as int);
        let len = state.on_hold.len();
        let mut j = self.start_index;
        let mut action = Action::Continue;
        proof {
            crate::walk::lemma_extends_refl(delegate.history());
            assert(held.take(0) =~= Seq::<Entry>::empty());
            assert(old(delegate).history() + spec_emissions_of_held(held.take(0), opts)
                =~= old(delegate).history());
        }
        while j < len
            invariant_except_break
                action is Continue,
                delegate.history() == old(delegate).history() + spec_emissions_of_held(
                    held.take(j - self.start_index),
                    opts,
                ),
                spec_n_accepted(delegate.history()) - spec_n_accepted(old(delegate).history())
                    == spec_n_emitted(delegate.history()) - spec_n_emitted(
                    old(delegate).history(),
                ),
            invariant
                self.start_index <= j <= len,
                len == state.on_hold@.len(),
                state.on_hold@ == old(state).on_hold@,
                state.on_hold_explicit@ == old(state).on_hold_explicit@,
                spec_state_wf(*state),
                held == old(state).on_hold@.skip(self.start_index as int),
                old(out).seen_entries + (len - self.start_index) <= u32::MAX,
                out.seen_entries == old(out).seen_entries + (j - self.start_index),
                out.returned_entries >= old(out).returned_entries,
                out.returned_entries <= out.seen_entries,
                out.read_dir_calls == old(out).read_dir_calls,
                spec_history_extends(delegate.history(), old(delegate).history()),
                out.returned_entries - old(out).returned_entries == spec_n_accepted(
                    delegate.history(),
                ) - spec_n_accepted(old(delegate).history()),
                out.seen_entries - old(out).seen_entries >= spec_n_emitted(delegate.history())
                    - spec_n_emitted(old(delegate).history()),
            ensures
                self.start_index <= j <= len,
                action is Continue ==> j == len && delegate.history() == old(delegate).history()
                    + spec_emissions_of_held(held.take(j - self.start_index), opts)
                    && spec_n_accepted(delegate.history()) - spec_n_accepted(
                    old(delegate).history(),
                ) == spec_n_emitted(delegate.history()) - spec_n_emitted(
                    old(delegate).history(),
                ),
                action is Cancel ==> spec_n_accepted(delegate.history()) - spec_n_accepted(
                    old(delegate).history(),
                ) < spec_n_emitted(delegate.history()) - spec_n_emitted(old(delegate).history()),
            decreases len - j,
        {
            let ghost h_before = delegate.history();
            let ghost m = j - self.start_index;
            proof {
                assert(held.take(m + 1).drop_last() =~= held.take(m));
                assert(held.take(m + 1).last() == held[m]);
                assert(held[m] == state.on_hold@[j as int]);
            }
            let a = emit_entry(
                &state.on_hold[j].rela_path,
                state.on_hold[j].status,
                None,
                Some(state.on_hold[j].kind),
                opts,
                out,
                delegate,
            );
            proof {
                lemma_extends_trans(delegate.history(), h_before, old(delegate).history());
                if a is Continue {
                    assert(delegate.history() == old(delegate).history()
                        + spec_emissions_of_held(held.take(m + 1), opts)) by {
                        if spec_should_emit(held[m].status, Some(held[m].kind), opts) {
                            assert((old(delegate).history() + spec_emissions_of_held(
                                held.take(m),
                                opts,
                            )).push(delegate.history().last()) =~= old(delegate).history()
                                + spec_emissions_of_held(held.take(m), opts).push(
                                delegate.history().last(),
                            ));
                        }
                    }
                }
            }
            j = j + 1;
            if matches!(a, Action::Cancel) {
                action = Action::Cancel;
                break ;
            }
        }
        state.on_hold.truncate(self.start_index);
        state.on_hold_explicit.truncate(self.start_index);
        proof {
            if action is Continue {
                assert(held.take(len - self.start_index) =~= held);
            }
            assert(spec_held_wf(state.on_hold@)) by {
                assert forall|i: int| 0 <= i < state.on_hold@.len() implies !(
                #[trigger] state.on_hold@[i]).status.spec_is_pruned() by {
                    assert(state.on_hold@[i] == old(state).on_hold@[i]);
                }
            }
        }
        action
    }

    /// Try to fold this directory's held children into a single directory
    /// entry. A fold happens only when the decision of
    /// [`spec_collapse_status`] allows one and no held child is matched by
    /// an explicitly written pathspec pattern: an explicit match must stay
    /// visible, so it vetoes the fold. Children whose own status differs
    /// from the fold status are emitted with a dir-status tag; the rest are
    /// silently counted. The folded directory is then held itself, so a
    /// parent may fold it in turn.
    pub(crate) fn try_collapse<D: Delegate>(
        &self,
        dir_rela_path: &Vec<u8>,
        dir_kind: Kind,
        dir_explicit: bool,
        state: &mut State,
        out: &mut Outcome,
        opts: Options,
        delegate: &mut D,
    ) -> (r: Option<Action>)
        requires
            self.start_index <= old(state).on_hold@.len(),
            spec_state_wf(*old(state)),
            old(out).seen_entries + (old(state).on_hold@.len() - self.start_index) + 1
                <= u32::MAX,
            old(out).returned_entries <= old(out).seen_entries,
        ensures
            spec_state_wf(*final(state)),
            r is Some <==> !self.is_worktree_dir && !spec_any_true(
                old(state).on_hold_explicit@.skip(self.start_index as int),
            ) && spec_collapse_status(
                old(state).on_hold@.skip(self.start_index as int),
                opts,
            ) is Some,
            r is None ==> final(state).on_hold@ == old(state).on_hold@ && final(state).on_hold_explicit@ == old(state).on_hold_explicit@ && *final(out) == *old(out)
                && final(delegate).history() == old(delegate).history(),
            r is Some ==> {
                let fold = spec_collapse_status(
                    old(state).on_hold@.skip(self.start_index as int),
                    opts,
                )->Some_0;
                &&& final(state).on_hold@.len() == self.start_index + 1
                &&& final(state).on_hold@.drop_last() == old(state).on_hold@.subrange(
                    0,
                    self.start_index as int,
                )
                &&& final(state).on_hold_explicit@ == old(state).on_hold_explicit@.subrange(
                    0,
                    self.start_index as int,
                ).push(dir_explicit)
                &&& spec_entry_is(final(state).on_hold@.last(), dir_rela_path@, fold, dir_kind)
                &&& !fold.spec_is_pruned()
                &&& final(out).seen_entries == old(out).seen_entries + (old(
                    state,
                ).on_hold@.len() - self.start_index)
            },
            r == Some(Action::Continue) ==> spec_n_accepted(final(delegate).history())
                - spec_n_accepted(old(delegate).history()) == spec_n_emitted(
                final(delegate).history(),
            ) - spec_n_emitted(old(delegate).history()),
            r == Some(Action::Cancel) ==> spec_n_accepted(final(delegate).history())
                - spec_n_accepted(old(delegate).history()) < spec_n_emitted(
                final(delegate).history(),
            ) - spec_n_emitted(old(delegate).history()),
            r == Some(Action::Continue) ==> final(delegate).history() == old(delegate).history()
                + spec_emissions_of_fold(
                old(state).on_hold@.skip(self.start_index as int),
                spec_collapse_status(
                    old(state).on_hold@.skip(self.start_index as int),
                    opts,
                )->Some_0,
                opts,
            ),
            final(out).seen_entries + final(state).on_hold@.len() <= old(out).seen_entries + old(
                state,
            ).on_hold@.len() + 1,
            final(out).seen_entries >= old(out).seen_entries,
            final(out).returned_entries >= old(out).returned_entries,
            final(out).returned_entries <= final(out).seen_entries,
            final(out).read_dir_calls == old(out).read_dir_calls,
            spec_history_extends(final(delegate).history(), old(delegate).history()),
            final(out).returned_entries - old(out).returned_entries == spec_n_accepted(
                final(delegate).history(),
            ) - spec_n_accepted(old(delegate).history()),
            final(out).seen_entries - old(out).seen_entries >= spec_n_emitted(
                final(delegate).history(),
            ) - spec_n_emitted(old(delegate).history()),
    {
        proof {
            crate::walk::lemma_extends_refl(old(delegate).history());
        }
        if self.is_worktree_dir {
            return None;
        }
        let ghost held = old(state).on_hold@.skip(self.start_index as int);
        let ghost flags = old(state).on_hold_explicit@.skip(self.start_index as int);
        let len = state.on_hold.len();
        let mut expendable: usize = 0;
        let mut precious: usize = 0;
        let mut untracked: usize = 0;
        let mut explicit_match = false;
        let mut j = self.start_index;
        proof {
            assert(held.subrange(0, 0) =~= Seq::<Entry>::empty());
            assert(flags.take(0) =~= Seq::<bool>::empty());
        }
        while j < len
            invariant
                self.start_index <= j <= len,
                len == state.on_hold@.len(),
                state.on_hold@ == old(state).on_hold@,
                state.on_hold_explicit@ == old(state).on_hold_explicit@,
                spec_state_wf(*state),
                held == state.on_hold@.skip(self.start_index as int),
                flags == state.on_hold_explicit@.skip(self.start_index as int),
                (expendable as nat, precious as nat, untracked as nat) == spec_tally(
                    held.subrange(0, j - self.start_index),
                ),
                explicit_match == spec_any_true(flags.take(j - self.start_index)),
                expendable + precious + untracked <= j - self.start_index,
            decreases len - j,
        {
            proof {
                let m = j - self.start_index;
                assert(held.subrange(0, m + 1).drop_last() =~= held.subrange(0, m));
                assert(held.subrange(0, m + 1).last() == held[m]);
                assert(held[m] == state.on_hold@[j as int]);
                assert(flags[m] == state.on_hold_explicit@[j as int]);
                lemma_any_true_take_step(flags, m);
            }
            match state.on_hold[j].status {
                Status::Ignored(IgnoreKind::Expendable) => {
                    expendable = expendable + 1;
                },
                Status::Ignored(IgnoreKind::Precious) => {
                    precious = precious + 1;
                },
                Status::Untracked => {
                    untracked = untracked + 1;
                },
                _ => {},
            }
            if state.on_hold_explicit[j] {
                explicit_match = true;
            }
            j = j + 1;
        }
        proof {
            assert(held.subrange(0, len - self.start_index) =~= held);
            assert(flags.take(len - self.start_index) =~= flags);
        }
        let total = len - self.start_index;
        let dir_status = if explicit_match {
            None
        } else if matches!(opts.emit_untracked, EmissionMode::CollapseDirectory)
            && untracked != 0 && untracked + expendable + precious == total && (
        !opts.collapse_is_for_deletion || precious == 0) {
            Some(Status::Untracked)
        } else if matches!(opts.emit_ignored, Some(EmissionMode::CollapseDirectory)) {
            if expendable != 0 && expendable == total {
                Some(Status::Ignored(IgnoreKind::Expendable))
            } else if precious != 0 && precious == total {
                Some(Status::Ignored(IgnoreKind::Precious))
            } else {
                None
            }
        } else {
            None
        };
        let dir_status = match dir_status {
            Some(s) => s,
            None => {
                return None;
            },
        };
        let mut action = Action::Continue;
        let mut j = self.start_index;
        proof {
            crate::walk::lemma_extends_refl(delegate.history());
            assert(held.take(0) =~= Seq::<Entry>::empty());
            assert(old(delegate).history() + spec_emissions_of_fold(
                held.take(0),
                dir_status,
                opts,
            ) =~= old(delegate).history());
        }
        while j < len
            invariant
                self.start_index <= j <= len,
                len == state.on_hold@.len(),
                state.on_hold@ == old(state).on_hold@,
                state.on_hold_explicit@ == old(state).on_hold_explicit@,
                spec_state_wf(*state),
                held == state.on_hold@.skip(self.start_index as int),
                out.seen_entries == old(out).seen_entries + (j - self.start_index),
                out.seen_entries + (len - j) + 1 <= u32::MAX,
                out.returned_entries >= old(out).returned_entries,
                out.returned_entries <= out.seen_entries,
                out.read_dir_calls == old(out).read_dir_calls,
                spec_history_extends(delegate.history(), old(delegate).history()),
                out.returned_entries - old(out).returned_entries == spec_n_accepted(
                    delegate.history(),
                ) - spec_n_accepted(old(delegate).history()),
                out.seen_entries - old(out).seen_entries >= spec_n_emitted(delegate.history())
                    - spec_n_emitted(old(delegate).history()),
                action is Continue ==> delegate.history() == old(delegate).history()
                    + spec_emissions_of_fold(held.take(j - self.start_index), dir_status, opts),
                action is Continue ==> spec_n_accepted(delegate.history()) - spec_n_accepted(
                    old(delegate).history(),
                ) == spec_n_emitted(delegate.history()) - spec_n_emitted(
                    old(delegate).history(),
                ),
                action is Cancel ==> spec_n_accepted(delegate.history()) - spec_n_accepted(
                    old(delegate).history(),
                ) < spec_n_emitted(delegate.history()) - spec_n_emitted(old(delegate).history()),
            decreases len - j,
        {
            let ghost h_before = delegate.history();
            let ghost m = j - self.start_index;
            proof {
                assert(held.take(m + 1).drop_last() =~= held.take(m));
                assert(held.take(m + 1).last() == held[m]);
                assert(held[m] == state.on_hold@[j as int]);
            }
            let differs = state.on_hold[j].status != dir_status;
            if differs && matches!(action, Action::Continue) {
                let a = emit_entry(
                    &state.on_hold[j].rela_path,
                    state.on_hold[j].status,
                    Some(dir_status),
                    Some(state.on_hold[j].kind),
                    opts,
                    out,
                    delegate,
                );
                proof {
                    lemma_extends_trans(delegate.history(), h_before, old(delegate).history());
                    if a is Continue {
                        assert(delegate.history() == old(delegate).history()
                            + spec_emissions_of_fold(held.take(m + 1), dir_status, opts)) by {
                            if spec_should_emit(held[m].status, Some(held[m].kind), opts) {
                                assert((old(delegate).history() + spec_emissions_of_fold(
                                    held.take(m),
                                    dir_status,
                                    opts,
                                )).push(delegate.history().last()) =~= old(delegate).history()
                                    + spec_emissions_of_fold(held.take(m), dir_status, opts).push(
                                    delegate.history().last(),
                                ));
                            }
                        }
                    }
                }
                action = a;
            } else {
                out.seen_entries = out.seen_entries + 1;
            }
            j = j + 1;
        }
        state.on_hold.truncate(self.start_index);
        state.on_hold_explicit.truncate(self.start_index);
        state.on_hold.push(
            Entry {
                rela_path: crate::bytes::clone_bytes(dir_rela_path),
                status: dir_status,
                kind: dir_kind,
            },
        );
        state.on_hold_explicit.push(dir_explicit);
        proof {
            if action is Continue {
                assert(held.take(len - self.start_index) =~= held);
            }
            assert(final(state).on_hold@.drop_last() =~= old(state).on_hold@.subrange(
                0,
                self.start_index as int,
            ));
            assert forall|i: int| 0 <= i < state.on_hold@.len() implies !(
            #[trigger] state.on_hold@[i]).status.spec_is_pruned() by {
                if i < self.start_index {
                    assert(state.on_hold@[i] == old(state).on_hold@[i]);
                }
            }
        }
        Some(action)
    }
}

/// Assembling a whole frame's trace: the children's concatenated trace
/// plus what the reducer did amounts to the planned frame traversal.
proof fn lemma_frame_assembly(
    children: Seq<Node>,
    bstr: Seq<u8>,
    dir_status: Status,
    dir_kind: Kind,
    is_worktree: bool,
    dir_explicit: bool,
    opts: Options,
    index: Index,
    h0: Seq<DelegateEvent>,
    h_reduce: Seq<DelegateEvent>,
    h1: Seq<DelegateEvent>,
    entries_loop: Seq<Entry>,
    flags_loop: Seq<bool>,
    entries_final: Seq<Entry>,
    flags_final: Seq<bool>,
    mark_start: int,
    seen00: int,
    seen_loop: int,
    seen_final: int,
    rdc00: int,
    rdc_loop: int,
    rdc_final: int,
)
    requires
        children.len() > 0,
        0 <= mark_start <= entries_loop.len(),
        entries_loop.len() == flags_loop.len(),
        entries_final.len() == flags_final.len(),
        h_reduce == h0 + spec_default_children(children, bstr, opts, index).events,
        spec_planned_of(entries_loop.skip(mark_start), flags_loop.skip(mark_start))
            == spec_default_children(children, bstr, opts, index).pushes,
        seen_loop == seen00 + spec_default_children(children, bstr, opts, index).seen,
        rdc_loop == rdc00 + 1 + spec_default_children(children, bstr, opts, index).read_dirs,
        seen_final == seen_loop + (entries_loop.len() - mark_start),
        rdc_final == rdc_loop,
        ({
            let held = entries_loop.skip(mark_start);
            let flags = flags_loop.skip(mark_start);
            let fold = spec_collapse_status(held, opts);
            if !is_worktree && !spec_any_true(flags) && fold is Some {
                &&& h1 == h_reduce + spec_emissions_of_fold(held, fold->Some_0, opts)
                &&& entries_final.len() == mark_start + 1
                &&& spec_entry_is(entries_final.last(), bstr, fold->Some_0, dir_kind)
                &&& flags_final == flags_loop.subrange(0, mark_start).push(dir_explicit)
            } else {
                &&& h1 == h_reduce + spec_emissions_of_held(held, opts)
                &&& entries_final.len() == mark_start
            }
        }),
    ensures
        ({
            let t = spec_default_frame(
                children,
                bstr,
                dir_status,
                dir_kind,
                is_worktree,
                dir_explicit,
                opts,
                index,
            );
            &&& h1 == h0 + t.events
            &&& spec_planned_of(entries_final.skip(mark_start), flags_final.skip(mark_start))
                == t.pushes
            &&& seen_final == seen00 + t.seen
            &&& rdc_final == rdc00 + t.read_dirs
        }),
{
    let t_children = spec_default_children(children, bstr, opts, index);
    let held = entries_loop.skip(mark_start);
    let flags = flags_loop.skip(mark_start);
    let foldo = spec_collapse_status(held, opts);
    assert(held.len() == flags.len());
    if !is_worktree && !spec_any_true(flags) && foldo is Some {
        lemma_planned_bridge(held, flags, foldo->Some_0, opts);
        lemma_events_assoc(h0, t_children.events, spec_emissions_of_fold(
            held,
            foldo->Some_0,
            opts,
        ));
        assert(entries_final.skip(mark_start) =~= seq![entries_final.last()]);
        assert(flags_final.skip(mark_start) =~= seq![dir_explicit]);
        assert(spec_planned_of(entries_final.skip(mark_start), flags_final.skip(mark_start))
            =~= seq![
            PlannedEntry {
                rela_path: bstr,
                status: foldo->Some_0,
                kind: dir_kind,
                explicit: dir_explicit,
            },
        ]);
    } else {
        lemma_planned_bridge(held, flags, Status::Untracked, opts);
        lemma_events_assoc(h0, t_children.events, spec_emissions_of_held(held, opts));
        assert(entries_final.skip(mark_start) =~= Seq::<Entry>::empty());
        assert(flags_final.skip(mark_start) =~= Seq::<bool>::empty());
        assert(spec_planned_of(Seq::<Entry>::empty(), Seq::<bool>::empty())
            =~= Seq::<PlannedEntry>::empty());
    }
}

/// Walk the children of one directory: classify each child, recurse where
/// allowed, hold or emit the rest, and finally let the collapse engine
/// decide what the directory amounts to. A `Cancel` from the delegate
/// discards the held entries of the cancelled frame and propagates.
#[verifier::rlimit(100)]
pub(crate) fn recursive<D: Delegate>(
    is_worktree_dir: bool,
    children: &Vec<Node>,
    current_bstr: &mut Vec<u8>,
    current_status: Status,
    current_kind: Kind,
    current_explicit: bool,
    index: &Index,
    opts: Options,
    delegate: &mut D,
    out: &mut Outcome,
    state: &mut State,
) -> (r: Action)
    requires
        spec_state_wf(*old(state)),
        old(out).seen_entries + old(state).on_hold@.len() + 2 * nodes_count(children@) + 1
            <= u32::MAX,
        old(out).read_dir_calls + 1 + nodes_count(children@) <= u32::MAX,
        old(out).returned_entries <= old(out).seen_entries,
    ensures
        final(current_bstr)@ == old(current_bstr)@,
        spec_state_wf(*final(state)),
        final(state).on_hold@.subrange(0, old(state).on_hold@.len() as int) == old(
            state,
        ).on_hold@,
        final(state).on_hold_explicit@.subrange(0, old(state).on_hold_explicit@.len() as int)
            == old(state).on_hold_explicit@,
        final(state).on_hold@.len() == old(state).on_hold@.len() || final(state).on_hold@.len()
            == old(state).on_hold@.len() + 1,
        final(state).on_hold@.len() == old(state).on_hold@.len() + 1 ==> final(state).on_hold@
            .last().rela_path@ == old(current_bstr)@,
        final(out).seen_entries + final(state).on_hold@.len() <= old(out).seen_entries + old(
            state,
        ).on_hold@.len() + 2 * nodes_count(children@) + 1,
        final(out).read_dir_calls <= old(out).read_dir_calls + 1 + nodes_count(children@),
        final(out).read_dir_calls >= old(out).read_dir_calls + 1,
        final(out).seen_entries >= old(out).seen_entries,
        final(out).returned_entries >= old(out).returned_entries,
        final(out).returned_entries <= final(out).seen_entries,
        spec_history_extends(final(delegate).history(), old(delegate).history()),
        final(out).returned_entries - old(out).returned_entries == spec_n_accepted(
            final(delegate).history(),
        ) - spec_n_accepted(old(delegate).history()),
        final(out).seen_entries - old(out).seen_entries >= spec_n_emitted(
            final(delegate).history(),
        ) - spec_n_emitted(old(delegate).history()),
        r is Continue ==> final(out).seen_entries >= old(out).seen_entries + (if children@.len()
            == 0 {
            1nat
        } else {
            spec_n_nondir_children(children@, old(current_bstr)@, opts, *index)
        }),
        children@.len() == 0 ==> {
            let kind = if current_kind is Repository {
                Kind::Repository
            } else {
                Kind::EmptyDirectory
            };
            &&& final(out).seen_entries == old(out).seen_entries + 1
            &&& final(out).read_dir_calls == old(out).read_dir_calls + 1
            &&& (spec_should_emit(current_status, Some(kind), opts) ==> final(delegate)
                .history() == old(delegate).history().push(
                (crate::walk::DelegateEvent::Emitted {
                    rela_path: old(current_bstr)@,
                    status: current_status,
                    kind: kind,
                    collapsed_directory_status: None,
                    accepted: r is Continue,
                }),
            ))
            &&& (!spec_should_emit(current_status, Some(kind), opts) ==> final(delegate)
                .history() == old(delegate).history() && r is Continue)
        },
        r is Continue ==> spec_n_accepted(final(delegate).history()) - spec_n_accepted(
            old(delegate).history(),
        ) == spec_n_emitted(final(delegate).history()) - spec_n_emitted(
            old(delegate).history(),
        ),
        r is Cancel ==> spec_n_accepted(final(delegate).history()) - spec_n_accepted(
            old(delegate).history(),
        ) < spec_n_emitted(final(delegate).history()) - spec_n_emitted(old(delegate).history()),
        (r is Continue && spec_all_descends(
            final(delegate).history().skip(old(delegate).history().len() as int),
        )) ==> {
            let t = spec_default_frame(
                children@,
                old(current_bstr)@,
                current_status,
                current_kind,
                is_worktree_dir,
                current_explicit,
                opts,
                *index,
            );
            &&& final(delegate).history() == old(delegate).history() + t.events
            &&& spec_planned_of(
                final(state).on_hold@.skip(old(state).on_hold@.len() as int),
                final(state).on_hold_explicit@.skip(old(state).on_hold_explicit@.len() as int),
            ) == t.pushes
            &&& final(out).seen_entries == old(out).seen_entries + t.seen
            &&& final(out).read_dir_calls == old(out).read_dir_calls + t.read_dirs
        },
    decreases nodes_count(children@),
{
    out.read_dir_calls = out.read_dir_calls + 1;
    let num_entries = children.len();
    let mark = state.mark(is_worktree_dir);
    let n = children.len();
    let ghost mut deviated: bool = false;
    proof {
        assert(children@.subrange(0, 0) =~= Seq::<Node>::empty());
        crate::walk::lemma_extends_refl(delegate.history());
        assert(old(delegate).history() + spec_default_children(
            children@.subrange(0, 0),
            old(current_bstr)@,
            opts,
            *index,
        ).events =~= old(delegate).history());
        assert(state.on_hold@.skip(mark.start_index as int) =~= Seq::<Entry>::empty());
        assert(state.on_hold_explicit@.skip(mark.start_index as int) =~= Seq::<bool>::empty());
        assert(spec_planned_of(Seq::<Entry>::empty(), Seq::<bool>::empty())
            =~= Seq::<PlannedEntry>::empty());
    }
    let mut i: usize = 0;
    while i < n
        invariant
            n == children@.len(),
            i <= n,
            mark.start_index == old(state).on_hold@.len(),
            mark.is_worktree_dir == is_worktree_dir,
            current_bstr@ == old(current_bstr)@,
            spec_state_wf(*state),
            state.on_hold@.subrange(0, mark.start_index as int) == old(state).on_hold@,
            state.on_hold_explicit@.subrange(0, mark.start_index as int) == old(
                state,
            ).on_hold_explicit@,
            state.on_hold@.len() >= mark.start_index,
            out.seen_entries + state.on_hold@.len() <= old(out).seen_entries + old(
                state,
            ).on_hold@.len() + 2 * nodes_count(children@.subrange(0, i as int)),
            out.seen_entries + state.on_hold@.len() + 2 * (nodes_count(children@) - nodes_count(
                children@.subrange(0, i as int),
            )) + 1 <= u32::MAX,
            out.read_dir_calls <= old(out).read_dir_calls + 1 + nodes_count(
                children@.subrange(0, i as int),
            ),
            out.read_dir_calls + (nodes_count(children@) - nodes_count(
                children@.subrange(0, i as int),
            )) <= u32::MAX,
            out.read_dir_calls >= old(out).read_dir_calls + 1,
            out.seen_entries >= old(out).seen_entries,
            out.returned_entries >= old(out).returned_entries,
            out.returned_entries <= out.seen_entries,
            spec_history_extends(delegate.history(), old(delegate).history()),
            out.returned_entries - old(out).returned_entries == spec_n_accepted(
                delegate.history(),
            ) - spec_n_accepted(old(delegate).history()),
            out.seen_entries - old(out).seen_entries >= spec_n_emitted(delegate.history())
                - spec_n_emitted(old(delegate).history()),
            spec_n_accepted(delegate.history()) - spec_n_accepted(old(delegate).history())
                == spec_n_emitted(delegate.history()) - spec_n_emitted(old(delegate).history()),
            out.seen_entries - old(out).seen_entries + (state.on_hold@.len()
                - mark.start_index) >= spec_n_nondir_children(
                children@.subrange(0, i as int),
                old(current_bstr)@,
                opts,
                *index,
            ),
            i == 0 ==> out.seen_entries == old(out).seen_entries && out.read_dir_calls == old(
                out,
            ).read_dir_calls + 1 && delegate.history() == old(delegate).history(),
            !deviated ==> {
                let t = spec_default_children(
                    children@.subrange(0, i as int),
                    old(current_bstr)@,
                    opts,
                    *index,
                );
                &&& delegate.history() == old(delegate).history() + t.events
                &&& spec_planned_of(
                    state.on_hold@.skip(mark.start_index as int),
                    state.on_hold_explicit@.skip(mark.start_index as int),
                ) == t.pushes
                &&& out.seen_entries == old(out).seen_entries + t.seen
                &&& out.read_dir_calls == old(out).read_dir_calls + 1 + t.read_dirs
            },
            deviated ==> !spec_all_descends(
                delegate.history().skip(old(delegate).history().len() as int),
            ),
        decreases n - i,
    {
        proof {
            lemma_nodes_count_take_step(children@, i as int);
            lemma_nodes_count_take(children@, i + 1);
            lemma_nodes_count_index(children@, i as int);
            assert(children@.subrange(0, i + 1).drop_last() =~= children@.subrange(0, i as int));
            assert(children@.subrange(0, i + 1).last() == children@[i as int]);
        }
        let child = &children[i];
        let prev_len = current_bstr.len();
        if prev_len != 0 {
            current_bstr.push(47);
        }
        let filename_start = if prev_len == 0 { 0 } else { current_bstr.len() };
        crate::bytes::append_bytes(current_bstr, &child.name);
        proof {
            if prev_len == 0 {
                assert(current_bstr@ =~= spec_child_rela(old(current_bstr)@, child.name@));
            } else {
                assert(current_bstr@ =~= old(current_bstr)@ + seq![47u8] + child.name@);
            }
        }
        let res = classify::path(child, current_bstr, filename_start, None, opts, index);
        let status = res.0;
        let kind = res.1;
        proof {
            assert(kind == spec_child_kind(children@[i as int], old(current_bstr)@, opts, *index));
        }
        let ghost h_step = delegate.history();
        let ghost entries_step = state.on_hold@;
        let ghost flags_step = state.on_hold_explicit@;
        let descend = can_recurse(current_bstr, status, kind, delegate);
        let ghost h_ask = delegate.history();
        proof {
            lemma_extends_trans(delegate.history(), h_step, old(delegate).history());
        }
        if descend {
            let child_kind = match kind {
                Some(k) => k,
                None => vstd::pervasive::unreached(),
            };
            let ghost h_rec = delegate.history();
            let action = recursive(
                false,
                &child.children,
                current_bstr,
                status,
                child_kind,
                child.pathspec_explicit_match,
                index,
                opts,
                delegate,
                out,
                state,
            );
            proof {
                lemma_extends_trans(delegate.history(), h_rec, old(delegate).history());
            }
            if matches!(action, Action::Cancel) {
                current_bstr.truncate(prev_len);
                state.on_hold.truncate(mark.start_index);
                state.on_hold_explicit.truncate(mark.start_index);
                proof {
                    assert(current_bstr@ =~= old(current_bstr)@);
                    assert(state.on_hold@ =~= old(state).on_hold@);
                    assert(state.on_hold_explicit@ =~= old(state).on_hold_explicit@);
                    assert(final(state).on_hold@.subrange(0, old(state).on_hold@.len() as int)
                        =~= old(state).on_hold@);
                    assert(final(state).on_hold_explicit@.subrange(
                        0,
                        old(state).on_hold_explicit@.len() as int,
                    ) =~= old(state).on_hold_explicit@);
                }
                return Action::Cancel;
            }
        } else {
            if !state.held_for_directory_collapse(
                current_bstr,
                status,
                kind,
                child.pathspec_explicit_match,
                &opts,
            ) {
                let ghost h_emit = delegate.history();
                let action = emit_entry(current_bstr, status, None, kind, opts, out, delegate);
                proof {
                    lemma_extends_trans(delegate.history(), h_emit, old(delegate).history());
                }
                if matches!(action, Action::Cancel) {
                    current_bstr.truncate(prev_len);
                    state.on_hold.truncate(mark.start_index);
                    state.on_hold_explicit.truncate(mark.start_index);
                    proof {
                        assert(current_bstr@ =~= old(current_bstr)@);
                        assert(state.on_hold@ =~= old(state).on_hold@);
                        assert(state.on_hold_explicit@ =~= old(state).on_hold_explicit@);
                        assert(final(state).on_hold@.subrange(
                            0,
                            old(state).on_hold@.len() as int,
                        ) =~= old(state).on_hold@);
                        assert(final(state).on_hold_explicit@.subrange(
                            0,
                            old(state).on_hold_explicit@.len() as int,
                        ) =~= old(state).on_hold_explicit@);
                    }
                    return Action::Cancel;
                }
            }
        }
        current_bstr.truncate(prev_len);
        proof {
            assert(current_bstr@ =~= old(current_bstr)@);
            assert(state.on_hold@.subrange(0, mark.start_index as int) =~= old(state).on_hold@);
            assert(state.on_hold_explicit@.subrange(0, mark.start_index as int) =~= old(
                state,
            ).on_hold_explicit@);
            let h0 = old(delegate).history();
            let h_now = delegate.history();
            let delta_now = h_now.skip(h0.len() as int);
            let delta_prev = h_step.skip(h0.len() as int);
            let seg = h_now.skip(h_step.len() as int);
            assert(delta_now =~= delta_prev + seg);
            lemma_all_descends_split(delta_prev, seg);
            if deviated {
                // once a recursion question was refused, it stays refused
            } else if !spec_all_descends(delta_now) {
                deviated = true;
            } else {
                let t_front = spec_default_children(
                    children@.subrange(0, i as int),
                    old(current_bstr)@,
                    opts,
                    *index,
                );
                let t_child = spec_default_child(
                    children@[i as int],
                    old(current_bstr)@,
                    opts,
                    *index,
                );
                let rela = spec_child_rela(old(current_bstr)@, children@[i as int].name@);
                if descend {
                    let ask = DelegateEvent::Asked {
                        rela_path: rela,
                        status: status,
                        kind: kind->Some_0,
                        descend: true,
                    };
                    let frame = spec_default_frame(
                        children@[i as int].children@,
                        rela,
                        status,
                        kind->Some_0,
                        false,
                        children@[i as int].pathspec_explicit_match,
                        opts,
                        *index,
                    );
                    assert(h_ask == h_step.push(ask));
                    let child_delta = h_now.skip(h_ask.len() as int);
                    assert(seg =~= seq![ask] + child_delta);
                    lemma_all_descends_split(seq![ask], child_delta);
                    assert(t_child.events == seq![ask] + frame.events);
                    lemma_events_push(h_step, ask);
                    assert(h_now == (h0 + t_front.events) + t_child.events) by {
                        assert(h_now == h_ask + frame.events);
                        assert(h_ask + frame.events == (h_step + seq![ask]) + frame.events);
                        lemma_events_assoc(h_step, seq![ask], frame.events);
                    }
                } else if status.spec_can_recurse(kind) {
                    // the delegate vetoed a recursable directory: the refusal
                    // is on record, contradicting the assumed agreement
                    let ask = DelegateEvent::Asked {
                        rela_path: rela,
                        status: status,
                        kind: kind->Some_0,
                        descend: false,
                    };
                    assert(h_ask == h_step.push(ask));
                    assert(seg[0] == ask);
                    assert(false);
                } else {
                    assert(h_ask == h_step);
                    if kind is Some && opts.spec_should_hold(status) {
                        assert(t_child.events == Seq::<DelegateEvent>::empty());
                        assert(h_now == (h0 + t_front.events) + t_child.events) by {
                            assert((h0 + t_front.events) + Seq::<DelegateEvent>::empty()
                                =~= h0 + t_front.events);
                        }
                        assert(state.on_hold@.skip(entries_step.len() as int)
                            =~= seq![state.on_hold@.last()]);
                        assert(state.on_hold_explicit@.skip(flags_step.len() as int)
                            =~= seq![children@[i as int].pathspec_explicit_match]);
                        assert(spec_planned_of(
                            state.on_hold@.skip(entries_step.len() as int),
                            state.on_hold_explicit@.skip(flags_step.len() as int),
                        ) =~= t_child.pushes);
                    } else {
                        if spec_should_emit(status, kind, opts) {
                            lemma_events_push(h_step, h_now.last());
                            assert(h_now == (h0 + t_front.events) + t_child.events) by {
                                lemma_events_assoc(h0, t_front.events, t_child.events);
                                assert(h_step + t_child.events =~= h_now);
                            }
                        } else {
                            assert(h_now == (h0 + t_front.events) + t_child.events) by {
                                assert((h0 + t_front.events) + Seq::<DelegateEvent>::empty()
                                    =~= h0 + t_front.events);
                            }
                        }
                        assert(state.on_hold@.skip(entries_step.len() as int)
                            =~= Seq::<Entry>::empty());
                        assert(state.on_hold_explicit@.skip(flags_step.len() as int)
                            =~= Seq::<bool>::empty());
                        assert(spec_planned_of(Seq::<Entry>::empty(), Seq::<bool>::empty())
                            =~= Seq::<PlannedEntry>::empty());
                    }
                }
                assert(state.on_hold@.subrange(0, entries_step.len() as int) =~= entries_step);
                assert(state.on_hold_explicit@.subrange(0, flags_step.len() as int)
                    =~= flags_step);
                lemma_trace_step(
                    children@,
                    i as int,
                    old(current_bstr)@,
                    opts,
                    *index,
                    h0,
                    h_now,
                    t_child.events,
                    t_child.pushes,
                    entries_step,
                    flags_step,
                    state.on_hold@,
                    state.on_hold_explicit@,
                    mark.start_index as int,
                );
            }
        }
        i = i + 1;
    }
    proof {
        assert(children@.subrange(0, n as int) =~= children@);
    }
    let ghost h_reduce = delegate.history();
    let ghost entries_loop = state.on_hold@;
    let ghost flags_loop = state.on_hold_explicit@;
    let ghost seen_loop = out.seen_entries;
    let ghost rdc_loop = out.read_dir_calls;
    let r = mark.reduce_held_entries(
        num_entries,
        state,
        current_bstr,
        current_status,
        current_kind,
        current_explicit,
        opts,
        out,
        delegate,
    );
    proof {
        lemma_extends_trans(delegate.history(), h_reduce, old(delegate).history());
        assert(final(state).on_hold@.subrange(0, old(state).on_hold@.len() as int) =~= old(
            state,
        ).on_hold@);
        assert(final(state).on_hold_explicit@.subrange(
            0,
            old(state).on_hold_explicit@.len() as int,
        ) =~= old(state).on_hold_explicit@);
        let h0 = old(delegate).history();
        let h1 = delegate.history();
        let full_delta = h1.skip(h0.len() as int);
        if r is Continue && spec_all_descends(full_delta) {
            let loop_delta = h_reduce.skip(h0.len() as int);
            let reduce_seg = h1.skip(h_reduce.len() as int);
            assert(full_delta =~= loop_delta + reduce_seg);
            lemma_all_descends_split(loop_delta, reduce_seg);
            assert(!deviated);
            let t = spec_default_frame(
                children@,
                old(current_bstr)@,
                current_status,
                current_kind,
                is_worktree_dir,
                current_explicit,
                opts,
                *index,
            );
            if n == 0 {
                assert(h1 =~= h0 + t.events);
                assert(final(state).on_hold@.skip(old(state).on_hold@.len() as int)
                    =~= Seq::<Entry>::empty());
                assert(final(state).on_hold_explicit@.skip(
                    old(state).on_hold_explicit@.len() as int,
                ) =~= Seq::<bool>::empty());
                assert(spec_planned_of(Seq::<Entry>::empty(), Seq::<bool>::empty())
                    =~= Seq::<PlannedEntry>::empty());
                assert(t.pushes =~= Seq::<PlannedEntry>::empty());
            } else {
                lemma_frame_assembly(
                    children@,
                    old(current_bstr)@,
                    current_status,
                    current_kind,
                    is_worktree_dir,
                    current_explicit,
                    opts,
                    *index,
                    h0,
                    h_reduce,
                    h1,
                    entries_loop,
                    flags_loop,
                    final(state).on_hold@,
                    final(state).on_hold_explicit@,
                    mark.start_index as int,
                    old(out).seen_entries as int,
                    seen_loop as int,
                    final(out).seen_entries as int,
                    old(out).read_dir_calls as int,
                    rdc_loop as int,
                    final(out).read_dir_calls as int,
                );
            }
        }
    }
    r
}

} // verus!
