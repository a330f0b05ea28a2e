//! The executor: reruns the actions marked as needing a run, rewinding what
//! their last run did first, together with every action synced with it.

use std::collections::HashSet;

use vstd::prelude::*;

use crate::action::{ActionExt, RunActionError};
use crate::tracking::{ids_of, key_listed};
use crate::action_tree::{
    executing_below, ActionNodeKey, ActionTree, ActionTreeExt, ClearChildrenError, NodeExecuting, RemoveNodeError, UnknownNode,
};
use crate::context::Context;
use crate::schedule::{
    rewind_reach, topmost_marked, affected, affected_nodes, first_marked, rewind_set, rewind_targets, rewinds_to_run, unsync_subtree, Subscription, TrackedWrite,
    TreeOrder,
};

verus! {

broadcast use vstd::std_specs::hash::group_hash_axioms;

/// A step the executor takes.
#[derive(Clone, Copy, PartialEq, Eq, Debug)]
pub enum ExecStep {
    /// The subtree of the node was taken out of every sync key, before the
    /// undos below it ran; the flag records whether no node of the subtree
    /// was left in one.
    Unsynced(ActionNodeKey, bool),
    /// The undo stored at the node ran, and the node was removed.
    Undo(ActionNodeKey),
    /// The node was rewound: the rewinds below it ran, and its children
    /// were removed.
    Rewound(ActionNodeKey),
    /// The action stored at the node ran.
    Ran(ActionNodeKey),
}

/// A set of marks after `steps`, starting from `start`: a rewind marks the
/// node, a run unmarks it.
pub open spec fn marks_after(start: Set<u64>, steps: Seq<ExecStep>) -> Set<u64>
    decreases steps.len(),
{
    if steps.len() == 0 {
        start
    } else {
        let before = marks_after(start, steps.drop_last());
        match steps.last() {
            ExecStep::Unsynced(_, _) => before,
            ExecStep::Undo(_) => before,
            ExecStep::Rewound(n) => before.insert(n.id()),
            ExecStep::Ran(n) => before.remove(n.id()),
        }
    }
}

/// Each action that ran in `steps` carried the mark when it ran, the marks
/// starting as `start`.
pub open spec fn runs_marked(start: Set<u64>, steps: Seq<ExecStep>) -> bool {
    forall|i: int| 0 <= i < steps.len() && #[trigger] steps[i] is Ran ==> marks_after(start, steps.take(i)).contains(
        steps[i]->Ran_0.id(),
    )
}

/// A step that changes no mark: unsyncing a subtree, or running an undo.
pub open spec fn quiet_step(step: ExecStep) -> bool {
    step is Unsynced || step is Undo
}

/// No node of the subtree of `node` is in a sync key.
pub open spec fn subtree_unsynced(ctx: Context, node: ActionNodeKey) -> bool {
    forall|g: u64, k: ActionNodeKey| #[trigger] ctx.syncs().contains_key(g) && #[trigger] ctx.tree().top_down(node, false).contains(k)
        ==> !ctx.syncs()[g].contains(k.id())
}

/// No action ran in `steps`.
pub open spec fn no_runs(steps: Seq<ExecStep>) -> bool {
    forall|i: int| 0 <= i < steps.len() ==> !(#[trigger] steps[i] is Ran)
}

/// The steps `b` took after `a`.
pub open spec fn added_steps(a: Marks, b: Marks) -> Seq<ExecStep> {
    b.trace_view().skip(a.trace_view().len() as int)
}

/// `b` is `a` after more steps of the executor: its trace goes on from that
/// of `a`, and its rewound and needs-run marks are what those steps make of
/// those of `a`.
pub open spec fn marks_follow(a: Marks, b: Marks) -> bool {
    &&& a.trace_view().len() <= b.trace_view().len()
    &&& b.trace_view().take(a.trace_view().len() as int) == a.trace_view()
    &&& b.rewound_view() == marks_after(a.rewound_view(), added_steps(a, b))
    &&& b.needs_run_view() == marks_after(a.needs_run_view(), added_steps(a, b))
}

/// Marks after steps taken one after the other are the marks after each in
/// turn.
proof fn lemma_marks_after_append(start: Set<u64>, a: Seq<ExecStep>, b: Seq<ExecStep>)
    ensures
        marks_after(start, a + b) == marks_after(marks_after(start, a), b),
    decreases b.len(),
{
    if b.len() == 0 {
        assert(a + b =~= a);
    } else {
        assert((a + b).drop_last() =~= a + b.drop_last());
        assert((a + b).last() == b.last());
        lemma_marks_after_append(start, a, b.drop_last());
    }
}

/// Steps without runs only add marks.
proof fn lemma_no_runs_grow(start: Set<u64>, s: Seq<ExecStep>)
    requires
        no_runs(s),
    ensures
        start.subset_of(marks_after(start, s)),
        runs_marked(start, s),
    decreases s.len(),
{
    if s.len() > 0 {
        assert(no_runs(s.drop_last())) by {
            assert forall|i: int| 0 <= i < s.drop_last().len() implies !(#[trigger] s.drop_last()[i] is Ran) by {
                assert(s.drop_last()[i] == s[i]);
            }
        }
        lemma_no_runs_grow(start, s.drop_last());
        assert(!(s[s.len() - 1] is Ran));
    }
}

/// Runs each carrying its mark, in two stretches, carry it throughout.
proof fn lemma_runs_marked_append(start: Set<u64>, a: Seq<ExecStep>, b: Seq<ExecStep>)
    requires
        runs_marked(start, a),
        runs_marked(marks_after(start, a), b),
    ensures
        runs_marked(start, a + b),
{
    assert forall|i: int| 0 <= i < (a + b).len() && #[trigger] (a + b)[i] is Ran implies marks_after(
        start,
        (a + b).take(i),
    ).contains((a + b)[i]->Ran_0.id()) by {
        if i < a.len() {
            assert((a + b).take(i) =~= a.take(i));
            assert((a + b)[i] == a[i]);
        } else {
            let j = i - a.len();
            assert((a + b).take(i) =~= a + b.take(j));
            assert((a + b)[i] == b[j]);
            lemma_marks_after_append(start, a, b.take(j));
        }
    }
}

/// Following is transitive, and the steps of the whole are those of the
/// parts, one after the other.
proof fn lemma_follow_trans(a: Marks, b: Marks, c: Marks)
    requires
        marks_follow(a, b),
        marks_follow(b, c),
    ensures
        marks_follow(a, c),
        added_steps(a, c) == added_steps(a, b) + added_steps(b, c),
{
    let (ta, tb, tc) = (a.trace_view(), b.trace_view(), c.trace_view());
    assert(tc.take(ta.len() as int) =~= tb.take(ta.len() as int));
    assert(tc.skip(ta.len() as int) =~= tb.skip(ta.len() as int) + tc.skip(tb.len() as int));
    lemma_marks_after_append(a.rewound_view(), added_steps(a, b), added_steps(b, c));
    lemma_marks_after_append(a.needs_run_view(), added_steps(a, b), added_steps(b, c));
}

/// Marks are followed by themselves.
proof fn lemma_follow_refl(a: Marks)
    ensures
        marks_follow(a, a),
        added_steps(a, a) == Seq::<ExecStep>::empty(),
{
    assert(a.trace_view().take(a.trace_view().len() as int) =~= a.trace_view());
    assert(added_steps(a, a) =~= Seq::<ExecStep>::empty());
}

/// The executor's marks on nodes: which actions need a run and which were
/// rewound since their last run, with the steps the executor took.
pub struct Marks {
    needs_run: HashSet<u64>,
    rewound: HashSet<u64>,
    /// The steps the executor took, first to last.
    trace: Ghost<Seq<ExecStep>>,
}

impl Marks {
    /// The numbers of the actions that need a run.
    pub closed spec fn needs_run_view(self) -> Set<u64> {
        self.needs_run@
    }

    /// The numbers of the actions rewound since their last run.
    pub closed spec fn rewound_view(self) -> Set<u64> {
        self.rewound@
    }

    /// The steps the executor took with these marks, first to last.
    pub closed spec fn trace_view(self) -> Seq<ExecStep> {
        self.trace@
    }

    /// No marks.
    pub fn new() -> (res: Self)
        ensures
            res.needs_run_view() == Set::<u64>::empty(),
            res.rewound_view() == Set::<u64>::empty(),
            res.trace_view() == Seq::<ExecStep>::empty(),
    {
        Marks { needs_run: HashSet::new(), rewound: HashSet::new(), trace: Ghost(Seq::empty()) }
    }

    /// Marks a new action: it needs its first run and has nothing to rewind.
    pub fn mark_new_action(&mut self, node: ActionNodeKey)
        ensures
            final(self).needs_run_view() == old(self).needs_run_view().insert(node.id()),
            final(self).rewound_view() == old(self).rewound_view().insert(node.id()),
            final(self).trace_view() == old(self).trace_view(),
    {
        self.needs_run.insert(node.to_id());
        self.rewound.insert(node.to_id());
    }

    /// Marks `node` as needing a run.
    pub fn mark_needs_run(&mut self, node: u64)
        ensures
            final(self).needs_run_view() == old(self).needs_run_view().insert(node),
            final(self).rewound_view() == old(self).rewound_view(),
            final(self).trace_view() == old(self).trace_view(),
    {
        self.needs_run.insert(node);
    }

    /// Whether `node` needs a run.
    pub fn needs_run(&self, node: ActionNodeKey) -> (res: bool)
        ensures
            res == self.needs_run_view().contains(node.id()),
    {
        self.needs_run.contains(&node.to_id())
    }

    /// Whether `node` was rewound since its last run.
    pub fn is_rewound(&self, node: ActionNodeKey) -> (res: bool)
        ensures
            res == self.rewound_view().contains(node.id()),
    {
        self.rewound.contains(&node.to_id())
    }
}

/// Why a rewind stopped: a node it works on is gone, or a rewind's run or
/// removal failed.
#[derive(Clone, Copy, PartialEq, Eq, Debug)]
pub enum RewindError {
    UnknownNode(UnknownNode),
    RunActionError(RunActionError),
    RemoveNodeError(RemoveNodeError),
    ClearChildrenError(ClearChildrenError),
}

/// `b` holds the same marks as `a`.
pub open spec fn marks_unchanged(a: Marks, b: Marks) -> bool {
    &&& b.needs_run_view() == a.needs_run_view()
    &&& b.rewound_view() == a.rewound_view()
}

/// `b` is `a` with `node` marked as rewound and needing a run.
pub open spec fn marks_rewound(a: Marks, b: Marks, node: ActionNodeKey) -> bool {
    &&& b.needs_run_view() == a.needs_run_view().insert(node.id())
    &&& b.rewound_view() == a.rewound_view().insert(node.id())
}

/// Every mark of `a` is in `b`, and what `b` marks as rewound beyond `a`
/// it also marks as needing a run.
pub open spec fn marks_grown(a: Marks, b: Marks) -> bool {
    &&& a.needs_run_view().subset_of(b.needs_run_view())
    &&& a.rewound_view().subset_of(b.rewound_view())
    &&& forall|x: u64| #[trigger] b.rewound_view().contains(x) && !a.rewound_view().contains(x)
        ==> b.needs_run_view().contains(x)
}

/// The rewinds below `node` (and `node` itself, if it is one), last to first
/// in the order of a walk from `node`.
pub open spec fn rewinds_of(ctx: Context, node: ActionNodeKey) -> Seq<ActionNodeKey> {
    ctx.tree().top_down(node, false).reverse().filter(|k: ActionNodeKey| ctx.rewind_ids().contains(k.id()))
}

/// The undos a rewind of `node` runs: the rewinds strictly below it, last
/// to first.
pub open spec fn undos_of(ctx: Context, node: ActionNodeKey) -> Seq<ActionNodeKey> {
    rewinds_of(ctx, node).filter(other_than(node))
}

/// Whether a key is not `node`.
pub open spec fn other_than(node: ActionNodeKey) -> spec_fn(ActionNodeKey) -> bool {
    |k: ActionNodeKey| k != node
}

/// The steps of running `undos`, one after the other.
pub open spec fn undo_steps(undos: Seq<ActionNodeKey>) -> Seq<ExecStep> {
    undos.map_values(|k: ActionNodeKey| ExecStep::Undo(k))
}

/// Rewinds `node`: takes its subtree out of every sync key, runs the rewinds
/// below it last to first and removes them, takes it out of every sync key
/// again (the undos may have synced it), removes its children, and marks it
/// as rewound and needing a run.
pub fn rewind_node(ctx: &mut Context, marks: &mut Marks, node: ActionNodeKey) -> (res: Result<(), RewindError>)
    ensures
        final(ctx).current() == old(ctx).current(),
        marks_follow(*old(marks), *final(marks)),
        no_runs(added_steps(*old(marks), *final(marks))),
        rewind_steps(added_steps(*old(marks), *final(marks)), seq![node]),
        res is Ok ==> {
            &&& old(ctx).tree().has(node)
            &&& added_steps(*old(marks), *final(marks)) == unsync_then_undos(node, undos_of(*old(ctx), node)).push(
                ExecStep::Rewound(node),
            )
            &&& final(marks).needs_run_view() == old(marks).needs_run_view().insert(node.id())
            &&& final(marks).rewound_view() == old(marks).rewound_view().insert(node.id())
            &&& final(ctx).tree().has(node)
            &&& final(ctx).tree().children_of(node).len() == 0
            &&& forall|g: u64| #[trigger] final(ctx).syncs().contains_key(g) ==> !final(ctx).syncs()[g].contains(
                node.id(),
            )
        },
        res is Err ==> final(marks).needs_run_view() == old(marks).needs_run_view() && final(marks).rewound_view()
            == old(marks).rewound_view(),
        res matches Err(RewindError::UnknownNode(e)) ==> e == UnknownNode(node),
        !old(ctx).tree().has(node) ==> res == Err::<(), RewindError>(RewindError::UnknownNode(UnknownNode(node)))
            && *final(ctx) == *old(ctx) && *final(marks) == *old(marks),
        old(ctx).tree().has(node) && !executing_below(*old(ctx), node) && undos_of(*old(ctx), node).len() == 0
            ==> res is Ok,
        undos_of(*old(ctx), node).len() == 0 && res is Ok ==> {
            &&& final(ctx).tree().removed_from(old(ctx).tree(), old(ctx).tree().bottom_up(node, false).drop_last().to_set(), node)
            &&& final(ctx).rewind_ids() == old(ctx).rewind_ids()
        },
        marks_unchanged(*old(marks), *final(marks)) || marks_rewound(*old(marks), *final(marks), node),
{
    proof {
        lemma_follow_refl(*marks);
    }
    if let Err(e) = unsync_subtree(ctx, node) {
        return Err(RewindError::UnknownNode(e));
    }
    marks.trace = Ghost(marks.trace@.push(ExecStep::Unsynced(node, subtree_unsynced(*ctx, node))));
    proof {
        use_type_invariant(&*ctx);
        assert forall|g: u64, k: ActionNodeKey| #[trigger] ctx.syncs().contains_key(g) && #[trigger] ctx.tree().top_down(
            node,
            false,
        ).contains(k) implies !ctx.syncs()[g].contains(k.id()) by {
            lemma_ids_of_contains(old(ctx).tree().top_down(node, false), k);
        }
        assert(subtree_unsynced(*ctx, node));
        let s0 = seq![ExecStep::Unsynced(node, true)];
        assert(marks.trace_view() =~= old(marks).trace_view() + s0);
        assert(quiet_step(s0[0]));
        lemma_follow_quiet(*old(marks), *marks, s0);
    }
    let rewinds = match rewinds_to_run(ctx, node, &ctx.rewinds) {
        Ok(rewinds) => rewinds,
        Err(e) => {
            return Err(RewindError::UnknownNode(e));
        },
    };
    let ghost c1 = *ctx;
    let ghost ne = other_than(node);
    let ghost none = undos_of(*old(ctx), node).len() == 0;
    proof {
        assert(rewinds@ == rewinds_of(*old(ctx), node));
        assert(rewinds@.take(0) =~= Seq::<ActionNodeKey>::empty());
        assert(rewinds@.take(0).filter(ne) =~= Seq::<ActionNodeKey>::empty());
        assert(marks.trace_view() =~= old(marks).trace_view() + unsync_then_undos(node, rewinds@.take(0).filter(ne)));
        lemma_unsync_then_undos_quiet(node, rewinds@.take(0).filter(ne));
        lemma_follow_quiet(*old(marks), *marks, unsync_then_undos(node, rewinds@.take(0).filter(ne)));
    }
    let n = rewinds.len();
    let mut i: usize = 0;
    while i < n
        invariant
            0 <= i <= n,
            n == rewinds@.len(),
            rewinds@ == rewinds_of(*old(ctx), node),
            ne == other_than(node),
            none == (undos_of(*old(ctx), node).len() == 0),
            none ==> *ctx == c1,
            old(ctx).tree().has(node),
            ctx.current() == old(ctx).current(),
            marks.needs_run_view() == old(marks).needs_run_view(),
            marks.rewound_view() == old(marks).rewound_view(),
            marks.trace_view() == old(marks).trace_view() + unsync_then_undos(node, rewinds@.take(i as int).filter(ne)),
            marks_follow(*old(marks), *marks),
            no_runs(added_steps(*old(marks), *marks)),
            rewind_steps(added_steps(*old(marks), *marks), seq![node]),
        decreases n - i,
    {
        let rewind = rewinds[i];
        proof {
            reveal(Seq::filter);
            assert(rewinds@.take(i + 1).drop_last() =~= rewinds@.take(i as int));
            assert(rewinds@.take(i + 1).last() == rewind);
            if rewind != node && none {
                rewinds@.lemma_filter_contains(ne, i as int);
                assert(undos_of(*old(ctx), node).contains(rewind));
            }
        }
        if rewind != node {
            if let Err(e) = ctx.run_action(rewind) {
                return Err(RewindError::RunActionError(e));
            }
            if let Err(e) = ctx.remove_node(rewind) {
                return Err(RewindError::RemoveNodeError(e));
            }
            marks.trace = Ghost(marks.trace@.push(ExecStep::Undo(rewind)));
            proof {
                let f = |k: ActionNodeKey| ExecStep::Undo(k);
                assert(rewinds@.take(i + 1).filter(ne) == rewinds@.take(i as int).filter(ne).push(rewind));
                assert(rewinds@.take(i + 1).filter(ne).map_values(f) =~= rewinds@.take(i as int).filter(ne).map_values(
                    f,
                ).push(ExecStep::Undo(rewind)));
                assert(marks.trace_view() =~= old(marks).trace_view() + unsync_then_undos(node, rewinds@.take(i + 1).filter(ne)));
                lemma_unsync_then_undos_quiet(node, rewinds@.take(i + 1).filter(ne));
                lemma_follow_quiet(*old(marks), *marks, unsync_then_undos(node, rewinds@.take(i + 1).filter(ne)));
            }
        } else {
            proof {
                assert(rewinds@.take(i + 1).filter(ne) == rewinds@.take(i as int).filter(ne));
            }
        }
        i = i + 1;
    }
    proof {
        assert(rewinds@.take(n as int) =~= rewinds@);
        lemma_unsync_then_undos_quiet(node, undos_of(*old(ctx), node));
        lemma_follow_quiet(*old(marks), *marks, unsync_then_undos(node, undos_of(*old(ctx), node)));
    }
    let ghost c2 = *ctx;
    if let Err(e) = unsync_subtree(ctx, node) {
        return Err(RewindError::UnknownNode(e));
    }
    proof {
        use_type_invariant(&*ctx);
        c2.tree().lemma_walk_facts(node, false, false);
        lemma_ids_of_contains(c2.tree().top_down(node, false), node);
    }
    let ghost c3 = *ctx;
    match ctx.clear_children(node) {
        Ok(_) => {},
        Err(e) => {
            return Err(RewindError::ClearChildrenError(e));
        },
    }
    proof {
        if none {
            assert(c2 == c1);
            assert(c3.tree() == old(ctx).tree());
            assert(c3.rewind_ids() == old(ctx).rewind_ids());
        }
    }
    marks.needs_run.insert(node.to_id());
    marks.rewound.insert(node.to_id());
    marks.trace = Ghost(marks.trace@.push(ExecStep::Rewound(node)));
    proof {
        let added = unsync_then_undos(node, undos_of(*old(ctx), node));
        lemma_unsync_then_undos_quiet(node, undos_of(*old(ctx), node));
        assert(marks.trace_view() =~= old(marks).trace_view() + added.push(ExecStep::Rewound(node)));
        assert(marks.trace_view().take(old(marks).trace_view().len() as int) =~= old(marks).trace_view());
        assert(added_steps(*old(marks), *marks) =~= added.push(ExecStep::Rewound(node)));
        assert(added.push(ExecStep::Rewound(node)).drop_last() =~= added);
        lemma_undos_keep(old(marks).rewound_view(), added);
        lemma_undos_keep(old(marks).needs_run_view(), added);
        assert(seq![node][0] == node);
        lemma_rewind_steps_node(undos_of(*old(ctx), node), node, seq![node]);
        assert forall|j: int| 0 <= j < added.push(ExecStep::Rewound(node)).len() implies !(
        #[trigger] added.push(ExecStep::Rewound(node))[j] is Ran) by {
            if j < added.len() {
                assert(added.push(ExecStep::Rewound(node))[j] == added[j]);
            }
        }

    }
    Ok(())
}

/// Marks whose trace gained only steps that change no mark, and whose
/// marks stayed, follow the marks they came from.
proof fn lemma_follow_quiet(a: Marks, b: Marks, steps: Seq<ExecStep>)
    requires
        b.trace_view() == a.trace_view() + steps,
        forall|j: int| 0 <= j < steps.len() ==> quiet_step(#[trigger] steps[j]),
        b.rewound_view() == a.rewound_view(),
        b.needs_run_view() == a.needs_run_view(),
    ensures
        marks_follow(a, b),
        added_steps(a, b) == steps,
        no_runs(added_steps(a, b)),
        forall|t: Seq<ActionNodeKey>| rewind_steps(#[trigger] added_steps(a, b), t),
{
    assert(b.trace_view().take(a.trace_view().len() as int) =~= a.trace_view());
    assert(added_steps(a, b) =~= steps);
    lemma_undos_keep(a.rewound_view(), steps);
    lemma_undos_keep(a.needs_run_view(), steps);
}

/// The steps of a rewind of `node` up to its undos: unsyncing its subtree,
/// then the undos.
pub open spec fn unsync_then_undos(node: ActionNodeKey, undos: Seq<ActionNodeKey>) -> Seq<ExecStep> {
    seq![ExecStep::Unsynced(node, true)] + undo_steps(undos)
}

proof fn lemma_unsync_then_undos_quiet(node: ActionNodeKey, undos: Seq<ActionNodeKey>)
    ensures
        forall|j: int| 0 <= j < unsync_then_undos(node, undos).len() ==> quiet_step(
            #[trigger] unsync_then_undos(node, undos)[j],
        ),
{
    let s = unsync_then_undos(node, undos);
    assert forall|j: int| 0 <= j < s.len() implies quiet_step(#[trigger] s[j]) by {
        if j > 0 {
            assert(s[j] == undo_steps(undos)[j - 1]);
        }
    }
}

/// A key of `s` has its number among the numbers of `s`.
proof fn lemma_ids_of_contains(s: Seq<ActionNodeKey>, k: ActionNodeKey)
    requires
        s.contains(k),
    ensures
        ids_of(s).contains(k.id()),
{
    let j = choose|j: int| 0 <= j < s.len() && s[j] == k;
    assert(s.map_values(|x: ActionNodeKey| x.id())[j] == k.id());
}

/// Steps of a rewind of the nodes of `targets`: undos, and the rewinds of
/// those nodes.
pub open spec fn rewind_steps(steps: Seq<ExecStep>, targets: Seq<ActionNodeKey>) -> bool {
    forall|i: int| 0 <= i < steps.len() ==> quiet_step(#[trigger] steps[i]) || (steps[i] is Rewound && targets.contains(
        steps[i]->Rewound_0,
    ))
}

proof fn lemma_rewind_steps_append(a: Seq<ExecStep>, b: Seq<ExecStep>, targets: Seq<ActionNodeKey>)
    requires
        rewind_steps(a, targets),
        rewind_steps(b, targets),
    ensures
        rewind_steps(a + b, targets),
{
    assert forall|i: int| 0 <= i < (a + b).len() implies quiet_step(#[trigger] (a + b)[i]) || ((a + b)[i] is Rewound
        && targets.contains((a + b)[i]->Rewound_0)) by {
        if i < a.len() {
            assert((a + b)[i] == a[i]);
        } else {
            assert((a + b)[i] == b[i - a.len()]);
        }
    }
}

/// Steps that rewind only `target` rewind only nodes of `targets`, which
/// holds it.
proof fn lemma_rewind_steps_widen(s: Seq<ExecStep>, target: ActionNodeKey, targets: Seq<ActionNodeKey>)
    requires
        rewind_steps(s, seq![target]),
        targets.contains(target),
    ensures
        rewind_steps(s, targets),
{
    assert forall|i: int| 0 <= i < s.len() implies quiet_step(#[trigger] s[i]) || (s[i] is Rewound && targets.contains(
        s[i]->Rewound_0,
    )) by {
        if s[i] is Rewound {
            assert(seq![target].contains(s[i]->Rewound_0));
            let j = choose|j: int| 0 <= j < 1 && seq![target][j] == s[i]->Rewound_0;
        }
    }
}

proof fn lemma_rewind_steps_node(undos: Seq<ActionNodeKey>, target: ActionNodeKey, targets: Seq<ActionNodeKey>)
    requires
        targets.contains(target),
    ensures
        rewind_steps(unsync_then_undos(target, undos).push(ExecStep::Rewound(target)), targets),
{
    let pre = unsync_then_undos(target, undos);
    let s = pre.push(ExecStep::Rewound(target));
    lemma_unsync_then_undos_quiet(target, undos);
    assert forall|i: int| 0 <= i < s.len() implies quiet_step(#[trigger] s[i]) || (s[i] is Rewound && targets.contains(
        s[i]->Rewound_0,
    )) by {
        if i < pre.len() {
            assert(s[i] == pre[i]);
        }
    }
}

/// No node strictly below `t` stores a rewind.
pub open spec fn no_undos_below(ctx: Context, t: ActionNodeKey) -> bool {
    forall|k: ActionNodeKey| #[trigger] ctx.tree().top_down(t, false).contains(k) && k != t ==> !ctx.rewind_ids().contains(
        k.id(),
    )
}

/// With no rewind strictly below `t`, a rewind of `t` runs no undo.
proof fn lemma_no_undos(ctx: Context, t: ActionNodeKey)
    requires
        no_undos_below(ctx, t),
    ensures
        undos_of(ctx, t).len() == 0,
{
    let r = rewinds_of(ctx, t);
    let td = ctx.tree().top_down(t, false);
    let p = |k: ActionNodeKey| ctx.rewind_ids().contains(k.id());
    if undos_of(ctx, t).len() > 0 {
        let x = undos_of(ctx, t)[0];
        r.lemma_filter_pred(other_than(t), 0);
        assert(undos_of(ctx, t).contains(x));
        r.lemma_filter_contains_rev(other_than(t), x);
        let i = choose|i: int| 0 <= i < r.len() && r[i] == x;
        assert(r == td.reverse().filter(p));
        td.reverse().lemma_filter_pred(p, i);
        td.reverse().lemma_filter_contains_rev(p, x);
        let j = choose|j: int| 0 <= j < td.reverse().len() && td.reverse()[j] == x;
        assert(td[td.len() - 1 - j] == x);
        assert(td.contains(x));
    }
}

/// Every node of `b` is a node of `a`, with the same parent and depth.
pub open spec fn kept_within(a: ActionTree, b: ActionTree) -> bool {
    forall|k: ActionNodeKey| #[trigger] b.has(k) ==> a.has(k) && b.parent_of(k) == a.parent_of(k) && b.depth_of(k)
        == a.depth_of(k)
}

/// A node kept with its parents and depths keeps its ancestors.
proof fn lemma_ancestors_kept(a: ActionTree, b: ActionTree, x: ActionNodeKey)
    requires
        a.wf(),
        b.wf(),
        kept_within(a, b),
        b.has(x),
    ensures
        b.ancestors_of(x) == a.ancestors_of(x),
    decreases b.depth_of(x),
{
    b.lemma_ancestors_unfold(x);
    a.lemma_ancestors_unfold(x);
    if let Some(p) = b.parent_of(x) {
        lemma_ancestors_kept(a, b, p);
    }
}

/// What `b` holds below `t`, `a` held below `t` too.
proof fn lemma_below_kept(a: ActionTree, b: ActionTree, t: ActionNodeKey, k: ActionNodeKey)
    requires
        a.wf(),
        b.wf(),
        kept_within(a, b),
        b.has(t),
        b.top_down(t, false).contains(k),
    ensures
        a.top_down(t, false).contains(k),
{
    b.lemma_walk_is_subtree(t, false, false, k);
    a.lemma_walk_is_subtree(t, false, false, k);
    if k != t {
        lemma_ancestors_kept(a, b, k);
    }
}

/// Undo steps leave marks as they are.
proof fn lemma_undos_keep(start: Set<u64>, s: Seq<ExecStep>)
    requires
        forall|j: int| 0 <= j < s.len() ==> quiet_step(#[trigger] s[j]),
    ensures
        marks_after(start, s) == start,
    decreases s.len(),
{
    if s.len() > 0 {
        lemma_undos_keep(start, s.drop_last());
        assert(quiet_step(s[s.len() - 1]));
    }
}

/// Rewinds `node` and every action a rewind of it reaches through sync
/// keys within the tree of `tree_root`: of those, each one that no other
/// one is above is rewound, last to first, unless it already is.
pub fn rewind_action(ctx: &mut Context, marks: &mut Marks, node: ActionNodeKey, tree_root: ActionNodeKey) -> (res: Result<(), RewindError>)
    requires
        !old(marks).rewound_view().contains(node.id()),
    ensures
        res is Ok ==> {
            &&& final(marks).rewound_view() == old(marks).rewound_view().union(key_ids(rewind_targets(*old(ctx), tree_root, node)))
            &&& final(marks).needs_run_view() == old(marks).needs_run_view().union(
                key_ids(rewind_targets(*old(ctx), tree_root, node)).difference(old(marks).rewound_view()),
            )
        },
        final(ctx).current() == old(ctx).current(),
        marks_grown(*old(marks), *final(marks)),
        marks_follow(*old(marks), *final(marks)),
        rewind_steps(added_steps(*old(marks), *final(marks)), rewind_targets(*old(ctx), tree_root, node)),
        rewind_unhindered(*old(ctx), tree_root, node) ==> res is Ok,
        !old(ctx).tree().has(tree_root) ==> res == Err::<(), RewindError>(RewindError::UnknownNode(UnknownNode(tree_root)))
            && *final(ctx) == *old(ctx) && *final(marks) == *old(marks),
        old(ctx).tree().has(tree_root) && !old(ctx).tree().has(node) ==> res == Err::<(), RewindError>(
            RewindError::UnknownNode(UnknownNode(node)),
        ) && *final(ctx) == *old(ctx) && *final(marks) == *old(marks),
        res is Ok ==> old(ctx).tree().has(tree_root) && old(ctx).tree().has(node) && forall|i: int|
            0 <= i < rewind_targets(*old(ctx), tree_root, node).len() ==> {
                let id = (#[trigger] rewind_targets(*old(ctx), tree_root, node)[i]).id();
                &&& final(marks).rewound_view().contains(id)
                &&& !old(marks).rewound_view().contains(id) ==> final(marks).needs_run_view().contains(id)
            },
{
    proof {
        lemma_follow_refl(*marks);
    }
    let order = match TreeOrder::new(ctx, tree_root) {
        Ok(order) => order,
        Err(e) => {
            return Err(RewindError::UnknownNode(e));
        },
    };
    if !ctx.contains_node(node) {
        return Err(RewindError::UnknownNode(UnknownNode(node)));
    }
    proof {
        use_type_invariant(&*ctx);
        ctx.tree().lemma_walk_facts(tree_root, false, false);
        assert forall|i: int| 0 <= i < order@.len() implies ctx.tree().has(#[trigger] order@[i]) by {
            assert(order@.contains(order@[i]));
        }
    }
    let to_rewind = rewind_set(ctx, &order, node);
    let targets = match first_marked(ctx, tree_root, true, &to_rewind) {
        Ok(targets) => targets,
        Err(e) => {
            return Err(RewindError::UnknownNode(e));
        },
    };
    let n = targets.len();
    let ghost goal = rewind_targets(*old(ctx), tree_root, node);
    let ghost quiet = rewind_unhindered(*old(ctx), tree_root, node);
    proof {
        assert(targets@ == goal);
        if quiet {
            assert forall|j: int| 0 <= j < n implies ctx.tree().has(#[trigger] targets@[j]) by {
                lemma_target_facts(*old(ctx), tree_root, node, j);
            }
        }
    }
    let mut i: usize = 0;
    while i < n
        invariant
            0 <= i <= n,
            n == targets@.len(),
            targets@ == goal,
            old(ctx).tree().has(tree_root),
            old(ctx).tree().has(node),
            ctx.current() == old(ctx).current(),
            marks_grown(*old(marks), *marks),
            marks_follow(*old(marks), *marks),
            rewind_steps(added_steps(*old(marks), *marks), goal),
            goal == rewind_targets(*old(ctx), tree_root, node),
            quiet == rewind_unhindered(*old(ctx), tree_root, node),
            old(ctx).tree().wf(),
            quiet ==> {
                &&& kept_within(old(ctx).tree(), ctx.tree())
                &&& ctx.rewind_ids() == old(ctx).rewind_ids()
                &&& forall|j: int| i <= j < n ==> ctx.tree().has(#[trigger] targets@[j])
            },
            forall|j: int| 0 <= j < i ==> marks.rewound_view().contains((#[trigger] targets@[j]).id()),
            marks.rewound_view() == old(marks).rewound_view().union(key_ids(targets@.take(i as int))),
            marks.needs_run_view() == old(marks).needs_run_view().union(
                key_ids(targets@.take(i as int)).difference(old(marks).rewound_view()),
            ),
        decreases n - i,
    {
        let target = targets[i];
        let ghost before = *marks;
        proof {
            lemma_key_ids_push(targets@.take(i as int), target);
            assert(targets@.take(i + 1) =~= targets@.take(i as int).push(target));
        }
        let ghost ctx_before = *ctx;
        proof {
            if quiet {
                use_type_invariant(&*ctx);
                lemma_target_facts(*old(ctx), tree_root, node, i as int);
                assert(ctx.tree().has(targets@[i as int]));
                if executing_below(*ctx, target) {
                    lemma_ancestors_kept(old(ctx).tree(), ctx.tree(), ctx.current()->0);
                    assert(executing_below(*old(ctx), target));
                }
                assert forall|k: ActionNodeKey| #[trigger] ctx.tree().top_down(target, false).contains(k) && k != target
                    implies !ctx.rewind_ids().contains(k.id()) by {
                    lemma_below_kept(old(ctx).tree(), ctx.tree(), target, k);
                }
                lemma_no_undos(*ctx, target);
            }
        }
        if !marks.is_rewound(target) {
            let r = rewind_node(ctx, marks, target);
            proof {
                if quiet {
                    use_type_invariant(&*ctx);
                    let gone = ctx_before.tree().bottom_up(target, false).drop_last().to_set();
                    assert forall|k: ActionNodeKey| #[trigger] ctx.tree().has(k) implies old(ctx).tree().has(k)
                        && ctx.tree().parent_of(k) == old(ctx).tree().parent_of(k) && ctx.tree().depth_of(k)
                        == old(ctx).tree().depth_of(k) by {
                        assert(ctx_before.tree().has(k));
                    }
                    assert forall|j: int| i + 1 <= j < n implies ctx.tree().has(#[trigger] targets@[j]) by {
                        let tj = targets@[j];
                        assert(ctx_before.tree().has(tj));
                        if !ctx.tree().has(tj) {
                            assert(gone.contains(tj));
                            let w = ctx_before.tree().bottom_up(target, false);
                            ctx_before.tree().lemma_walk_facts(target, false, true);
                            assert(w.contains(target));
                            let q = choose|q: int| 0 <= q < w.drop_last().len() && w.drop_last()[q] == tj;
                            assert(w.drop_last()[q] == w[q]);
                            assert(w.contains(tj));
                            ctx_before.tree().lemma_walk_is_subtree(target, false, true, tj);
                            if tj != target {
                                lemma_ancestors_kept(old(ctx).tree(), ctx_before.tree(), tj);
                                lemma_targets_apart(*old(ctx), tree_root, node, i as int, j);
                            }
                        }
                    }
                }
                assert(marks_grown(*old(marks), *marks));
                lemma_follow_trans(*old(marks), before, *marks);
                assert(goal.contains(target)) by {
                    assert(goal[i as int] == target);
                }
                lemma_rewind_steps_widen(added_steps(before, *marks), target, goal);
                lemma_rewind_steps_append(added_steps(*old(marks), before), added_steps(before, *marks), goal);
                assert(rewind_steps(added_steps(*old(marks), *marks), goal));
            }
            r?;
            proof {
                assert(marks.rewound_view() =~= old(marks).rewound_view().union(key_ids(targets@.take(i + 1))));
                assert(marks.needs_run_view() =~= old(marks).needs_run_view().union(
                    key_ids(targets@.take(i + 1)).difference(old(marks).rewound_view()),
                ));
            }
        } else {
            proof {
                assert(marks.rewound_view() =~= old(marks).rewound_view().union(key_ids(targets@.take(i + 1))));
                assert(marks.needs_run_view() =~= old(marks).needs_run_view().union(
                    key_ids(targets@.take(i + 1)).difference(old(marks).rewound_view()),
                ));
            }
        }
        proof {
            assert forall|j: int| 0 <= j < i + 1 implies marks.rewound_view().contains((#[trigger] targets@[j]).id()) by {
                if j < i {
                    assert(before.rewound_view().contains(targets@[j].id()));
                }
            }
        }
        i = i + 1;
    }
    proof {
        assert forall|j: int| 0 <= j < goal.len() implies {
            let id = (#[trigger] goal[j]).id();
            &&& marks.rewound_view().contains(id)
            &&& !old(marks).rewound_view().contains(id) ==> marks.needs_run_view().contains(id)
        } by {
            assert(marks.rewound_view().contains(targets@[j].id()));
        }
        assert(targets@.take(n as int) =~= targets@);
    }
    Ok(())
}

/// A rewind of `node` within the tree of `tree_root` runs no user code and
/// meets nothing executing: both nodes exist, no target has a rewind
/// strictly below it, and none is executing or above an executing action.
pub open spec fn rewind_unhindered(ctx: Context, tree_root: ActionNodeKey, node: ActionNodeKey) -> bool {
    &&& ctx.tree().has(tree_root)
    &&& ctx.tree().has(node)
    &&& forall|i: int| 0 <= i < rewind_targets(ctx, tree_root, node).len() ==> {
        let t = #[trigger] rewind_targets(ctx, tree_root, node)[i];
        &&& no_undos_below(ctx, t)
        &&& !executing_below(ctx, t)
    }
}

/// A target is a node of the tree of `tree_root` that the rewind reaches,
/// and no node above it within that tree is reached.
proof fn lemma_target_facts(ctx: Context, tree_root: ActionNodeKey, node: ActionNodeKey, i: int)
    requires
        ctx.tree().wf(),
        ctx.tree().has(tree_root),
        0 <= i < rewind_targets(ctx, tree_root, node).len(),
    ensures
        ({
            let t = rewind_targets(ctx, tree_root, node)[i];
            let reach = rewind_reach(ctx, ctx.tree().top_down(tree_root, false), node);
            &&& ctx.tree().has(t)
            &&& ctx.tree().top_down(tree_root, true).contains(t)
            &&& topmost_marked(ctx.tree(), tree_root, true, reach, t)
        }),
{
    let reach = rewind_reach(ctx, ctx.tree().top_down(tree_root, false), node);
    let w = ctx.tree().top_down(tree_root, true);
    let pred = |n: ActionNodeKey| topmost_marked(ctx.tree(), tree_root, true, reach, n);
    let t = rewind_targets(ctx, tree_root, node)[i];
    assert(rewind_targets(ctx, tree_root, node) == w.filter(pred));
    w.lemma_filter_pred(pred, i);
    assert(w.filter(pred).contains(t));
    w.lemma_filter_contains_rev(pred, t);
    ctx.tree().lemma_walk_facts(tree_root, true, false);
}

/// No target lies below another.
proof fn lemma_targets_apart(ctx: Context, tree_root: ActionNodeKey, node: ActionNodeKey, i: int, j: int)
    requires
        ctx.tree().wf(),
        ctx.tree().has(tree_root),
        0 <= i < rewind_targets(ctx, tree_root, node).len(),
        0 <= j < rewind_targets(ctx, tree_root, node).len(),
    ensures
        !ctx.tree().ancestors_of(rewind_targets(ctx, tree_root, node)[j]).contains(rewind_targets(ctx, tree_root, node)[i]),
{
    lemma_target_facts(ctx, tree_root, node, i);
    lemma_target_facts(ctx, tree_root, node, j);
}

/// The numbers of `keys`.
pub open spec fn key_ids(keys: Seq<ActionNodeKey>) -> Set<u64> {
    keys.map_values(|k: ActionNodeKey| k.id()).to_set()
}

proof fn lemma_key_ids_push(keys: Seq<ActionNodeKey>, k: ActionNodeKey)
    ensures
        key_ids(keys.push(k)) == key_ids(keys).insert(k.id()),
{
    let a = keys.push(k).map_values(|x: ActionNodeKey| x.id());
    let b = keys.map_values(|x: ActionNodeKey| x.id());
    assert(a =~= b.push(k.id()));
    lemma_to_set_push(b, k.id());
}

/// Runs the action `node` needs: its stored action, with `node` as the
/// current action, after which it no longer needs a run and is no longer
/// rewound.
pub fn run_action_node(ctx: &mut Context, marks: &mut Marks, node: ActionNodeKey) -> (res: Result<(), RunActionError>)
    ensures
        marks_follow(*old(marks), *final(marks)),
        res is Ok ==> added_steps(*old(marks), *final(marks)) == seq![ExecStep::Ran(node)],
        final(ctx).current() == old(ctx).current(),
        res is Ok ==> {
            &&& final(marks).needs_run_view() == old(marks).needs_run_view().remove(node.id())
            &&& final(marks).rewound_view() == old(marks).rewound_view().remove(node.id())
        },
        res is Err ==> *final(marks) == *old(marks),
        match res {
            Ok(()) => {
                &&& old(ctx).tree().has(node)
                &&& old(ctx).current() != Some(node) && !executing_below(*old(ctx), node)
                &&& old(ctx).stored().contains(node)
                &&& final(ctx).tree().has(node) ==> final(ctx).stored().contains(node)
            },
            Err(RunActionError::UnknownNode(e)) => !old(ctx).tree().has(node) && e == UnknownNode(node)
                && *final(ctx) == *old(ctx),
            Err(RunActionError::NodeExecuting(e)) => old(ctx).tree().has(node)
                && (old(ctx).current() == Some(node) || executing_below(*old(ctx), node))
                && e == NodeExecuting(node) && *final(ctx) == *old(ctx),
            Err(RunActionError::NoStoredAction(e)) => {
                &&& old(ctx).tree().has(node)
                &&& old(ctx).current() != Some(node) && !executing_below(*old(ctx), node)
                &&& !old(ctx).stored().contains(node)
                &&& e.key == node && e.output@ == "()"@
                &&& *final(ctx) == *old(ctx)
            },
        },
{
    proof {
        lemma_follow_refl(*marks);
    }
    ctx.run_action(node)?;
    marks.needs_run.remove(&node.to_id());
    marks.rewound.remove(&node.to_id());
    marks.trace = Ghost(marks.trace@.push(ExecStep::Ran(node)));
    proof {
        let s = seq![ExecStep::Ran(node)];
        assert(marks.trace_view().take(old(marks).trace_view().len() as int) =~= old(marks).trace_view());
        assert(added_steps(*old(marks), *marks) =~= s);
        assert(s.drop_last() =~= Seq::<ExecStep>::empty());
    }
    Ok(())
}

/// Why executing a tree stopped.
#[derive(Clone, Copy, PartialEq, Eq, Debug)]
pub enum ExecuteError {
    UnknownNode(UnknownNode),
    Rewind(RewindError),
    Run(RunActionError),
    /// The runs kept leaving actions to run for `u64::MAX` steps.
    Unsettled,
}

/// The steps of a rerun of `node`: steps without runs, after which `node`
/// carries the rewound mark of `start`, then the run of `node`.
pub open spec fn rerun_steps(start: Set<u64>, steps: Seq<ExecStep>, node: ActionNodeKey) -> bool {
    &&& steps.len() > 0
    &&& steps.last() == ExecStep::Ran(node)
    &&& no_runs(steps.drop_last())
    &&& marks_after(start, steps.drop_last()).contains(node.id())
}

/// Runs `node`, which needs a run: rewinds it first (with what the rewind
/// reaches within the tree of `root`) unless it is already rewound, then
/// runs its stored action.
pub fn rerun_node(ctx: &mut Context, marks: &mut Marks, node: ActionNodeKey, root: ActionNodeKey) -> (res: Result<(), ExecuteError>)
    ensures
        final(ctx).current() == old(ctx).current(),
        marks_follow(*old(marks), *final(marks)),
        res is Err ==> no_runs(added_steps(*old(marks), *final(marks))),
        res is Ok ==> rerun_steps(old(marks).rewound_view(), added_steps(*old(marks), *final(marks)), node),
        res is Ok && old(marks).rewound_view().contains(node.id()) ==> added_steps(*old(marks), *final(marks))
            == seq![ExecStep::Ran(node)],
        !(res matches Err(ExecuteError::UnknownNode(_))),
        !(res matches Err(ExecuteError::Unsettled)),
        res is Ok && old(marks).rewound_view().contains(node.id()) ==> {
            &&& final(marks).rewound_view() == old(marks).rewound_view().remove(node.id())
            &&& final(marks).needs_run_view() == old(marks).needs_run_view().remove(node.id())
        },
        res is Ok && !old(marks).rewound_view().contains(node.id()) ==> {
            &&& final(marks).rewound_view() == old(marks).rewound_view().union(
                key_ids(rewind_targets(*old(ctx), root, node)),
            ).remove(node.id())
            &&& final(marks).needs_run_view() == old(marks).needs_run_view().union(
                key_ids(rewind_targets(*old(ctx), root, node)).difference(old(marks).rewound_view()),
            ).remove(node.id())
        },
{
    proof {
        lemma_follow_refl(*marks);
    }
    if !marks.is_rewound(node) {
        if let Err(e) = rewind_action(ctx, marks, node, root) {
            proof {
                lemma_rewind_steps_no_runs(added_steps(*old(marks), *marks), rewind_targets(*old(ctx), root, node));
            }
            return Err(ExecuteError::Rewind(e));
        }
        proof {
            lemma_rewind_steps_no_runs(added_steps(*old(marks), *marks), rewind_targets(*old(ctx), root, node));
        }
        // The node is among the nodes its rewind reaches; this keeps the run
        // behind a rewind whatever the reach.
        if !marks.is_rewound(node) {
            let ghost m1 = *marks;
            let r = rewind_node(ctx, marks, node);
            proof {
                lemma_follow_trans(*old(marks), m1, *marks);
                lemma_no_runs_append(added_steps(*old(marks), m1), added_steps(m1, *marks));
            }
            if let Err(e) = r {
                return Err(ExecuteError::Rewind(e));
            }
        }
    }
    let ghost m2 = *marks;
    if let Err(e) = run_action_node(ctx, marks, node) {
        return Err(ExecuteError::Run(e));
    }
    proof {
        lemma_follow_trans(*old(marks), m2, *marks);
        let s = added_steps(*old(marks), *marks);
        assert(s.drop_last() =~= added_steps(*old(marks), m2));
        if old(marks).rewound_view().contains(node.id()) {
            assert(added_steps(*old(marks), m2) =~= Seq::<ExecStep>::empty());
            assert(s =~= seq![ExecStep::Ran(node)]);
        }
    }
    Ok(())
}

/// Steps of a rewind have no runs.
proof fn lemma_rewind_steps_no_runs(s: Seq<ExecStep>, targets: Seq<ActionNodeKey>)
    requires
        rewind_steps(s, targets),
    ensures
        no_runs(s),
{
    assert forall|i: int| 0 <= i < s.len() implies !(#[trigger] s[i] is Ran) by {
        assert(quiet_step(s[i]) || s[i] is Rewound);
    }
}

proof fn lemma_no_runs_append(a: Seq<ExecStep>, b: Seq<ExecStep>)
    requires
        no_runs(a),
        no_runs(b),
    ensures
        no_runs(a + b),
{
    assert forall|i: int| 0 <= i < (a + b).len() implies !(#[trigger] (a + b)[i] is Ran) by {
        if i < a.len() {
            assert((a + b)[i] == a[i]);
        } else {
            assert((a + b)[i] == b[i - a.len()]);
        }
    }
}

/// Some node of the tree of `root` needs a run and stores an action.
pub open spec fn tree_runnable(ctx: Context, marks: Marks, root: ActionNodeKey) -> bool {
    exists|n: ActionNodeKey| #[trigger] ctx.tree().top_down(root, false).contains(n)
        && marks.needs_run_view().contains(n.id()) && ctx.stored().contains(n)
}

/// Whether a node of the tree of `root` needs a run and stores an action.
fn tree_runnable_check(ctx: &Context, marks: &Marks, root: ActionNodeKey) -> (res: bool)
    ensures
        res == (ctx.tree().has(root) && tree_runnable(*ctx, *marks, root)),
{
    let nodes = match ctx.subtree_top_down(root) {
        Ok(nodes) => nodes,
        Err(_) => {
            return false;
        },
    };
    proof {
        use_type_invariant(ctx);
        ctx.tree().lemma_walk_facts(root, false, false);
    }
    let n = nodes.len();
    let mut i: usize = 0;
    while i < n
        invariant
            0 <= i <= n,
            n == nodes@.len(),
            nodes@ == ctx.tree().top_down(root, false),
            ctx.tree().has(root),
            forall|x: ActionNodeKey| #[trigger] nodes@.contains(x) ==> ctx.tree().has(x),
            forall|j: int| 0 <= j < i ==> !(marks.needs_run_view().contains((#[trigger] nodes@[j]).id())
                && ctx.stored().contains(nodes@[j])),
        decreases n - i,
    {
        proof {
            assert(nodes@.contains(nodes@[i as int]));
        }
        let stored = match ctx.has_stored_action(nodes[i]) {
            Ok(stored) => stored,
            Err(_) => false,
        };
        if marks.needs_run(nodes[i]) && stored {
            proof {
                assert(nodes@.contains(nodes@[i as int]));
            }
            return true;
        }
        i = i + 1;
    }
    proof {
        assert forall|m: ActionNodeKey| #[trigger] nodes@.contains(m) implies !(marks.needs_run_view().contains(m.id())
            && ctx.stored().contains(m)) by {
            let j = choose|j: int| 0 <= j < nodes@.len() && nodes@[j] == m;
        }
    }
    false
}

/// `b` follows `a`, and each action that ran in between needed a run and
/// was rewound since its last run when it ran.
pub open spec fn runs_follow(a: Marks, b: Marks) -> bool {
    &&& marks_follow(a, b)
    &&& runs_marked(a.rewound_view(), added_steps(a, b))
    &&& runs_marked(a.needs_run_view(), added_steps(a, b))
}

proof fn lemma_runs_follow_refl(a: Marks)
    ensures
        runs_follow(a, a),
{
    lemma_follow_refl(a);
}

proof fn lemma_runs_follow_trans(a: Marks, b: Marks, c: Marks)
    requires
        runs_follow(a, b),
        runs_follow(b, c),
    ensures
        runs_follow(a, c),
{
    lemma_follow_trans(a, b, c);
    lemma_runs_marked_append(a.rewound_view(), added_steps(a, b), added_steps(b, c));
    lemma_runs_marked_append(a.needs_run_view(), added_steps(a, b), added_steps(b, c));
}

/// A rerun of a node that needed a run makes its run a marked one.
proof fn lemma_rerun_follows(a: Marks, b: Marks, node: ActionNodeKey, ok: bool)
    requires
        marks_follow(a, b),
        ok ==> rerun_steps(a.rewound_view(), added_steps(a, b), node),
        !ok ==> no_runs(added_steps(a, b)),
        a.needs_run_view().contains(node.id()),
    ensures
        runs_follow(a, b),
{
    let s = added_steps(a, b);
    if ok {
        lemma_no_runs_grow(a.rewound_view(), s.drop_last());
        lemma_no_runs_grow(a.needs_run_view(), s.drop_last());
        lemma_rerun_marked(a.rewound_view(), s, node);
        lemma_rerun_marked(a.needs_run_view(), s, node);
    } else {
        lemma_no_runs_grow(a.rewound_view(), s);
        lemma_no_runs_grow(a.needs_run_view(), s);
    }
}

proof fn lemma_rerun_marked(start: Set<u64>, s: Seq<ExecStep>, node: ActionNodeKey)
    requires
        s.len() > 0,
        s.last() == ExecStep::Ran(node),
        no_runs(s.drop_last()),
        marks_after(start, s.drop_last()).contains(node.id()),
    ensures
        runs_marked(start, s),
{
    lemma_no_runs_grow(start, s.drop_last());
    assert forall|i: int| 0 <= i < s.len() && #[trigger] s[i] is Ran implies marks_after(start, s.take(i)).contains(
        s[i]->Ran_0.id(),
    ) by {
        if i < s.len() - 1 {
            assert(s[i] == s.drop_last()[i]);
        } else {
            assert(s.take(i) =~= s.drop_last());
        }
    }
}

/// Every node of the tree of `root` that needs a run and stores an action
/// lies below a node that ran in `steps`.
pub open spec fn pass_covered(ctx: Context, marks: Marks, root: ActionNodeKey, steps: Seq<ExecStep>) -> bool {
    ctx.tree().has(root) ==> forall|n: ActionNodeKey| #[trigger] ctx.tree().top_down(root, false).contains(n)
        && marks.needs_run_view().contains(n.id()) && ctx.stored().contains(n) ==> exists|a: ActionNodeKey|
        #[trigger] ctx.tree().ancestors_of(n).contains(a) && steps.contains(ExecStep::Ran(a))
}

/// Every node of the tree of `root` that needs a run and stores an action
/// lies below a node of `ran`.
pub open spec fn covered_by(ctx: Context, marks: Marks, root: ActionNodeKey, ran: Seq<ActionNodeKey>) -> bool {
    ctx.tree().has(root) ==> forall|n: ActionNodeKey| #[trigger] ctx.tree().top_down(root, false).contains(n)
        && marks.needs_run_view().contains(n.id()) && ctx.stored().contains(n) ==> exists|a: ActionNodeKey|
        #[trigger] ctx.tree().ancestors_of(n).contains(a) && ran.contains(a)
}

/// Whether every node of the tree of `root` that needs a run and stores an
/// action lies below a node of `ran`.
fn all_covered(ctx: &Context, marks: &Marks, root: ActionNodeKey, ran: &Vec<ActionNodeKey>) -> (res: bool)
    ensures
        res ==> covered_by(*ctx, *marks, root, ran@),
        !ctx.tree().has(root) ==> res,
{
    let nodes = match ctx.subtree_top_down(root) {
        Ok(nodes) => nodes,
        Err(_) => {
            return true;
        },
    };
    proof {
        use_type_invariant(ctx);
        ctx.tree().lemma_walk_facts(root, false, false);
    }
    let n = nodes.len();
    let mut i: usize = 0;
    while i < n
        invariant
            0 <= i <= n,
            n == nodes@.len(),
            nodes@ == ctx.tree().top_down(root, false),
            ctx.tree().has(root),
            forall|x: ActionNodeKey| #[trigger] nodes@.contains(x) ==> ctx.tree().has(x),
            forall|j: int| 0 <= j < i && marks.needs_run_view().contains((#[trigger] nodes@[j]).id()) && ctx.stored().contains(
                nodes@[j],
            ) ==> exists|a: ActionNodeKey| #[trigger] ctx.tree().ancestors_of(nodes@[j]).contains(a) && ran@.contains(a),
        decreases n - i,
    {
        let node = nodes[i];
        proof {
            assert(nodes@.contains(nodes@[i as int]));
        }
        let stored = match ctx.has_stored_action(node) {
            Ok(stored) => stored,
            Err(_) => false,
        };
        if marks.needs_run(node) && stored {
            let above = match ctx.ancestors(node) {
                Ok(above) => above,
                Err(_) => {
                    return false;
                },
            };
            let m = above.len();
            let mut found = false;
            let mut j: usize = 0;
            while j < m
                invariant
                    0 <= j <= m,
                    m == above@.len(),
                    found ==> exists|a: ActionNodeKey| #[trigger] above@.contains(a) && ran@.contains(a),
                decreases m - j,
            {
                if key_listed(ran, above[j]) {
                    proof {
                        assert(above@.contains(above@[j as int]));
                    }
                    found = true;
                }
                j = j + 1;
            }
            if !found {
                return false;
            }
            proof {
                let a = choose|a: ActionNodeKey| #[trigger] above@.contains(a) && ran@.contains(a);
                assert(ctx.tree().ancestors_of(nodes@[i as int]).contains(a));
            }
        }
        i = i + 1;
    }
    proof {
        assert forall|x: ActionNodeKey| #[trigger] ctx.tree().top_down(root, false).contains(x) && marks.needs_run_view().contains(
            x.id(),
        ) && ctx.stored().contains(x) implies exists|a: ActionNodeKey| #[trigger] ctx.tree().ancestors_of(x).contains(a)
            && ran@.contains(a) by {
            let j = choose|j: int| 0 <= j < nodes@.len() && nodes@[j] == x;
        }
    }
    true
}

/// Keys of `ran` whose runs are in `steps` leave `covered_by` implying
/// `pass_covered`.
proof fn lemma_covered(ctx: Context, marks: Marks, root: ActionNodeKey, ran: Seq<ActionNodeKey>, steps: Seq<ExecStep>)
    requires
        covered_by(ctx, marks, root, ran),
        forall|k: ActionNodeKey| #[trigger] ran.contains(k) ==> steps.contains(ExecStep::Ran(k)),
    ensures
        pass_covered(ctx, marks, root, steps),
{
}

/// One walk over the tree of `root`, top down: runs every action that needs
/// a run and stores one, rewinding it first unless it already is; the walk
/// doesn't go below an action it runs, whose run rebuilds its children.
/// Returns whether it ran any.
pub fn execute_pass(ctx: &mut Context, marks: &mut Marks, root: ActionNodeKey) -> (res: Result<bool, ExecuteError>)
    ensures
        final(ctx).current() == old(ctx).current(),
        runs_follow(*old(marks), *final(marks)),
        res matches Err(ExecuteError::UnknownNode(e)) ==> e == UnknownNode(root) && !old(ctx).tree().has(root)
            && *final(ctx) == *old(ctx) && *final(marks) == *old(marks),
        !old(ctx).tree().has(root) ==> res == Err::<bool, ExecuteError>(ExecuteError::UnknownNode(UnknownNode(root))),
        res == Ok::<bool, ExecuteError>(false) ==> *final(ctx) == *old(ctx) && *final(marks) == *old(marks)
            && !tree_runnable(*old(ctx), *old(marks), root),
        res == Ok::<bool, ExecuteError>(true) ==> tree_runnable(*old(ctx), *old(marks), root),
        res == Ok::<bool, ExecuteError>(true) ==> pass_covered(*final(ctx), *final(marks), root, added_steps(*old(marks), *final(marks))),
        old(ctx).tree().has(root) && !tree_runnable(*old(ctx), *old(marks), root) ==> res == Ok::<bool, ExecuteError>(false),
{
    proof {
        lemma_runs_follow_refl(*marks);
    }
    let mut cursor = match ctx.subtree_cursor(root, false) {
        Ok(cursor) => cursor,
        Err(e) => {
            return Err(ExecuteError::UnknownNode(e));
        },
    };
    let ghost walk = ctx.tree().top_down(root, false);
    let ghost mut visited: Seq<ActionNodeKey> = Seq::empty();
    proof {
        use_type_invariant(&*ctx);
        ctx.tree().lemma_cursor_start(cursor, root);
        ctx.tree().lemma_walk_facts(root, false, false);
        assert(walk =~= visited + ctx.tree().cursor_rest(cursor));
    }
    let mut ran = false;
    // The nodes this pass reran.
    let mut ran_keys: Vec<ActionNodeKey> = Vec::new();
    // The walk follows the tree as the runs change it; the count only stops
    // a walk that never ends.
    let mut steps: u64 = 0;
    while steps < u64::MAX
        invariant
            ctx.current() == old(ctx).current(),
            walk == old(ctx).tree().top_down(root, false),
            old(ctx).tree().has(root),
            ran ==> tree_runnable(*old(ctx), *old(marks), root),
            runs_follow(*old(marks), *marks),
            forall|k: ActionNodeKey| #[trigger] ran_keys@.contains(k) ==> added_steps(*old(marks), *marks).contains(
                ExecStep::Ran(k),
            ),
            forall|x: ActionNodeKey| #[trigger] walk.contains(x) ==> old(ctx).tree().has(x),
            !ran ==> {
                &&& *ctx == *old(ctx)
                &&& *marks == *old(marks)
                &&& ctx.tree().wf()
                &&& ctx.tree().cursor_inside(cursor)
                &&& !cursor.siblings_rev()
                &&& walk == visited + ctx.tree().cursor_rest(cursor)
                &&& forall|y: ActionNodeKey| #[trigger] visited.contains(y) ==> !(marks.needs_run_view().contains(y.id())
                    && ctx.stored().contains(y))
            },
        decreases u64::MAX - steps,
    {
        let ghost before = cursor;
        let next = cursor.next(ctx);
        if next.is_none() {
            proof {
                if !ran {
                    ctx.tree().lemma_cursor_step(before, cursor, None);
                    assert(walk =~= visited);
                    assert forall|y: ActionNodeKey| #[trigger] walk.contains(y) implies !(marks.needs_run_view().contains(
                        y.id(),
                    ) && ctx.stored().contains(y)) by {
                        assert(visited.contains(y));
                    }
                }
            }
            if !ran {
                return Ok(false);
            }
            if all_covered(ctx, marks, root, &ran_keys) {
                proof {
                    lemma_covered(*ctx, *marks, root, ran_keys@, added_steps(*old(marks), *marks));
                }
                return Ok(true);
            }
            // A runnable node the walk missed, which the runs put where the
            // walk had already been: walk the tree again.
            cursor = match ctx.subtree_cursor(root, false) {
                Ok(c) => c,
                Err(_) => {
                    return vstd::pervasive::unreached();
                },
            };
            steps = steps + 1;
            continue;
        }
        let node = next.unwrap();
        proof {
            if !ran {
                ctx.tree().lemma_cursor_step(before, cursor, Some(node));
                let rest = ctx.tree().cursor_rest(before);
                assert(walk =~= visited.push(node) + ctx.tree().cursor_rest(cursor));
                assert(walk[visited.len() as int] == node);
                assert(walk.contains(node));
                assert(ctx.tree().has(node));
            }
        }
        let runnable = marks.needs_run(node) && match ctx.has_stored_action(node) {
            Ok(stored) => stored,
            Err(_) => false,
        };
        if runnable {
            proof {
                if !ran {
                    assert(walk.contains(node));
                }
            }
            cursor.skip_children();
            ran = true;
            let ghost mid = *marks;
            let r = rerun_node(ctx, marks, node, root);
            proof {
                lemma_rerun_follows(mid, *marks, node, r is Ok);
                lemma_runs_follow_trans(*old(marks), mid, *marks);
                lemma_follow_trans(*old(marks), mid, *marks);
                let a = added_steps(*old(marks), mid);
                let b = added_steps(mid, *marks);
                assert forall|k: ActionNodeKey| #[trigger] ran_keys@.contains(k) implies (a + b).contains(ExecStep::Ran(k)) by {
                    let q = choose|q: int| 0 <= q < a.len() && a[q] == ExecStep::Ran(k);
                    assert((a + b)[q] == a[q]);
                }
                if r is Ok {
                    assert((a + b)[a.len() + b.len() - 1] == b.last());
                    assert((a + b).contains(ExecStep::Ran(node)));
                }
            }
            r?;
            let ghost keys_before = ran_keys@;
            ran_keys.push(node);
            proof {
                assert forall|k: ActionNodeKey| #[trigger] ran_keys@.contains(k) implies added_steps(*old(marks), *marks).contains(
                    ExecStep::Ran(k),
                ) by {
                    let q = choose|q: int| 0 <= q < ran_keys@.len() && ran_keys@[q] == k;
                    if q < keys_before.len() {
                        assert(keys_before[q] == k);
                        assert(keys_before.contains(k));
                    }
                }
            }
        } else {
            proof {
                if !ran {
                    assert forall|y: ActionNodeKey| #[trigger] visited.push(node).contains(y) implies !(
                    marks.needs_run_view().contains(y.id()) && ctx.stored().contains(y)) by {
                        if y != node {
                            let j = choose|j: int| 0 <= j < visited.push(node).len() && visited.push(node)[j] == y;
                            assert(visited[j] == y);
                            assert(visited.contains(y));
                        }
                    }
                    visited = visited.push(node);
                }
            }
        }
        steps = steps + 1;
    }
    if ran || tree_runnable_check(ctx, marks, root) {
        return Err(ExecuteError::Unsettled);
    }
    Ok(false)
}

/// Walks the tree of `root` as [`execute_pass`] does, again and again until
/// a walk runs nothing: then no action of the tree needs a run.
pub fn execute_tree(ctx: &mut Context, marks: &mut Marks, root: ActionNodeKey) -> (res: Result<(), ExecuteError>)
    ensures
        final(ctx).current() == old(ctx).current(),
        res matches Err(ExecuteError::UnknownNode(e)) ==> e == UnknownNode(root),
        !old(ctx).tree().has(root) ==> res == Err::<(), ExecuteError>(ExecuteError::UnknownNode(UnknownNode(root)))
            && *final(ctx) == *old(ctx) && *final(marks) == *old(marks),
        old(ctx).tree().has(root) && !tree_runnable(*old(ctx), *old(marks), root) ==> res == Ok::<(), ExecuteError>(())
            && *final(ctx) == *old(ctx) && *final(marks) == *old(marks),
        res is Ok ==> final(ctx).tree().has(root) && !tree_runnable(*final(ctx), *final(marks), root),
        runs_follow(*old(marks), *final(marks)),
{
    proof {
        lemma_runs_follow_refl(*marks);
    }
    let ghost idle = old(ctx).tree().has(root) && !tree_runnable(*old(ctx), *old(marks), root);
    // Each pass that runs something can leave more to run; the count only
    // stops an execution that never settles.
    let mut passes: u64 = 0;
    while passes < u64::MAX
        invariant
            ctx.current() == old(ctx).current(),
            idle == (old(ctx).tree().has(root) && !tree_runnable(*old(ctx), *old(marks), root)),
            idle ==> passes == 0,
            passes == 0 ==> *ctx == *old(ctx) && *marks == *old(marks),
            passes > 0 ==> old(ctx).tree().has(root),
            runs_follow(*old(marks), *marks),
        decreases u64::MAX - passes,
    {
        let ghost mid = *marks;
        let r = execute_pass(ctx, marks, root);
        proof {
            lemma_runs_follow_trans(*old(marks), mid, *marks);
        }
        match r {
            Ok(false) => {
                return Ok(());
            },
            Ok(true) => {},
            Err(e) => {
                return Err(e);
            },
        }
        passes = passes + 1;
    }
    Err(ExecuteError::Unsettled)
}

/// Some node of the tree of `root` needs a run.
pub open spec fn tree_needs_run(ctx: Context, marks: Marks, root: ActionNodeKey) -> bool {
    exists|n: ActionNodeKey| #[trigger] ctx.tree().top_down(root, false).contains(n) && marks.needs_run_view().contains(n.id())
}

/// Some node of the trees of `roots` needs a run.
pub open spec fn pending(ctx: Context, marks: Marks, roots: Seq<ActionNodeKey>) -> bool {
    exists|i: int, n: ActionNodeKey|
        0 <= i < roots.len() && ctx.tree().has(roots[i]) && #[trigger] ctx.tree().top_down(roots[i], false).contains(n)
            && marks.needs_run_view().contains(n.id())
}

/// Some node of the trees of `roots` needs a run and stores an action.
pub open spec fn any_runnable(ctx: Context, marks: Marks, roots: Seq<ActionNodeKey>) -> bool {
    exists|i: int| 0 <= i < roots.len() && ctx.tree().has(#[trigger] roots[i]) && tree_runnable(ctx, marks, roots[i])
}

/// Whether a node of the tree of `root` needs a run.
fn tree_pending(ctx: &Context, marks: &Marks, root: ActionNodeKey) -> (res: bool)
    ensures
        res == (ctx.tree().has(root) && exists|n: ActionNodeKey| #[trigger] ctx.tree().top_down(root, false).contains(n)
            && marks.needs_run_view().contains(n.id())),
{
    let nodes = match ctx.subtree_top_down(root) {
        Ok(nodes) => nodes,
        Err(_) => {
            return false;
        },
    };
    let n = nodes.len();
    let mut i: usize = 0;
    while i < n
        invariant
            0 <= i <= n,
            n == nodes@.len(),
            nodes@ == ctx.tree().top_down(root, false),
            ctx.tree().has(root),
            forall|j: int| 0 <= j < i ==> !marks.needs_run_view().contains((#[trigger] nodes@[j]).id()),
        decreases n - i,
    {
        if marks.needs_run(nodes[i]) {
            proof {
                assert(nodes@.contains(nodes@[i as int]));
                assert(ctx.tree().top_down(root, false).contains(nodes@[i as int]));
                assert(marks.needs_run_view().contains(nodes@[i as int].id()));
            }
            return true;
        }
        i = i + 1;
    }
    proof {
        assert forall|m: ActionNodeKey| #[trigger] nodes@.contains(m) implies !marks.needs_run_view().contains(m.id()) by {
            let j = choose|j: int| 0 <= j < nodes@.len() && nodes@[j] == m;
        }
    }
    false
}

/// Executes every action tree: runs the actions that need a run, tree by
/// tree.
pub struct ExecuteActionTrees;

impl ExecuteActionTrees {
    /// Walks the tree of each of `roots` in turn, running what needs a run,
    /// round after round until a round runs nothing; then returns whether a
    /// node of them still needs a run (one that stores no action), in which
    /// case the execution is to be queued again.
    pub fn apply(self, ctx: &mut Context, marks: &mut Marks, roots: &Vec<ActionNodeKey>) -> (res: Result<bool, ExecuteError>)
        ensures
            final(ctx).current() == old(ctx).current(),
            runs_follow(*old(marks), *final(marks)),
            res matches Ok(again) ==> again == pending(*final(ctx), *final(marks), roots@),
            res is Ok ==> forall|i: int| 0 <= i < roots@.len() && final(ctx).tree().has(#[trigger] roots@[i])
                ==> !tree_runnable(*final(ctx), *final(marks), roots@[i]),
            !any_runnable(*old(ctx), *old(marks), roots@) ==> res == Ok::<bool, ExecuteError>(
                pending(*old(ctx), *old(marks), roots@),
            ) && *final(ctx) == *old(ctx) && *final(marks) == *old(marks),
            !pending(*old(ctx), *old(marks), roots@) ==> res == Ok::<bool, ExecuteError>(false)
                && *final(ctx) == *old(ctx) && *final(marks) == *old(marks),
    {
        proof {
            lemma_runs_follow_refl(*marks);
            if !pending(*old(ctx), *old(marks), roots@) {
                assert forall|i: int| 0 <= i < roots@.len() && old(ctx).tree().has(#[trigger] roots@[i])
                    implies !tree_runnable(*old(ctx), *old(marks), roots@[i]) by {
                    if tree_runnable(*old(ctx), *old(marks), roots@[i]) {
                        let m = choose|m: ActionNodeKey| #[trigger] old(ctx).tree().top_down(roots@[i], false).contains(m)
                            && old(marks).needs_run_view().contains(m.id()) && old(ctx).stored().contains(m);
                        assert(pending(*old(ctx), *old(marks), roots@));
                    }
                }
            }
        }
        let ghost quiet = !any_runnable(*ctx, *marks, roots@);
        let n = roots.len();
        // Each round that runs something can leave more to run; the count
        // only stops an execution that never settles.
        let mut rounds: u64 = 0;
        while rounds < u64::MAX
            invariant
                n == roots@.len(),
                ctx.current() == old(ctx).current(),
                quiet == !any_runnable(*old(ctx), *old(marks), roots@),
                quiet ==> rounds == 0 && *ctx == *old(ctx) && *marks == *old(marks),
                runs_follow(*old(marks), *marks),
            decreases u64::MAX - rounds,
        {
            let ghost c0 = *ctx;
            let ghost m0 = *marks;
            let mut ran = false;
            let mut i: usize = 0;
            while i < n
                invariant
                    0 <= i <= n,
                    n == roots@.len(),
                    ctx.current() == old(ctx).current(),
                    quiet == !any_runnable(*old(ctx), *old(marks), roots@),
                    quiet ==> c0 == *old(ctx) && m0 == *old(marks),
                    !ran ==> *ctx == c0 && *marks == m0,
                    !ran ==> forall|j: int| 0 <= j < i && ctx.tree().has(#[trigger] roots@[j])
                        ==> !tree_runnable(*ctx, *marks, roots@[j]),
                    quiet ==> !ran,
                    runs_follow(*old(marks), *marks),
                decreases n - i,
            {
                let root = roots[i];
                if ctx.contains_node(root) {
                    proof {
                        if quiet {
                            assert(roots@[i as int] == root);
                        }
                    }
                    let ghost mid = *marks;
                    let r = execute_pass(ctx, marks, root);
                    proof {
                        lemma_runs_follow_trans(*old(marks), mid, *marks);
                    }
                    let ran_here = r?;
                    if ran_here {
                        ran = true;
                    }
                }
                proof {
                    if !ran {
                        assert forall|j: int| 0 <= j < i + 1 && ctx.tree().has(#[trigger] roots@[j])
                            implies !tree_runnable(*ctx, *marks, roots@[j]) by {
                            if j == i {
                                assert(roots@[j] == root);
                            }
                        }
                    }
                }
                i = i + 1;
            }
            if !ran {
                let mut again = false;
                let mut j: usize = 0;
                while j < n
                    invariant
                        0 <= j <= n,
                        n == roots@.len(),
                        again == exists|l: int, m: ActionNodeKey|
                            0 <= l < j && ctx.tree().has(roots@[l]) && #[trigger] ctx.tree().top_down(roots@[l], false).contains(m)
                                && marks.needs_run_view().contains(m.id()),
                    decreases n - j,
                {
                    let root = roots[j];
                    if tree_pending(ctx, marks, root) {
                        again = true;
                    }
                    j = j + 1;
                }
                return Ok(again);
            }
            rounds = rounds + 1;
        }
        Err(ExecuteError::Unsettled)
    }
}

proof fn lemma_to_set_push(s: Seq<u64>, x: u64)
    ensures
        s.push(x).to_set() == s.to_set().insert(x),
{
    assert forall|y: u64| s.push(x).to_set().contains(y) <==> s.to_set().insert(x).contains(y) by {
        if s.push(x).to_set().contains(y) {
            let j = choose|j: int| 0 <= j < s.push(x).len() && s.push(x)[j] == y;
            if j < s.len() {
                assert(s[j] == y);
            }
        }
        if s.to_set().contains(y) {
            let j = choose|j: int| 0 <= j < s.len() && s[j] == y;
            assert(s.push(x)[j] == y);
        }
        if y == x {
            assert(s.push(x)[s.len() as int] == x);
        }
    }
    assert(s.push(x).to_set() =~= s.to_set().insert(x));
}

/// Marks the actions that a batch of writes affects as needing a run.
pub struct FlushWrites;

impl FlushWrites {
    /// Marks the actions `writes` affects, made while `execution_root` ran
    /// in the tree of `tree_root`: those that read a value written in full,
    /// and those after `execution_root` that read a value written forward
    /// only.
    pub fn apply(
        self,
        ctx: &Context,
        marks: &mut Marks,
        tree_root: ActionNodeKey,
        execution_root: ActionNodeKey,
        subs: &Vec<Subscription>,
        writes: &Vec<TrackedWrite>,
    ) -> (res: HashSet<u64>)
        ensures
            res@ == if ctx.tree().has(tree_root) {
                affected(ctx.tree().top_down(tree_root, false), execution_root, subs@, writes@)
            } else {
                affected(Seq::empty(), execution_root, subs@, writes@)
            },
            final(marks).needs_run_view() == old(marks).needs_run_view().union(res@),
            final(marks).rewound_view() == old(marks).rewound_view(),
    {
        let order = match TreeOrder::new(ctx, tree_root) {
            Ok(order) => order,
            Err(_) => TreeOrder::empty(),
        };
        let marked = affected_nodes(&order, execution_root, subs, writes);
        let list = crate::grouping::set_to_vec(&marked);
        let n = list.len();
        let mut i: usize = 0;
        let ghost start = marks.needs_run_view();
        while i < n
            invariant
                0 <= i <= n,
                n == list@.len(),
                marks.needs_run_view() == start.union(list@.take(i as int).to_set()),
                marks.rewound_view() == old(marks).rewound_view(),
                start == old(marks).needs_run_view(),
            decreases n - i,
        {
            marks.mark_needs_run(list[i]);
            proof {
                lemma_to_set_push(list@.take(i as int), list@[i as int]);
                assert(list@.take(i + 1) =~= list@.take(i as int).push(list@[i as int]));
                assert(marks.needs_run_view() =~= start.union(list@.take(i + 1).to_set()));
            }
            i = i + 1;
        }
        proof {
            assert(list@.take(n as int) =~= list@);
        }
        marked
    }
}

} // verus!
