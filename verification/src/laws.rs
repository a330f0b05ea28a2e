//! Laws of the library: properties that relate several operations, or that
//! hold of every tree.

use vstd::prelude::*;

use crate::action_tree::{nodes_removed, node_added, pop_present, sibling_order, ActionNodeKey, ActionTree, TopDownCursor};
use crate::context::Context;
use crate::executor::{pass_covered, unsync_then_undos, undo_steps, ExecStep};
use crate::tracking::{handled_ids, settled, tracks};
use crate::schedule::{affected, after_root, reads_any, topmost_marked, written, Subscription, TrackedWrite};

verus! {

/// A top-down walk starts with the node it walks, and a bottom-up walk ends
/// with it.
pub proof fn law_walk_ends(t: ActionTree, key: ActionNodeKey, rev: bool)
    requires
        t.wf(),
        t.has(key),
    ensures
        t.top_down(key, rev).len() > 0,
        t.top_down(key, rev)[0] == key,
        t.bottom_up(key, rev).len() > 0,
        t.bottom_up(key, rev).last() == key,
{
    t.lemma_walk_unfold(key, rev, false);
    t.lemma_walk_unfold(key, rev, true);
}

/// Bottom up is top down backwards, with siblings in the other order.
pub proof fn law_bottom_up_reverses_top_down(t: ActionTree, key: ActionNodeKey, rev: bool)
    requires
        t.wf(),
        t.has(key),
    ensures
        t.bottom_up(key, rev) == t.top_down(key, !rev).reverse(),
{
    t.lemma_post_is_reversed_pre(key, rev);
}

/// Both walks of `key` hold exactly `key` and its descendants: the nodes it
/// is an ancestor of.
pub proof fn law_walks_hold_the_subtree(t: ActionTree, key: ActionNodeKey, rev: bool, x: ActionNodeKey)
    requires
        t.wf(),
        t.has(key),
    ensures
        t.top_down(key, rev).contains(x) <==> (x == key || (t.has(x) && t.ancestors_of(x).contains(key))),
        t.bottom_up(key, rev).contains(x) <==> (x == key || (t.has(x) && t.ancestors_of(x).contains(key))),
{
    t.lemma_walk_is_subtree(key, rev, false, x);
    t.lemma_walk_is_subtree(key, rev, true, x);
}

/// A cursor walks top down: started at `key`, it has the top-down walk of
/// `key` ahead, and on a tree that doesn't change each step returns the
/// next node of that walk, until nothing is left.
pub proof fn law_cursor_walks_top_down(
    t: ActionTree,
    key: ActionNodeKey,
    c: TopDownCursor,
    after: TopDownCursor,
    res: Option<ActionNodeKey>,
)
    requires
        t.wf(),
        t.has(key),
        c.pending() == seq![key],
        c.last() is None,
        after.pending() == pop_present(t, c.stack_in(t)).0,
        res == pop_present(t, c.stack_in(t)).1,
        after.last() == res,
        after.siblings_rev() == c.siblings_rev(),
    ensures
        t.cursor_rest(c) == t.top_down(key, c.siblings_rev()),
        res == Some(key),
        t.cursor_rest(after) == t.top_down(key, c.siblings_rev()).drop_first(),
        t.cursor_inside(after),
{
    t.lemma_cursor_start(c, key);
    t.lemma_cursor_step(c, after, res);
    law_walk_ends(t, key, c.siblings_rev());
    if res is None {
        assert(t.cursor_rest(c).len() == 0);
    }
    let x = res.unwrap();
    assert(t.top_down(key, c.siblings_rev())[0] == x);
    assert(t.cursor_rest(after) =~= t.top_down(key, c.siblings_rev()).drop_first());
}

/// Each step of a cursor over a tree that doesn't change returns the next
/// node of the walk ahead of it, and leaves the rest of the walk ahead.
pub proof fn law_cursor_step(t: ActionTree, c: TopDownCursor, after: TopDownCursor, res: Option<ActionNodeKey>)
    requires
        t.wf(),
        t.cursor_inside(c),
        after.pending() == pop_present(t, c.stack_in(t)).0,
        res == pop_present(t, c.stack_in(t)).1,
        after.last() == res,
        after.siblings_rev() == c.siblings_rev(),
    ensures
        match res {
            None => t.cursor_rest(c).len() == 0,
            Some(x) => t.cursor_rest(c) == seq![x] + t.cursor_rest(after) && t.cursor_inside(after),
        },
{
    t.lemma_cursor_step(c, after, res);
}

/// Skipping children drops the descendants of the node returned last from
/// the walk ahead, and nothing else.
pub proof fn law_skip_children(t: ActionTree, c: TopDownCursor, after: TopDownCursor)
    requires
        after.pending() == c.pending(),
        after.last() is None,
        after.siblings_rev() == c.siblings_rev(),
    ensures
        t.cursor_rest(c) == (match c.last() {
            Some(l) => t.walk_list(sibling_order(t.children_of(l), c.siblings_rev()), c.siblings_rev(), false),
            None => Seq::empty(),
        }) + t.cursor_rest(after),
{
    t.lemma_cursor_skip(c, after);
}

/// A node without children walks to itself alone, so clearing its children
/// again removes nothing.
pub proof fn law_leaf_walks(t: ActionTree, key: ActionNodeKey, rev: bool)
    requires
        t.wf(),
        t.has(key),
        t.children_of(key).len() == 0,
    ensures
        t.top_down(key, rev) == seq![key],
        t.bottom_up(key, rev) == seq![key],
        t.bottom_up(key, rev).drop_last().len() == 0,
{
    t.lemma_leaf_walk(key, rev, false);
    t.lemma_leaf_walk(key, rev, true);
    assert(seq![key].drop_last() =~= Seq::<ActionNodeKey>::empty());
}

/// Removing a node right after creating it gives back the tree it was
/// created in: the same nodes, with the same parents and children, and the
/// same stored actions.
pub proof fn law_remove_undoes_create(
    a: Context,
    b: Context,
    c: Context,
    key: ActionNodeKey,
    parent: Option<ActionNodeKey>,
    removed: Seq<ActionNodeKey>,
)
    requires
        a.tree().wf(),
        b.tree().wf(),
        parent matches Some(p) ==> a.tree().has(p),
        node_added(a, b, key, parent),
        b.current() == a.current(),
        b.stored() == a.stored().insert(key) || b.stored() == a.stored(),
        removed == b.tree().bottom_up(key, false),
        nodes_removed(b, c, removed),
        forall|k: ActionNodeKey| #[trigger]
            c.tree().has(k) && Some(k) != b.tree().parent_of(key) ==> c.tree().children_of(k) == b.tree().children_of(k),
        b.tree().parent_of(key) matches Some(p) ==> c.tree().children_of(p) == b.tree().children_of(p).remove(
            b.tree().children_of(p).index_of(key),
        ),
    ensures
        removed == seq![key],
        c.tree().keys() == a.tree().keys(),
        forall|k: ActionNodeKey| #[trigger] c.tree().has(k) ==> c.tree().parent_of(k) == a.tree().parent_of(k)
            && c.tree().children_of(k) == a.tree().children_of(k),
        c.stored() == a.stored().remove(key),
        c.current() == a.current(),
{
    assert(b.tree().has(key));
    law_leaf_walks(b.tree(), key, false);
    assert(removed.to_set() =~= set![key]) by {
        assert(removed[0] == key);
    }
    assert(c.tree().keys() =~= a.tree().keys());
    assert(c.stored() =~= a.stored().remove(key));
    if let Some(p) = parent {
        let x = a.tree().children_of(p);
        a.tree().lemma_children_present(p, false);
        assert(!x.contains(key)) by {
            if x.contains(key) {
                let i = choose|i: int| 0 <= i < x.len() && x[i] == key;
                assert(crate::action_tree::sibling_order(x, false)[i] == key);
            }
        }
        let y = x.push(key);
        assert(y[x.len() as int] == key);
        assert(y.index_of(key) == x.len()) by {
            let i = y.index_of(key);
            assert(y.contains(key));
            if i != x.len() {
                assert(y[i] == x[i]);
            }
        }
        assert(y.remove(x.len() as int) =~= x);
    }
    assert forall|k: ActionNodeKey| #[trigger] c.tree().has(k) implies c.tree().parent_of(k) == a.tree().parent_of(k)
        && c.tree().children_of(k) == a.tree().children_of(k) by {
        assert(a.tree().has(k));
        if Some(k) != parent {
            assert(c.tree().children_of(k) == b.tree().children_of(k));
        }
    }
}

/// A walk that stops at marked nodes never stops twice on one path: no
/// topmost marked node is an ancestor of another.
pub proof fn law_topmost_marked_are_unrelated(
    t: ActionTree,
    root: ActionNodeKey,
    rev: bool,
    marked: Set<u64>,
    a: ActionNodeKey,
    b: ActionNodeKey,
)
    requires
        t.wf(),
        t.has(root),
        t.top_down(root, rev).contains(a),
        topmost_marked(t, root, rev, marked, a),
        topmost_marked(t, root, rev, marked, b),
    ensures
        !t.ancestors_of(b).contains(a),
{
}

/// Removing a member right after adding it gives back the groups it was
/// added to.
pub proof fn law_remove_member_undoes_add(groups: Map<u64, Set<u64>>, g: u64, x: u64)
    requires
        groups.contains_key(g),
        !groups[g].contains(x),
    ensures
        ({
            let added = groups.insert(g, groups[g].insert(x));
            added.insert(g, added[g].remove(x))
        }) == groups,
{
    let added = groups.insert(g, groups[g].insert(x));
    assert(added[g].remove(x) =~= groups[g]);
    assert(added.insert(g, added[g].remove(x)) =~= groups);
}

/// Dropping a sync key right after creating it gives back the sync keys
/// there were.
pub proof fn law_drop_undoes_create_sync_key(syncs: Map<u64, Set<u64>>, k: u64)
    requires
        !syncs.contains_key(k),
    ensures
        syncs.insert(k, Set::empty()).remove(k) == syncs,
{
    assert(syncs.insert(k, Set::empty()).remove(k) =~= syncs);
}

/// Removed nodes leave every group and every sync key, and their actions
/// are dropped.
pub proof fn law_removed_nodes_leave_groups(a: Context, b: Context, removed: Seq<ActionNodeKey>, k: ActionNodeKey, g: u64)
    requires
        nodes_removed(a, b, removed),
        removed.contains(k),
    ensures
        b.groups().contains_key(g) ==> !b.groups()[g].contains(k.id()),
        b.syncs().contains_key(g) ==> !b.syncs()[g].contains(k.id()),
        !b.stored().contains(k),
        !b.tree().has(k),
{
    let ids = removed.map_values(|x: ActionNodeKey| x.id());
    let i = choose|i: int| 0 <= i < removed.len() && removed[i] == k;
    assert(ids[i] == k.id());
    assert(ids.to_set().contains(k.id()));
}

/// A write in full marks every action that read the value, wherever it is
/// in the tree.
pub proof fn law_full_write_marks_readers(
    order: Seq<ActionNodeKey>,
    root: ActionNodeKey,
    subs: Seq<Subscription>,
    writes: Seq<TrackedWrite>,
    i: int,
    j: int,
    w: int,
)
    requires
        0 <= i < subs.len(),
        0 <= j < subs[i].values@.len(),
        0 <= w < writes.len(),
        writes[w] == (TrackedWrite { value: subs[i].values@[j], forward_only: false }),
    ensures
        affected(order, root, subs, writes).contains(subs[i].node.id()),
{
    assert(written(writes, false).contains(subs[i].values@[j]));
    assert(reads_any(subs[i].values@, written(writes, false)));
}

/// A forward-only write marks only actions after the executing one: an
/// action marked without having read a value written in full comes after
/// `root`.
pub proof fn law_forward_only_writes_mark_later_actions(
    order: Seq<ActionNodeKey>,
    root: ActionNodeKey,
    subs: Seq<Subscription>,
    writes: Seq<TrackedWrite>,
    x: u64,
)
    requires
        affected(order, root, subs, writes).contains(x),
        forall|i: int| 0 <= i < subs.len() && (#[trigger] subs[i]).node.id() == x
            ==> !reads_any(subs[i].values@, written(writes, false)),
    ensures
        exists|i: int| 0 <= i < subs.len() && (#[trigger] subs[i]).node.id() == x && after_root(order, root, subs[i].node),
{
}

/// A notification that reran the actions tracking `g` without repeats and
/// exactly those ran each tracker once: each tracker appears at exactly one
/// place among the reruns, and nothing else does.
pub proof fn law_notify_reruns_each_tracker_once(ctx: Context, g: u64, reruns: Seq<ActionNodeKey>, k: ActionNodeKey)
    requires
        reruns.no_duplicates(),
        forall|x: ActionNodeKey| #[trigger] reruns.contains(x) <==> tracks(ctx, g, x),
    ensures
        tracks(ctx, g, k) ==> exists|i: int| 0 <= i < reruns.len() && reruns[i] == k && forall|j: int|
            0 <= j < reruns.len() && #[trigger] reruns[j] == k ==> j == i,
        !tracks(ctx, g, k) ==> forall|j: int| 0 <= j < reruns.len() ==> #[trigger] reruns[j] != k,
{
    if tracks(ctx, g, k) {
        assert(reruns.contains(k));
    } else {
        assert forall|j: int| 0 <= j < reruns.len() implies #[trigger] reruns[j] != k by {
            if reruns[j] == k {
                assert(reruns.contains(k));
            }
        }
    }
}

/// A round of a tracked run reruns every action tracking an id it handles,
/// and no other action: an action tracking a handled id is among the reruns,
/// and an action tracking none is not.
pub proof fn law_round_reruns_the_handled_trackers(
    ctx: Context,
    branch: Seq<ActionNodeKey>,
    reruns: Seq<ActionNodeKey>,
    g: u64,
    k: ActionNodeKey,
)
    requires
        forall|x: ActionNodeKey| #[trigger] reruns.contains(x) <==> exists|h: u64| #[trigger] handled_ids(ctx, branch).contains(h)
            && ctx.groups()[h].contains(x.id()),
    ensures
        handled_ids(ctx, branch).contains(g) && tracks(ctx, g, k) ==> reruns.contains(k),
        (forall|h: u64| #[trigger] handled_ids(ctx, branch).contains(h) ==> !tracks(ctx, h, k)) ==> !reruns.contains(k),
{
}

/// A rewind unsyncs the whole subtree before the first undo runs: its steps
/// start with the subtree leaving every sync key, and each undo comes after
/// that.
pub proof fn law_rewind_unsyncs_before_undos(node: ActionNodeKey, undos: Seq<ActionNodeKey>, i: int)
    requires
        0 <= i < undo_steps(undos).len(),
    ensures
        unsync_then_undos(node, undos)[0] == ExecStep::Unsynced(node, true),
        unsync_then_undos(node, undos)[i + 1] == ExecStep::Undo(undos[i]),
{
}

/// After a pass that covers its tree, the node it walked from needs no run,
/// or one of that node's ancestors ran: the walk left nothing runnable that
/// it reached.
pub proof fn law_covered_pass_leaves_its_root_done(
    ctx: Context,
    marks: crate::executor::Marks,
    root: ActionNodeKey,
    steps: Seq<ExecStep>,
)
    requires
        ctx.tree().wf(),
        pass_covered(ctx, marks, root, steps),
        forall|a: ActionNodeKey| #[trigger] ctx.tree().ancestors_of(root).contains(a) ==> !steps.contains(ExecStep::Ran(a)),
    ensures
        ctx.tree().has(root) ==> !(marks.needs_run_view().contains(root.id()) && ctx.stored().contains(root)),
{
    if ctx.tree().has(root) {
        ctx.tree().lemma_walk_facts(root, false, false);
        assert(ctx.tree().top_down(root, false).contains(root));
        if marks.needs_run_view().contains(root.id()) && ctx.stored().contains(root) {
            let a = choose|a: ActionNodeKey| #[trigger] ctx.tree().ancestors_of(root).contains(a) && steps.contains(
                ExecStep::Ran(a),
            );
            assert(!steps.contains(ExecStep::Ran(a)));
        }
    }
}

/// A tracked run that settles its branch leaves no queued id that only
/// actions of the branch track.
pub proof fn law_settled_branch_handles_its_ids(ctx: Context, branch: Seq<ActionNodeKey>, g: u64)
    requires
        settled(ctx, branch),
        ctx.queued().contains(g),
    ensures
        ctx.groups().contains_key(g),
        !ctx.groups()[g].subset_of(crate::tracking::ids_of(branch)),
{
}

} // verus!
