//! Building the action tree from inside running actions: rerunnable
//! actions, rewinds that undo what an action did, and sync keys that live
//! as long as the action that made them.

use vstd::prelude::*;

use crate::action::{stored_at, Action, ActionExt};
use crate::action_tree::{executing_below, node_added, ActionNodeKey, ActionTreeExt};
use crate::context::Context;
use crate::current::NotExecuting;
use crate::grouping::GroupingExt;
use crate::sync::{create_sync_key, same_but_syncs, try_drop_sync_key, SyncKey};

verus! {

/// Creates a rerunnable action under the executing action (or a root
/// outside execution) and runs it right away.
pub fn action<A: Action<Output = ()> + 'static>(ctx: &mut Context, body: A) -> (res: ActionNodeKey)
    requires
        old(ctx).can_add_node(),
        old(ctx).current_in_tree(),
    ensures
        !old(ctx).tree().has(res),
        final(ctx).current() == old(ctx).current(),
        final(ctx).tree().has(res) ==> final(ctx).stored().contains(res),
{
    let key = ctx.create_branch_action(body);
    proof {
        use_type_invariant(&*ctx);
        lemma_fresh_not_executing(*ctx, key);
    }
    match ctx.run_action(key) {
        Ok(()) => {},
        Err(_) => {
            vstd::pervasive::unreached::<()>();
        },
    }
    key
}

/// A node that was just added as a leaf under the executing action is not
/// executing, and nothing below it is.
proof fn lemma_fresh_not_executing(ctx: Context, key: ActionNodeKey)
    requires
        ctx.tree().wf(),
        ctx.tree().has(key),
        ctx.tree().children_of(key).len() == 0,
        ctx.current() != Some(key),
        ctx.current() matches Some(c) ==> ctx.tree().has(c),
    ensures
        !executing_below(ctx, key),
{
    if let Some(c) = ctx.current() {
        ctx.tree().lemma_leaf_not_ancestor(key, c);
    }
}

/// What registering a rewind at the fresh node `key` leaves alone: `key`
/// stores the undo and is recorded as a rewind, which a rewind of an action
/// above it runs.
pub open spec fn rewind_added(a: Context, b: Context, key: ActionNodeKey) -> bool {
    &&& b.stored() == a.stored().insert(key)
    &&& b.rewind_ids() == a.rewind_ids().insert(key.id())
    &&& b.current() == a.current()
    &&& b.groups() == a.groups()
    &&& b.next_group_id() == a.next_group_id()
    &&& b.syncs() == a.syncs()
    &&& b.next_sync_key() == a.next_sync_key()
    &&& b.queued() == a.queued()
}

/// Registers `undo` to run when the executing action is rewound: it is
/// stored in a new child of the executing action, recorded as a rewind.
pub fn rewind<A: Action<Output = ()> + 'static>(ctx: &mut Context, undo: A) -> (res: Result<ActionNodeKey, NotExecuting>)
    requires
        old(ctx).can_add_node(),
        old(ctx).current_in_tree(),
    ensures
        match res {
            Ok(key) => old(ctx).current() is Some && node_added(*old(ctx), *final(ctx), key, old(ctx).current())
                && rewind_added(*old(ctx), *final(ctx), key),
            Err(e) => old(ctx).current() is None && e == NotExecuting && *final(ctx) == *old(ctx),
        },
{
    if ctx.current.is_none() {
        return Err(NotExecuting);
    }
    let key = ctx.create_branch_action(undo);
    ctx.mark_rewind_node(key);
    Ok(key)
}

/// Drops its sync key when run, if nothing is synced with the key any
/// more.
pub struct DropSyncKey(pub SyncKey);

impl Action for DropSyncKey {
    type Output = ();

    fn run(&mut self, ctx: &mut Context)
        ensures
            *final(self) == *old(self),
            old(ctx).syncs().contains_key(old(self).0.id()) && old(ctx).syncs()[old(self).0.id()].is_empty()
                ==> final(ctx).syncs() == old(ctx).syncs().remove(old(self).0.id()),
            !(old(ctx).syncs().contains_key(old(self).0.id()) && old(ctx).syncs()[old(self).0.id()].is_empty())
                ==> *final(ctx) == *old(ctx),
            final(ctx).next_sync_key() == old(ctx).next_sync_key(),
            same_but_syncs(*old(ctx), *final(ctx)),
    {
        let _ = try_drop_sync_key(ctx, self.0);
    }
}

/// Creates a sync key that is dropped when the executing action is
/// rewound.
pub fn sync_key(ctx: &mut Context) -> (res: Result<SyncKey, NotExecuting>)
    requires
        old(ctx).can_add_node(),
        old(ctx).current_in_tree(),
        old(ctx).next_sync_key() < u64::MAX,
    ensures
        match res {
            Ok(key) => {
                &&& old(ctx).current() is Some
                &&& !old(ctx).syncs().contains_key(key.id())
                &&& final(ctx).syncs() == old(ctx).syncs().insert(key.id(), Set::empty())
                &&& final(ctx).next_sync_key() == old(ctx).next_sync_key() + 1
                &&& final(ctx).current() == old(ctx).current()
                &&& exists|undo: ActionNodeKey| #[trigger] node_added(*old(ctx), *final(ctx), undo, old(ctx).current())
                    && final(ctx).stored() == old(ctx).stored().insert(undo)
                    && final(ctx).rewind_ids() == old(ctx).rewind_ids().insert(undo.id())
            },
            Err(e) => old(ctx).current() is None && e == NotExecuting && *final(ctx) == *old(ctx),
        },
{
    if ctx.current.is_none() {
        return Err(NotExecuting);
    }
    let ghost c0 = *ctx;
    let key = create_sync_key(ctx);
    let ghost c1 = *ctx;
    let undo = match rewind(ctx, DropSyncKey(key)) {
        Ok(undo) => undo,
        Err(_) => {
            return vstd::pervasive::unreached();
        },
    };
    proof {
        assert(node_added(c0, *ctx, undo, c0.current()));
    }
    Ok(key)
}

} // verus!
