//! Running an action as a tracked child of the executing action.

use vstd::prelude::*;

use crate::action::Action;
use crate::action_tree::{ActionNodeKey, ActionTree, ActionTreeExt};
use crate::context::Context;
use crate::current::NotExecuting;
use crate::tracking::{settled, RunTrackedError, TrackingExt};

verus! {

/// Runs `action` as a tracked child of the executing action, rerunning what
/// it notifies until nothing handled by it is left queued.
pub fn run_action<A: Action<Output = ()> + 'static>(ctx: &mut Context, action: A) -> (res: Result<(), RunTrackedError>)
    requires
        old(ctx).can_add_node(),
        old(ctx).current_in_tree(),
    ensures
        final(ctx).current() == old(ctx).current(),
        (res matches Err(RunTrackedError::NotExecuting(_))) <==> old(ctx).current() is None,
        res matches Err(RunTrackedError::NotExecuting(e)) ==> e == NotExecuting && *final(ctx) == *old(ctx),
        res is Ok ==> exists|t: ActionTree, node: ActionNodeKey| #[trigger] t.has(node) && !old(ctx).tree().has(node)
            && settled(*final(ctx), t.top_down(node, false)),
        res is Ok ==> {
            &&& !old(ctx).tree().has(final(ctx).tracked_node())
            &&& final(ctx).tracked_tree().has(final(ctx).tracked_node())
            &&& settled(*final(ctx), final(ctx).tracked_tree().top_down(final(ctx).tracked_node(), false))
        },
{
    ctx.run_tracked_checked(action)
}

} // verus!
