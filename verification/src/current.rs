//! The executing action, shared by everything that runs actions so they
//! agree on which one is executing.

use vstd::prelude::*;

use crate::action_tree::{ActionNodeKey, ActionTree, UnknownNode};
use crate::context::Context;

verus! {

/// No action is executing.
#[derive(Clone, Copy, PartialEq, Eq, Debug, Structural)]
pub struct NotExecuting;

/// The current-action resource.
#[derive(Clone, Copy, PartialEq, Eq, Debug, Structural)]
pub struct CurrentAction(pub Option<ActionNodeKey>);

pub trait CurrentActionExt: Sized {
    /// The executing action, or `NotExecuting` outside execution.
    fn current_action(&self) -> Result<ActionNodeKey, NotExecuting>;

    /// Runs `f` with `key` as the current action, restoring the previous one
    /// afterwards. Refuses unknown keys without running `f`.
    fn with_current_action<R, F: FnOnce(&mut Self) -> R>(
        &mut self,
        key: ActionNodeKey,
        f: F,
    ) -> Result<R, UnknownNode>
        requires
            forall|c: &mut Self| f.requires((c,)),
    ;
}

impl CurrentActionExt for Context {
    fn current_action(&self) -> (res: Result<ActionNodeKey, NotExecuting>)
        ensures
            match self.current() {
                Some(k) => res == Ok::<ActionNodeKey, NotExecuting>(k),
                None => res == Err::<ActionNodeKey, NotExecuting>(NotExecuting),
            },
    {
        match self.current {
            Some(k) => Ok(k),
            None => Err(NotExecuting),
        }
    }

    fn with_current_action<R, F: FnOnce(&mut Context) -> R>(
        &mut self,
        key: ActionNodeKey,
        f: F,
    ) -> (res: Result<R, UnknownNode>)
        ensures
            match res {
                Ok(r) => old(self).tree().has(key) && final(self).current() == old(self).current()
                    && returned_as_current(f, key, old(self).tree(), r),
                Err(e) => !old(self).tree().has(key) && e == UnknownNode(key) && *final(self)
                    == *old(self),
            },
    {
        proof {
            use_type_invariant(&*self);
        }
        if !self.core.tree.contains(key) {
            return Err(UnknownNode(key));
        }
        let previous = self.current;
        self.set_current(Some(key));
        let result = f(self);
        proof {
            assert(returned_as_current(f, key, old(self).tree(), result));
        }
        self.set_current(previous);
        Ok(result)
    }
}

/// `r` is a result `f` can return when it runs on a context whose tree is
/// `tree` and whose current action is `key`.
pub open spec fn returned_as_current<R, F: FnOnce(&mut Context) -> R>(f: F, key: ActionNodeKey, tree: ActionTree, r: R) -> bool {
    exists|c: &mut Context| (*c).current() == Some(key) && (*c).tree() == tree && #[trigger] f.ensures((c,), r)
}

} // verus!
