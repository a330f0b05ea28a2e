//! Actions: rerunnable code stored at action nodes.

use vstd::prelude::*;

use crate::action_tree::{
    current_in_tree, executing_below, node_added, ActionNodeKey, ActionTreeExt, ClearChildrenError,
    NodeExecuting, UnknownNode,
};
use crate::collections::{action_map, actions_contains, actions_insert, actions_remove};
use crate::context::{Context, Core};
use crate::current::CurrentActionExt;

verus! {

/// The action stored at `key` can't be run: storage only holds actions
/// with the output `output`, and `key` has none.
#[derive(Clone, Copy, PartialEq, Eq, Debug)]
pub struct NoStoredAction {
    pub key: ActionNodeKey,
    pub output: &'static str,
}

#[derive(Clone, Copy, PartialEq, Eq, Debug)]
pub enum RunActionError {
    UnknownNode(UnknownNode),
    NodeExecuting(NodeExecuting),
    NoStoredAction(NoStoredAction),
}

/// Rerunnable code: runs with the whole context.
pub trait Action {
    type Output;

    fn run(&mut self, ctx: &mut Context) -> Self::Output;
}

/// An action seen only through what it outputs.
pub trait RunAs<O> {
    fn run_as(&mut self, ctx: &mut Context) -> O;
}

impl<A: Action> RunAs<A::Output> for A {
    fn run_as(&mut self, ctx: &mut Context) -> A::Output {
        self.run(ctx)
    }
}

/// A boxed action with output `O`.
#[verifier::reject_recursive_types(O)]
pub struct BoxAction<O> {
    action: Box<dyn RunAs<O>>,
}

impl<O> BoxAction<O> {
    pub fn new<A: Action<Output = O> + 'static>(action: A) -> (res: Self) {
        BoxAction { action: Box::new(action) }
    }
}

impl<O> Action for BoxAction<O> {
    type Output = O;

    fn run(&mut self, ctx: &mut Context) -> O {
        self.action.run_as(ctx)
    }
}

impl Core {
    /// Stores `action` at `key`, a node of the tree, returning the action
    /// it replaces.
    pub(crate) fn store_action(&mut self, key: ActionNodeKey, action: BoxAction<()>) -> (res: Option<BoxAction<()>>)
        requires
            old(self).wf(),
            old(self).tree.has(key),
        ensures
            final(self).wf(),
            final(self).tree == old(self).tree,
            final(self).groups == old(self).groups,
            final(self).syncs == old(self).syncs,
            action_map(final(self).actions).dom() == action_map(old(self).actions).dom().insert(key),
            res is Some <==> action_map(old(self).actions).contains_key(key),
    {
        proof {
            self.tree.lemma_keys();
            assert forall|k: ActionNodeKey| #[trigger]
                action_map(self.actions).contains_key(k) && k.idx() == key.idx() implies k == key by {
                assert(self.tree.has(k));
            }
        }
        let res = actions_insert(&mut self.actions, key, action);
        proof {
            assert(action_map(self.actions).dom() =~= action_map(old(self).actions).dom().insert(key));
        }
        res
    }

    /// Takes the action stored at `key` out of storage.
    pub(crate) fn take_action(&mut self, key: ActionNodeKey) -> (res: Option<BoxAction<()>>)
        requires
            old(self).wf(),
            old(self).tree.has(key),
        ensures
            final(self).wf(),
            final(self).tree == old(self).tree,
            final(self).groups == old(self).groups,
            final(self).syncs == old(self).syncs,
            action_map(final(self).actions).dom() == action_map(old(self).actions).dom().remove(key),
            res is Some <==> action_map(old(self).actions).contains_key(key),
    {
        proof {
            self.tree.lemma_keys();
        }
        let res = actions_remove(&mut self.actions, key);
        proof {
            assert(action_map(self.actions).dom() =~= action_map(old(self).actions).dom().remove(key));
        }
        res
    }
}

/// Runs `action` once, consuming it.
fn run_once<A: Action>(action: A, ctx: &mut Context) -> A::Output {
    let mut action = action;
    action.run(ctx)
}

/// What storing an action at a fresh node leaves alone.
pub open spec fn stored_at(a: Context, b: Context, key: ActionNodeKey) -> bool {
    &&& b.stored() == a.stored().insert(key)
    &&& b.current() == a.current()
    &&& b.groups() == a.groups()
    &&& b.next_group_id() == a.next_group_id()
    &&& b.syncs() == a.syncs()
    &&& b.next_sync_key() == a.next_sync_key()
    &&& b.queued() == a.queued()
    &&& b.rewind_ids() == a.rewind_ids()
}

pub trait ActionExt: ActionTreeExt {
    /// Creates a node under the executing action (or a root outside
    /// execution) and runs `action` with that node as the current action.
    ///
    /// The action body is dropped afterwards, so the node only records where
    /// the action ran and can't be rerun.
    fn run_node<A: Action>(&mut self, action: A) -> (ActionNodeKey, A::Output)
        requires
            old(self).can_add_node(),
            old(self).current_in_tree(),
    ;

    /// Creates a root storing `action`, without running it.
    fn create_root_action<A: Action<Output = ()> + 'static>(&mut self, action: A) -> ActionNodeKey
        requires
            old(self).can_add_node(),
    ;

    /// Creates a child of the executing action (or a root outside execution)
    /// storing `action`, without running it.
    fn create_branch_action<A: Action<Output = ()> + 'static>(&mut self, action: A) -> ActionNodeKey
        requires
            old(self).can_add_node(),
            old(self).current_in_tree(),
    ;

    /// Whether `key` stores an action. Actions taken out to run aren't
    /// stored until they finish.
    fn has_stored_action(&self, key: ActionNodeKey) -> Result<bool, UnknownNode>;

    /// Reruns the action stored at `key` with `key` as the current action.
    /// Its descendants are removed first, so the run recreates them: the
    /// run gets the context as [`Context::begin_run`] leaves it, and
    /// [`Context::finish_run`] ends it.
    fn run_action(&mut self, key: ActionNodeKey) -> Result<(), RunActionError>;
}

impl ActionExt for Context {
    fn run_node<A: Action>(&mut self, action: A) -> (res: (ActionNodeKey, A::Output))
        ensures
            !old(self).tree().has(res.0),
            final(self).current() == old(self).current(),
    {
        let key = self.create_branch();
        let output = match self.with_current_action(key, move |ctx: &mut Context| run_once(action, ctx)) {
            Ok(output) => output,
            Err(_) => vstd::pervasive::unreached(),
        };
        (key, output)
    }

    fn create_root_action<A: Action<Output = ()> + 'static>(&mut self, action: A) -> (res: ActionNodeKey)
        ensures
            node_added(*old(self), *final(self), res, None),
            stored_at(*old(self), *final(self), res),
    {
        let key = self.create_root();
        self.store(key, BoxAction::new(action));
        key
    }

    fn create_branch_action<A: Action<Output = ()> + 'static>(&mut self, action: A) -> (res: ActionNodeKey)
        ensures
            node_added(*old(self), *final(self), res, old(self).current()),
            stored_at(*old(self), *final(self), res),
    {
        let key = self.create_branch();
        self.store(key, BoxAction::new(action));
        key
    }

    fn has_stored_action(&self, key: ActionNodeKey) -> (res: Result<bool, UnknownNode>)
        ensures
            match res {
                Ok(b) => self.tree().has(key) && b == self.stored().contains(key),
                Err(e) => !self.tree().has(key) && e == UnknownNode(key),
            },
    {
        proof {
            use_type_invariant(self);
            self.core.tree.lemma_keys();
        }
        self.core.tree.node(key)?;
        Ok(actions_contains(&self.core.actions, key))
    }

    fn run_action(&mut self, key: ActionNodeKey) -> (res: Result<(), RunActionError>)
        ensures
            final(self).current() == old(self).current(),
            match res {
                Ok(()) => {
                    &&& old(self).tree().has(key)
                    &&& old(self).current() != Some(key) && !executing_below(*old(self), key)
                    &&& old(self).stored().contains(key)
                    &&& final(self).tree().has(key) ==> final(self).stored().contains(key)
                },
                Err(RunActionError::UnknownNode(e)) => !old(self).tree().has(key) && e == UnknownNode(key)
                    && *final(self) == *old(self),
                Err(RunActionError::NodeExecuting(e)) => old(self).tree().has(key)
                    && (old(self).current() == Some(key) || executing_below(*old(self), key))
                    && e == NodeExecuting(key) && *final(self) == *old(self),
                Err(RunActionError::NoStoredAction(e)) => {
                    &&& old(self).tree().has(key)
                    &&& old(self).current() != Some(key) && !executing_below(*old(self), key)
                    &&& !old(self).stored().contains(key)
                    &&& e.key == key && e.output@ == "()"@
                    &&& *final(self) == *old(self)
                },
            },
    {
        let (mut action, previous) = match self.begin_run(key) {
            Ok(taken) => taken,
            Err(e) => {
                return Err(e);
            },
        };
        action.run(self);
        self.finish_run(key, action, previous);
        Ok(())
    }
}

impl Context {
    /// Readies `key` for a run of its stored action: takes the action out
    /// of storage, so the run can use the whole context, removes the
    /// descendants the last run made, and makes `key` the current action.
    /// Returns the action and the action that was current before.
    pub fn begin_run(&mut self, key: ActionNodeKey) -> (res: Result<(BoxAction<()>, Option<ActionNodeKey>), RunActionError>)
        ensures
            match res {
                Ok((_, previous)) => {
                    &&& previous == old(self).current()
                    &&& old(self).tree().has(key)
                    &&& old(self).current() != Some(key) && !executing_below(*old(self), key)
                    &&& old(self).stored().contains(key)
                    &&& final(self).current() == Some(key)
                    &&& final(self).tree().keys() == old(self).tree().keys().difference(
                        old(self).tree().bottom_up(key, false).drop_last().to_set(),
                    )
                    &&& final(self).tree().has(key)
                    &&& final(self).tree().children_of(key).len() == 0
                    &&& !final(self).stored().contains(key)
                },
                Err(RunActionError::UnknownNode(e)) => !old(self).tree().has(key) && e == UnknownNode(key)
                    && *final(self) == *old(self),
                Err(RunActionError::NodeExecuting(e)) => old(self).tree().has(key)
                    && (old(self).current() == Some(key) || executing_below(*old(self), key))
                    && e == NodeExecuting(key) && *final(self) == *old(self),
                Err(RunActionError::NoStoredAction(e)) => {
                    &&& old(self).tree().has(key)
                    &&& old(self).current() != Some(key) && !executing_below(*old(self), key)
                    &&& !old(self).stored().contains(key)
                    &&& e.key == key && e.output@ == "()"@
                    &&& *final(self) == *old(self)
                },
            },
    {
        proof {
            use_type_invariant(&*self);
        }
        if !self.core.tree.contains(key) {
            return Err(RunActionError::UnknownNode(UnknownNode(key)));
        }
        // Also rules out executing descendants, which would make `key` an
        // ancestor of the current action.
        if self.has_executing(key) {
            return Err(RunActionError::NodeExecuting(NodeExecuting(key)));
        }
        proof {
            self.core.tree.lemma_keys();
        }
        if !actions_contains(&self.core.actions, key) {
            return Err(RunActionError::NoStoredAction(NoStoredAction { key, output: "()" }));
        }
        let mut core = Core::new();
        std::mem::swap(&mut core, &mut self.core);
        let taken = core.take_action(key);
        self.core = core;
        let action = match taken {
            Some(action) => action,
            None => {
                return vstd::pervasive::unreached();
            },
        };
        match self.clear_children(key) {
            Ok(_) => {},
            Err(_) => {
                return vstd::pervasive::unreached();
            },
        }
        let previous = self.current;
        self.set_current(Some(key));
        Ok((action, previous))
    }

    /// Ends a run of `key`: makes `previous` the current action again and
    /// puts `action` back in storage, if `key` is still in the tree.
    pub fn finish_run(&mut self, key: ActionNodeKey, action: BoxAction<()>, previous: Option<ActionNodeKey>)
        ensures
            final(self).current() == previous,
            final(self).tree() == old(self).tree(),
            final(self).tree().has(key) ==> final(self).stored() == old(self).stored().insert(key),
            !final(self).tree().has(key) ==> final(self).stored() == old(self).stored(),
    {
        self.set_current(previous);
        proof {
            use_type_invariant(&*self);
        }
        // A run can't remove its own node, which is executing; only a run
        // that replaced the whole context can leave it out of the tree.
        if self.core.tree.contains(key) {
            self.store(key, action);
        }
    }
}

impl Context {
    /// Stores `action` at `key`, a node of the tree.
    fn store(&mut self, key: ActionNodeKey, action: BoxAction<()>)
        requires
            old(self).tree().has(key),
        ensures
            final(self).tree() == old(self).tree(),
            stored_at(*old(self), *final(self), key),
    {
        proof {
            use_type_invariant(&*self);
        }
        let mut core = Core::new();
        std::mem::swap(&mut core, &mut self.core);
        let _ = core.store_action(key, action);
        self.core = core;
    }
}

} // verus!
