use std::cell::Cell;
use std::rc::Rc;

use caaqi::action::{Action, ActionExt, BoxAction, NoStoredAction, RunActionError};
use caaqi::action_tree::{ActionNodeKey, ActionTreeExt, NodeExecuting, UnknownNode};
use caaqi::context::Context;
use caaqi::current::{CurrentActionExt, NotExecuting};

/// Counts its runs.
struct Count(Rc<Cell<i32>>);

impl Action for Count {
    type Output = ();
    fn run(&mut self, _ctx: &mut Context) {
        self.0.set(self.0.get() + 1);
    }
}

/// Records the current action of each run.
struct RecordCurrent(Rc<Cell<Option<Result<ActionNodeKey, NotExecuting>>>>);

impl Action for RecordCurrent {
    type Output = ();
    fn run(&mut self, ctx: &mut Context) {
        self.0.set(Some(ctx.current_action()));
    }
}

/// Creates a branch on each run and records it.
struct MakeBranch(Rc<Cell<Option<ActionNodeKey>>>);

impl Action for MakeBranch {
    type Output = ();
    fn run(&mut self, ctx: &mut Context) {
        let key = ctx.create_branch();
        self.0.set(Some(key));
    }
}

/// Tries to rerun itself and records the answer.
struct RerunSelf(Rc<Cell<Option<Result<(), RunActionError>>>>);

impl Action for RerunSelf {
    type Output = ();
    fn run(&mut self, ctx: &mut Context) {
        let key = ctx.current_action().unwrap();
        self.0.set(Some(ctx.run_action(key)));
    }
}

/// Returns the current action.
struct Current;

impl Action for Current {
    type Output = Result<ActionNodeKey, NotExecuting>;
    fn run(&mut self, ctx: &mut Context) -> Self::Output {
        ctx.current_action()
    }
}

/// Creates a branch action under the current one and returns it.
struct NestBranchAction;

impl Action for NestBranchAction {
    type Output = ActionNodeKey;
    fn run(&mut self, ctx: &mut Context) -> ActionNodeKey {
        ctx.create_branch_action(Count(Rc::new(Cell::new(0))))
    }
}

#[test]
fn create_root_action_stores_without_running() {
    let mut ctx = Context::new();
    let runs = Rc::new(Cell::new(0));
    let key = ctx.create_root_action(Count(runs.clone()));
    assert_eq!(runs.get(), 0);
    assert_eq!(ctx.has_stored_action(key), Ok(true));
    assert_eq!(ctx.parent(key), Ok(None));
}

#[test]
fn create_branch_action_parents_under_the_current_action_if_any() {
    let mut ctx = Context::new();
    let root = ctx.create_branch_action(Count(Rc::new(Cell::new(0))));
    assert_eq!(ctx.parent(root), Ok(None));
    assert_eq!(ctx.has_stored_action(root), Ok(true));

    let (parent, child) = ctx.run_node(NestBranchAction);
    assert_eq!(ctx.parent(child), Ok(Some(parent)));
    assert_eq!(ctx.has_stored_action(child), Ok(true));
    // The node run_node made only records where the action ran.
    assert_eq!(ctx.has_stored_action(parent), Ok(false));
}

#[test]
fn run_node_runs_with_the_new_node_as_current() {
    let mut ctx = Context::new();
    let (key, current) = ctx.run_node(Current);
    assert_eq!(current, Ok(key));
    assert_eq!(ctx.current_action(), Err(NotExecuting));
}

#[test]
fn run_action_reruns_and_keeps_the_action() {
    let mut ctx = Context::new();
    let runs = Rc::new(Cell::new(0));
    let key = ctx.create_root_action(Count(runs.clone()));
    assert_eq!(ctx.run_action(key), Ok(()));
    assert_eq!(runs.get(), 1);
    assert_eq!(ctx.run_action(key), Ok(()));
    assert_eq!(runs.get(), 2);
    assert_eq!(ctx.has_stored_action(key), Ok(true));
}

#[test]
fn run_action_sets_the_current_action() {
    let mut ctx = Context::new();
    let seen = Rc::new(Cell::new(None));
    let key = ctx.create_root_action(RecordCurrent(seen.clone()));
    assert_eq!(ctx.run_action(key), Ok(()));
    assert_eq!(seen.get(), Some(Ok(key)));
    assert_eq!(ctx.current_action(), Err(NotExecuting));
}

#[test]
fn run_action_recreates_descendants() {
    let mut ctx = Context::new();
    let made = Rc::new(Cell::new(None));
    let key = ctx.create_root_action(MakeBranch(made.clone()));
    ctx.run_action(key).unwrap();
    let first = made.get().unwrap();
    ctx.run_action(key).unwrap();
    let second = made.get().unwrap();
    assert!(!ctx.contains_node(first));
    assert_eq!(ctx.children(key), Ok(&[second][..]));
}

#[test]
fn run_action_rejects_nodes_without_an_action() {
    let mut ctx = Context::new();
    let key = ctx.create_root();
    assert_eq!(
        ctx.run_action(key),
        Err(RunActionError::NoStoredAction(NoStoredAction { key, output: "()" }))
    );
    assert_eq!(ctx.has_stored_action(key), Ok(false));
}

#[test]
fn run_action_rejects_unknown_nodes() {
    let foreign = Context::new().create_root();
    let mut ctx = Context::new();
    assert_eq!(
        ctx.run_action(foreign),
        Err(RunActionError::UnknownNode(UnknownNode(foreign)))
    );
    assert_eq!(ctx.has_stored_action(foreign), Err(UnknownNode(foreign)));
}

#[test]
fn run_action_rejects_executing_nodes() {
    let mut ctx = Context::new();
    let answer = Rc::new(Cell::new(None));
    let key = ctx.create_root_action(RerunSelf(answer.clone()));
    assert_eq!(ctx.run_action(key), Ok(()));
    assert_eq!(
        answer.get(),
        Some(Err(RunActionError::NodeExecuting(NodeExecuting(key))))
    );
    assert_eq!(ctx.has_stored_action(key), Ok(true));
}

#[test]
fn removing_the_node_drops_its_action() {
    let mut ctx = Context::new();
    let key = ctx.create_root_action(Count(Rc::new(Cell::new(0))));
    ctx.remove_node(key).unwrap();
    assert_eq!(ctx.has_stored_action(key), Err(UnknownNode(key)));
}

#[test]
fn boxed_actions_run_the_action_inside() {
    let mut ctx = Context::new();
    let runs = Rc::new(Cell::new(0));
    let mut boxed = BoxAction::new(Count(runs.clone()));
    boxed.run(&mut ctx);
    boxed.run(&mut ctx);
    assert_eq!(runs.get(), 2);
}

#[test]
fn begin_run_clears_children_and_finish_run_restores() {
    let mut ctx = Context::new();
    let runs = Rc::new(Cell::new(0));
    let key = ctx.create_root_action(Count(runs.clone()));
    let child = ctx.with_current_action(key, |c: &mut Context| c.create_branch()).unwrap();
    let (mut action, previous) = ctx.begin_run(key).unwrap();
    assert_eq!(previous, None);
    assert_eq!(ctx.current_action(), Ok(key));
    assert!(!ctx.contains_node(child));
    assert_eq!(ctx.has_stored_action(key), Ok(false));
    action.run(&mut ctx);
    ctx.finish_run(key, action, previous);
    assert_eq!(runs.get(), 1);
    assert_eq!(ctx.current_action(), Err(NotExecuting));
    assert_eq!(ctx.has_stored_action(key), Ok(true));
    let bare = ctx.create_root();
    assert!(matches!(
        ctx.begin_run(bare),
        Err(RunActionError::NoStoredAction(NoStoredAction { key: k, output: "()" })) if k == bare
    ));
}
