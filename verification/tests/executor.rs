use std::cell::{Cell, RefCell};
use std::rc::Rc;

use caaqi::action::{Action, ActionExt, NoStoredAction, RunActionError};
use caaqi::action_tree::{ActionTreeExt, UnknownNode};
use caaqi::builder::{rewind, sync_key};
use caaqi::sync::try_drop_sync_key;
use caaqi::context::Context;
use caaqi::current::CurrentActionExt;
use caaqi::executor::{
    execute_pass, execute_tree, rerun_node, rewind_action, rewind_node, run_action_node,
    ExecuteActionTrees, ExecuteError,
    FlushWrites, Marks, RewindError,
};
use caaqi::schedule::{Subscription, TrackedWrite};
use caaqi::sync::{create_sync_key, sync_with};

/// Counts its runs.
struct Count(Rc<Cell<i32>>);

impl Action for Count {
    type Output = ();
    fn run(&mut self, _ctx: &mut Context) {
        self.0.set(self.0.get() + 1);
    }
}

/// Counts its runs and makes a child action on each.
struct Parent(Rc<Cell<i32>>);

impl Action for Parent {
    type Output = ();
    fn run(&mut self, ctx: &mut Context) {
        self.0.set(self.0.get() + 1);
        ctx.create_branch_action(Count(Rc::new(Cell::new(0))));
    }
}

#[test]
fn marks_start_empty() {
    let mut ctx = Context::new();
    let key = ctx.create_root();
    let mut marks = Marks::new();
    assert!(!marks.needs_run(key));
    assert!(!marks.is_rewound(key));
    marks.mark_new_action(key);
    assert!(marks.needs_run(key));
    assert!(marks.is_rewound(key));
}

#[test]
fn execute_tree_runs_what_needs_a_run() {
    let mut ctx = Context::new();
    let runs = Rc::new(Cell::new(0));
    let root = ctx.create_root_action(Parent(runs.clone()));
    let mut marks = Marks::new();
    marks.mark_new_action(root);
    assert_eq!(execute_tree(&mut ctx, &mut marks, root), Ok(()));
    assert_eq!(runs.get(), 1);
    assert!(!marks.needs_run(root));
    assert_eq!(ctx.children(root).unwrap().len(), 1);
    let first_child = ctx.children(root).unwrap()[0];

    // Nothing needs a run: nothing runs.
    assert_eq!(execute_tree(&mut ctx, &mut marks, root), Ok(()));
    assert_eq!(runs.get(), 1);

    // A rerun rewinds first, so the old child goes.
    marks.mark_needs_run(root.to_id());
    assert_eq!(execute_tree(&mut ctx, &mut marks, root), Ok(()));
    assert_eq!(runs.get(), 2);
    assert!(!ctx.contains_node(first_child));
    assert_eq!(ctx.children(root).unwrap().len(), 1);
}

#[test]
fn execute_tree_refuses_unknown_roots() {
    let mut ctx = Context::new();
    let foreign = Context::new().create_root();
    let mut marks = Marks::new();
    assert_eq!(
        execute_tree(&mut ctx, &mut marks, foreign),
        Err(ExecuteError::UnknownNode(UnknownNode(foreign)))
    );
}

#[test]
fn rewind_node_runs_the_rewinds_below() {
    let mut ctx = Context::new();
    let root = ctx.create_root_action(Count(Rc::new(Cell::new(0))));
    let undone = Rc::new(Cell::new(0));
    let undo = ctx
        .with_current_action(root, |c: &mut Context| rewind(c, Count(undone.clone())))
        .unwrap()
        .unwrap();
    let mut marks = Marks::new();
    assert_eq!(rewind_node(&mut ctx, &mut marks, root), Ok(()));
    assert_eq!(undone.get(), 1);
    assert!(!ctx.contains_node(undo));
    assert!(marks.needs_run(root));
    assert!(marks.is_rewound(root));
    assert_eq!(run_action_node(&mut ctx, &mut marks, root), Ok(()));
    assert!(!marks.needs_run(root));
    assert!(!marks.is_rewound(root));
}

#[test]
fn rewinding_an_action_rewinds_later_synced_actions() {
    let mut ctx = Context::new();
    let root = ctx.create_root();
    let (a, b) = ctx
        .with_current_action(root, |c: &mut Context| {
            (
                c.create_branch_action(Count(Rc::new(Cell::new(0)))),
                c.create_branch_action(Count(Rc::new(Cell::new(0)))),
            )
        })
        .unwrap();
    let k = create_sync_key(&mut ctx);
    sync_with(&mut ctx, a, &vec![k]);
    sync_with(&mut ctx, b, &vec![k]);
    let mut marks = Marks::new();
    assert_eq!(rewind_action(&mut ctx, &mut marks, a, root), Ok(()));
    assert!(marks.is_rewound(a));
    assert!(marks.is_rewound(b));
    assert!(marks.needs_run(b));
    assert!(!marks.is_rewound(root));
}

#[test]
fn execute_action_trees_reports_whether_to_run_again() {
    let mut ctx = Context::new();
    let runs = Rc::new(Cell::new(0));
    let root = ctx.create_root_action(Parent(runs.clone()));
    let mut marks = Marks::new();
    marks.mark_new_action(root);
    let roots = vec![root];
    assert_eq!(ExecuteActionTrees.apply(&mut ctx, &mut marks, &roots), Ok(false));
    assert_eq!(runs.get(), 1);

    // A mark on a node without an action stays: the trees are to run again.
    let child = ctx.children(root).unwrap()[0];
    let bare = ctx.with_current_action(child, |c: &mut Context| c.create_branch()).unwrap();
    marks.mark_needs_run(bare.to_id());
    assert_eq!(ExecuteActionTrees.apply(&mut ctx, &mut marks, &roots), Ok(true));
}

#[test]
fn flush_writes_marks_the_readers() {
    let mut ctx = Context::new();
    let root = ctx.create_root();
    let (a, b) = ctx
        .with_current_action(root, |c: &mut Context| (c.create_branch(), c.create_branch()))
        .unwrap();
    let subs = vec![
        Subscription { node: a, values: vec![7] },
        Subscription { node: b, values: vec![7] },
    ];
    let writes = vec![TrackedWrite { value: 7, forward_only: true }];
    let mut marks = Marks::new();
    let marked = FlushWrites.apply(&ctx, &mut marks, root, a, &subs, &writes);
    assert_eq!(marked, [b.to_id()].into_iter().collect());
    assert!(marks.needs_run(b));
    assert!(!marks.needs_run(a));
    let full = vec![TrackedWrite { value: 7, forward_only: false }];
    FlushWrites.apply(&ctx, &mut marks, root, a, &subs, &full);
    assert!(marks.needs_run(a));
}

#[test]
fn run_action_node_reports_why_it_cannot_run() {
    let mut ctx = Context::new();
    let mut marks = Marks::new();
    let foreign = {
        let mut other = Context::new();
        other.create_root();
        other.create_root()
    };
    assert_eq!(
        run_action_node(&mut ctx, &mut marks, foreign),
        Err(RunActionError::UnknownNode(UnknownNode(foreign)))
    );
    let bare = ctx.create_root();
    marks.mark_new_action(bare);
    assert_eq!(
        run_action_node(&mut ctx, &mut marks, bare),
        Err(RunActionError::NoStoredAction(NoStoredAction { key: bare, output: "()" }))
    );
    // A failed run leaves the marks as they were.
    assert!(marks.needs_run(bare));
    assert!(marks.is_rewound(bare));

    let runs = Rc::new(Cell::new(0));
    let stored = ctx.create_root_action(Count(runs.clone()));
    marks.mark_new_action(stored);
    assert_eq!(run_action_node(&mut ctx, &mut marks, stored), Ok(()));
    assert_eq!(runs.get(), 1);
    assert!(!marks.needs_run(stored));
    assert!(!marks.is_rewound(stored));
}

#[test]
fn rewind_action_refuses_unknown_nodes() {
    let mut ctx = Context::new();
    let mut marks = Marks::new();
    let foreign = {
        let mut other = Context::new();
        other.create_root();
        other.create_root()
    };
    assert_eq!(
        rewind_action(&mut ctx, &mut marks, foreign, foreign),
        Err(RewindError::UnknownNode(UnknownNode(foreign)))
    );
    let root = ctx.create_root_action(Count(Rc::new(Cell::new(0))));
    assert_eq!(
        rewind_action(&mut ctx, &mut marks, foreign, root),
        Err(RewindError::UnknownNode(UnknownNode(foreign)))
    );
    assert_eq!(rewind_action(&mut ctx, &mut marks, root, root), Ok(()));
    assert!(marks.is_rewound(root));
    assert!(marks.needs_run(root));
}

#[test]
fn execute_pass_reports_whether_it_ran() {
    let mut ctx = Context::new();
    let runs = Rc::new(Cell::new(0));
    let root = ctx.create_root_action(Count(runs.clone()));
    let mut marks = Marks::new();
    assert_eq!(execute_pass(&mut ctx, &mut marks, root), Ok(false));
    marks.mark_new_action(root);
    assert_eq!(execute_pass(&mut ctx, &mut marks, root), Ok(true));
    assert_eq!(runs.get(), 1);
    assert_eq!(execute_pass(&mut ctx, &mut marks, root), Ok(false));
    let foreign = {
        let mut other = Context::new();
        other.create_root();
        other.create_root()
    };
    assert_eq!(
        execute_pass(&mut ctx, &mut marks, foreign),
        Err(ExecuteError::UnknownNode(UnknownNode(foreign)))
    );
}

#[test]
fn rerun_node_rewinds_first_unless_rewound() {
    let mut ctx = Context::new();
    let runs = Rc::new(Cell::new(0));
    let root = ctx.create_root_action(Parent(runs.clone()));
    let mut marks = Marks::new();
    marks.mark_new_action(root);
    assert_eq!(rerun_node(&mut ctx, &mut marks, root, root), Ok(()));
    assert_eq!(runs.get(), 1);
    assert!(!marks.is_rewound(root));
    let first_child = ctx.children(root).unwrap()[0];
    // Not rewound: the rerun rewinds first, which removes the old child.
    assert_eq!(rerun_node(&mut ctx, &mut marks, root, root), Ok(()));
    assert_eq!(runs.get(), 2);
    assert!(!ctx.contains_node(first_child));
    assert!(!marks.is_rewound(root));
    assert!(!marks.needs_run(root));
}

/// Pushes its label to a shared log.
struct Log(Rc<RefCell<Vec<&'static str>>>, &'static str);

impl Action for Log {
    type Output = ();
    fn run(&mut self, _ctx: &mut Context) {
        self.0.borrow_mut().push(self.1);
    }
}

/// Logs its runs and registers an undo that logs its label.
struct WithUndo(Rc<RefCell<Vec<&'static str>>>, &'static str, &'static str);

impl Action for WithUndo {
    type Output = ();
    fn run(&mut self, ctx: &mut Context) {
        self.0.borrow_mut().push(self.1);
        rewind(ctx, Log(self.0.clone(), self.2)).unwrap();
    }
}

#[test]
fn a_rerun_runs_the_registered_undo_first() {
    let log = Rc::new(RefCell::new(Vec::new()));
    let mut ctx = Context::new();
    let root = ctx.create_root_action(WithUndo(log.clone(), "ran", "rewound"));
    assert_eq!(ctx.run_action(root), Ok(()));
    let mut marks = Marks::new();
    marks.mark_needs_run(root.to_id());
    assert_eq!(execute_tree(&mut ctx, &mut marks, root), Ok(()));
    assert_eq!(*log.borrow(), vec!["ran", "rewound", "ran"]);
    assert!(!marks.needs_run(root));
}

/// Creates two children that each register an undo.
struct TwoUndos(Rc<RefCell<Vec<&'static str>>>);

impl Action for TwoUndos {
    type Output = ();
    fn run(&mut self, ctx: &mut Context) {
        ctx.create_branch_action(WithUndo(self.0.clone(), "first", "undo first"));
        ctx.create_branch_action(WithUndo(self.0.clone(), "second", "undo second"));
        let children = ctx.children(ctx.current_action().unwrap()).unwrap().to_vec();
        for child in children {
            ctx.run_action(child).unwrap();
        }
    }
}

#[test]
fn undos_run_last_to_first() {
    let log = Rc::new(RefCell::new(Vec::new()));
    let mut ctx = Context::new();
    let root = ctx.create_root_action(TwoUndos(log.clone()));
    assert_eq!(ctx.run_action(root), Ok(()));
    let mut marks = Marks::new();
    assert_eq!(rewind_node(&mut ctx, &mut marks, root), Ok(()));
    assert_eq!(*log.borrow(), vec!["first", "second", "undo second", "undo first"]);
    assert!(ctx.children(root).unwrap().is_empty());
}

/// Makes a sync key on each run and records it.
struct MakesKey(Rc<Cell<Option<caaqi::sync::SyncKey>>>);

impl Action for MakesKey {
    type Output = ();
    fn run(&mut self, ctx: &mut Context) {
        self.0.set(Some(sync_key(ctx).unwrap()));
    }
}

#[test]
fn rewinding_drops_the_sync_keys_the_action_made() {
    let key = Rc::new(Cell::new(None));
    let mut ctx = Context::new();
    let root = ctx.create_root_action(MakesKey(key.clone()));
    assert_eq!(ctx.run_action(root), Ok(()));
    let k = key.get().unwrap();
    let mut marks = Marks::new();
    assert_eq!(rewind_node(&mut ctx, &mut marks, root), Ok(()));
    // The undo dropped the key: it no longer exists.
    assert!(!try_drop_sync_key(&mut ctx, k));
}
