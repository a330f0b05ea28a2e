use std::cell::Cell;
use std::rc::Rc;

use caaqi::action::{Action, ActionExt};
use caaqi::action_tree::ActionTreeExt;
use caaqi::context::Context;
use caaqi::current::CurrentActionExt;
use caaqi::current::NotExecuting;
use caaqi::runner::run_action;
use caaqi::tracking::{RunTrackedError, TrackError, TrackingExt, TrackingId, UnknownTrackingId};

/// Tracks `id` and counts its runs; its first run notifies `id`.
struct Reader {
    id: TrackingId,
    runs: Rc<Cell<i32>>,
}

impl Action for Reader {
    type Output = ();
    fn run(&mut self, ctx: &mut Context) {
        ctx.track_checked(self.id).unwrap();
        self.runs.set(self.runs.get() + 1);
        if self.runs.get() == 1 {
            // The reader is executing, so the rerun waits for the tracked run.
            assert!(ctx.notify_checked(self.id).unwrap().is_err());
        }
    }
}

/// Runs a tracked `Reader` and records the result.
struct Host {
    id: TrackingId,
    runs: Rc<Cell<i32>>,
    result: Rc<Cell<Option<Result<(), RunTrackedError>>>>,
    through_runner: bool,
}

impl Action for Host {
    type Output = ();
    fn run(&mut self, ctx: &mut Context) {
        let reader = Reader { id: self.id, runs: self.runs.clone() };
        let result = if self.through_runner {
            run_action(ctx, reader)
        } else {
            ctx.run_tracked_checked(reader)
        };
        self.result.set(Some(result));
    }
}

fn unknown_tracking_id() -> TrackingId {
    let mut other = Context::new();
    other.create_tracking_id();
    other.create_tracking_id();
    other.create_tracking_id()
}

#[test]
fn track_needs_an_executing_action() {
    let mut ctx = Context::new();
    let id = ctx.create_tracking_id();
    assert_eq!(ctx.track_checked(id), Err(TrackError::NotExecuting(NotExecuting)));
}

#[test]
fn unknown_tracking_ids_are_refused() {
    let mut ctx = Context::new();
    ctx.create_tracking_id();
    let unknown = unknown_tracking_id();
    assert_eq!(ctx.notify_checked(unknown), Err(UnknownTrackingId(unknown)));
    let key = ctx.create_root();
    let res = ctx.with_current_action(key, |c: &mut Context| c.track_checked(unknown));
    assert_eq!(res, Ok(Err(TrackError::UnknownTrackingId(UnknownTrackingId(unknown)))));
}

#[test]
fn tracking_ids_are_distinct() {
    let mut ctx = Context::new();
    let a = ctx.create_tracking_id();
    let b = ctx.create_tracking_id();
    assert_ne!(a, b);
    assert_eq!(ctx.notify_checked(a), Ok(Ok(())));
    assert_eq!(ctx.notify_checked(b), Ok(Ok(())));
}

#[test]
fn run_tracked_needs_an_executing_action() {
    let mut ctx = Context::new();
    let id = ctx.create_tracking_id();
    let runs = Rc::new(Cell::new(0));
    let result = ctx.run_tracked_checked(Reader { id, runs: runs.clone() });
    assert_eq!(result, Err(RunTrackedError::NotExecuting(NotExecuting)));
    assert_eq!(runs.get(), 0);
}

#[test]
fn a_notified_id_reruns_the_actions_tracking_it() {
    let mut ctx = Context::new();
    let id = ctx.create_tracking_id();
    let runs = Rc::new(Cell::new(0));
    let result = Rc::new(Cell::new(None));
    let host = ctx.create_root_action(Host {
        id,
        runs: runs.clone(),
        result: result.clone(),
        through_runner: false,
    });
    assert_eq!(ctx.run_action(host), Ok(()));
    assert_eq!(result.get(), Some(Ok(())));
    assert_eq!(runs.get(), 2);
}

#[test]
fn the_runner_runs_tracked_actions() {
    let mut ctx = Context::new();
    let id = ctx.create_tracking_id();
    let runs = Rc::new(Cell::new(0));
    let result = Rc::new(Cell::new(None));
    let host = ctx.create_root_action(Host {
        id,
        runs: runs.clone(),
        result: result.clone(),
        through_runner: true,
    });
    assert_eq!(ctx.run_action(host), Ok(()));
    assert_eq!(result.get(), Some(Ok(())));
    assert_eq!(runs.get(), 2);
}

#[test]
fn track_and_notify_succeed_on_valid_input() {
    let mut ctx = Context::new();
    let id = ctx.create_tracking_id();
    let key = ctx.create_root();
    ctx.with_current_action(key, |c: &mut Context| c.track(id)).unwrap();
    assert_eq!(ctx.notify(id), Ok(()));
    assert_eq!(ctx.notify_checked(id), Ok(Ok(())));
}

/// Tracks `id`, counts its runs and makes a child on each.
struct Tracker {
    id: TrackingId,
    runs: Rc<Cell<i32>>,
}

impl Action for Tracker {
    type Output = ();
    fn run(&mut self, ctx: &mut Context) {
        ctx.track_checked(self.id).unwrap();
        self.runs.set(self.runs.get() + 1);
        ctx.create_child().unwrap();
    }
}

/// Notifies `id` while it runs and records the early return.
struct Notifier {
    id: TrackingId,
    early: Rc<Cell<Option<TrackingId>>>,
}

impl Action for Notifier {
    type Output = ();
    fn run(&mut self, ctx: &mut Context) {
        ctx.track_checked(self.id).unwrap();
        if let Err(rerun) = ctx.notify(self.id) {
            self.early.set(Some(rerun.id()));
        }
    }
}

#[test]
fn notify_reruns_the_trackers_after_removing_their_children() {
    let mut ctx = Context::new();
    let id = ctx.create_tracking_id();
    let runs = Rc::new(Cell::new(0));
    let tracker = ctx.create_root_action(Tracker { id, runs: runs.clone() });
    assert_eq!(ctx.run_action(tracker), Ok(()));
    let first_child = ctx.children(tracker).unwrap()[0];
    assert_eq!(ctx.notify(id), Ok(()));
    assert_eq!(runs.get(), 2);
    assert!(!ctx.contains_node(first_child));
    assert_eq!(ctx.children(tracker).unwrap().len(), 1);
}

#[test]
fn notify_from_an_executing_tracker_asks_for_a_rerun() {
    let mut ctx = Context::new();
    let id = ctx.create_tracking_id();
    let early = Rc::new(Cell::new(None));
    let key = ctx.create_root_action(Notifier { id, early: early.clone() });
    assert_eq!(ctx.run_action(key), Ok(()));
    assert_eq!(early.get(), Some(id));
}
