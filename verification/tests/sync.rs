use std::cell::Cell;
use std::rc::Rc;

use caaqi::action::{Action, ActionExt};
use caaqi::action_tree::{ActionNodeKey, ActionTreeExt, UnknownNode};
use caaqi::builder::{action, rewind, sync_key, DropSyncKey};
use caaqi::context::Context;
use caaqi::current::CurrentActionExt;
use caaqi::current::NotExecuting;
use caaqi::sync::{
    create_sync_key, drop_sync_key, sync_with, synced_with, try_drop_sync_key, unsync, SyncKey,
};

/// Counts its runs.
struct Count(Rc<Cell<i32>>);

impl Action for Count {
    type Output = ();
    fn run(&mut self, _ctx: &mut Context) {
        self.0.set(self.0.get() + 1);
    }
}

/// Makes a sync key on each run and records it and its undo node.
struct MakeKey {
    key: Rc<Cell<Option<SyncKey>>>,
}

impl Action for MakeKey {
    type Output = ();
    fn run(&mut self, ctx: &mut Context) {
        self.key.set(Some(sync_key(ctx).unwrap()));
    }
}

#[test]
fn sync_keys_list_the_actions_synced_with_them() {
    let mut ctx = Context::new();
    let k = create_sync_key(&mut ctx);
    let j = create_sync_key(&mut ctx);
    assert_ne!(k, j);
    let a = ctx.create_root();
    sync_with(&mut ctx, a, &vec![k]);
    assert_eq!(synced_with(&ctx, a), Ok(vec![k]));
    // A key with actions synced with it stays.
    assert!(!try_drop_sync_key(&mut ctx, k));
    assert_eq!(unsync(&mut ctx, a), Ok(()));
    assert_eq!(synced_with(&ctx, a), Ok(vec![]));
    assert!(try_drop_sync_key(&mut ctx, k));
    assert!(!try_drop_sync_key(&mut ctx, k));
    drop_sync_key(&mut ctx, j);
    assert!(!try_drop_sync_key(&mut ctx, j));
}

#[test]
fn unknown_nodes_have_no_sync_keys() {
    let mut ctx = Context::new();
    let foreign = {
        let mut other = Context::new();
        other.create_root();
        other.create_root()
    };
    assert_eq!(synced_with(&ctx, foreign), Err(UnknownNode(foreign)));
    assert_eq!(unsync(&mut ctx, foreign), Err(UnknownNode(foreign)));
}

#[test]
fn removed_actions_leave_their_sync_keys() {
    let mut ctx = Context::new();
    let k = create_sync_key(&mut ctx);
    let a = ctx.create_root();
    sync_with(&mut ctx, a, &vec![k]);
    ctx.remove_node(a).unwrap();
    assert!(try_drop_sync_key(&mut ctx, k));
}

#[test]
fn rewinds_and_sync_keys_need_an_executing_action() {
    let mut ctx = Context::new();
    assert_eq!(rewind(&mut ctx, Count(Rc::new(Cell::new(0)))), Err(NotExecuting));
    assert_eq!(sync_key(&mut ctx), Err(NotExecuting));
}

#[test]
fn a_rewind_is_a_child_of_the_executing_action() {
    let mut ctx = Context::new();
    let root = ctx.create_root();
    let undone = Rc::new(Cell::new(0));
    let undo = ctx
        .with_current_action(root, |c: &mut Context| rewind(c, Count(undone.clone())))
        .unwrap()
        .unwrap();
    assert_eq!(ctx.children(root), Ok(&[undo][..]));
    assert_eq!(undone.get(), 0);
    ctx.run_action(undo).unwrap();
    assert_eq!(undone.get(), 1);
}

#[test]
fn a_sync_key_is_dropped_by_its_rewind() {
    let mut ctx = Context::new();
    let made = Rc::new(Cell::new(None));
    let host = action(&mut ctx, MakeKey { key: made.clone() });
    let key = made.get().unwrap();
    let undo: ActionNodeKey = ctx.children(host).unwrap()[0];
    ctx.run_action(undo).unwrap();
    // The rewind dropped the key, so there is nothing left to drop.
    assert!(!try_drop_sync_key(&mut ctx, key));
}

#[test]
fn action_runs_right_away_and_stays_rerunnable() {
    let mut ctx = Context::new();
    let runs = Rc::new(Cell::new(0));
    let key = action(&mut ctx, Count(runs.clone()));
    assert_eq!(runs.get(), 1);
    assert_eq!(ctx.has_stored_action(key), Ok(true));
    ctx.run_action(key).unwrap();
    assert_eq!(runs.get(), 2);
}

#[test]
fn drop_sync_key_action_drops_only_an_unused_key() {
    let mut ctx = Context::new();
    let k = create_sync_key(&mut ctx);
    let a = ctx.create_root();
    sync_with(&mut ctx, a, &vec![k]);
    let mut drop_k = DropSyncKey(k);
    // Still in use: the key stays.
    drop_k.run(&mut ctx);
    assert_eq!(synced_with(&ctx, a), Ok(vec![k]));
    assert_eq!(unsync(&mut ctx, a), Ok(()));
    // No longer in use: running the action drops it.
    drop_k.run(&mut ctx);
    assert!(!try_drop_sync_key(&mut ctx, k));
}
