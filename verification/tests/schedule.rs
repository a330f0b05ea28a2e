use std::collections::HashSet;

use caaqi::action_tree::{ActionNodeKey, ActionTreeExt, UnknownNode};
use caaqi::context::Context;
use caaqi::current::CurrentActionExt;
use caaqi::schedule::{
    affected_nodes, first_marked, rewind_set, rewinds_to_run, unsync_subtree, Subscription,
    TrackedWrite, TreeOrder,
};
use caaqi::sync::{create_sync_key, sync_with, synced_with};

/// root -> [a, b, c]
fn flat(ctx: &mut Context) -> (ActionNodeKey, ActionNodeKey, ActionNodeKey, ActionNodeKey) {
    let root = ctx.create_root();
    let (a, b, c) = ctx
        .with_current_action(root, |x: &mut Context| {
            (x.create_branch(), x.create_branch(), x.create_branch())
        })
        .unwrap();
    (root, a, b, c)
}

/// root -> [a -> [c], b]
fn nested(ctx: &mut Context) -> (ActionNodeKey, ActionNodeKey, ActionNodeKey, ActionNodeKey) {
    let root = ctx.create_root();
    let (a, b) = ctx
        .with_current_action(root, |x: &mut Context| (x.create_branch(), x.create_branch()))
        .unwrap();
    let c = ctx.with_current_action(a, |x: &mut Context| x.create_branch()).unwrap();
    (root, a, b, c)
}

fn ids(keys: &[ActionNodeKey]) -> HashSet<u64> {
    keys.iter().map(|k| k.to_id()).collect()
}

#[test]
fn tree_order_walks_top_down() {
    let mut ctx = Context::new();
    let (root, a, b, c) = nested(&mut ctx);
    let order = TreeOrder::new(&ctx, root).unwrap();
    assert_eq!(order.forward(), vec![root, a, c, b]);
    assert_eq!(order.backward(), vec![b, c, a, root]);
    assert_eq!(order.after(a), vec![c, b]);
    assert_eq!(order.after(b), vec![]);
    let foreign = Context::new().create_root();
    let empty = Context::new();
    assert!(TreeOrder::new(&empty, foreign).is_err());
}

#[test]
fn a_rewind_reaches_later_actions_synced_with_it() {
    let mut ctx = Context::new();
    let (root, a, b, c) = flat(&mut ctx);
    let k1 = create_sync_key(&mut ctx);
    let k2 = create_sync_key(&mut ctx);
    sync_with(&mut ctx, a, &vec![k1]);
    sync_with(&mut ctx, b, &vec![k1, k2]);
    sync_with(&mut ctx, c, &vec![k2]);
    let order = TreeOrder::new(&ctx, root).unwrap();
    assert_eq!(rewind_set(&ctx, &order, a), ids(&[a, b, c]));
    assert_eq!(rewind_set(&ctx, &order, b), ids(&[b, c]));
    assert_eq!(rewind_set(&ctx, &order, c), ids(&[c]));
    assert_eq!(rewind_set(&ctx, &order, root), ids(&[root]));
}

#[test]
fn unsync_subtree_takes_the_whole_subtree_out() {
    let mut ctx = Context::new();
    let (root, a, b, c) = nested(&mut ctx);
    let k = create_sync_key(&mut ctx);
    sync_with(&mut ctx, a, &vec![k]);
    sync_with(&mut ctx, c, &vec![k]);
    sync_with(&mut ctx, b, &vec![k]);
    assert_eq!(unsync_subtree(&mut ctx, a), Ok(()));
    assert_eq!(synced_with(&ctx, a), Ok(vec![]));
    assert_eq!(synced_with(&ctx, c), Ok(vec![]));
    assert_eq!(synced_with(&ctx, b), Ok(vec![k]));
    let _ = root;
}

#[test]
fn first_marked_stops_at_marked_nodes() {
    let mut ctx = Context::new();
    let (root, a, b, c) = nested(&mut ctx);
    assert_eq!(first_marked(&ctx, root, false, &ids(&[a, b, c])), Ok(vec![a, b]));
    assert_eq!(first_marked(&ctx, root, true, &ids(&[a, b, c])), Ok(vec![b, a]));
    assert_eq!(first_marked(&ctx, root, false, &ids(&[c])), Ok(vec![c]));
    assert_eq!(first_marked(&ctx, root, false, &ids(&[root, a])), Ok(vec![root]));
    assert_eq!(first_marked(&ctx, a, false, &ids(&[root, c])), Ok(vec![c]));
    assert_eq!(first_marked(&ctx, root, false, &HashSet::new()), Ok(vec![]));
    let foreign = {
        let mut other = Context::new();
        for _ in 0..4 {
            other.create_root();
        }
        other.create_root()
    };
    assert_eq!(first_marked(&ctx, foreign, false, &HashSet::new()), Err(UnknownNode(foreign)));
}

#[test]
fn rewinds_run_last_to_first() {
    let mut ctx = Context::new();
    let (root, a, b, c) = nested(&mut ctx);
    assert_eq!(rewinds_to_run(&ctx, root, &ids(&[a, b, c])), Ok(vec![b, c, a]));
    assert_eq!(rewinds_to_run(&ctx, a, &ids(&[a, b, c])), Ok(vec![c, a]));
    assert_eq!(rewinds_to_run(&ctx, root, &HashSet::new()), Ok(vec![]));
}

#[test]
fn writes_mark_their_readers() {
    let mut ctx = Context::new();
    let (root, a, b, c) = flat(&mut ctx);
    let order = TreeOrder::new(&ctx, root).unwrap();
    let subs = vec![
        Subscription { node: a, values: vec![1] },
        Subscription { node: b, values: vec![2] },
        Subscription { node: c, values: vec![2, 3] },
    ];
    let full = vec![TrackedWrite { value: 1, forward_only: false }];
    assert_eq!(affected_nodes(&order, b, &subs, &full), ids(&[a]));
    let forward = vec![TrackedWrite { value: 2, forward_only: true }];
    assert_eq!(affected_nodes(&order, b, &subs, &forward), ids(&[c]));
    assert_eq!(affected_nodes(&order, a, &subs, &forward), ids(&[b, c]));
    assert_eq!(affected_nodes(&order, c, &subs, &forward), HashSet::new());
    let both = vec![
        TrackedWrite { value: 2, forward_only: false },
        TrackedWrite { value: 3, forward_only: true },
    ];
    assert_eq!(affected_nodes(&order, c, &subs, &both), ids(&[b, c]));
    assert_eq!(affected_nodes(&order, a, &subs, &vec![]), HashSet::new());
}
