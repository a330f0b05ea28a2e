use caaqi::action_tree::{
    ActionNodeKey, ActionTreeExt, ClearChildrenError, ExecutingDescendant, NodeExecuting,
    RemoveNodeError, UnknownNode,
};
use caaqi::context::Context;
use caaqi::current::{CurrentActionExt, NotExecuting};

/// A key that `ctx`, holding fewer than three nodes, doesn't know.
fn foreign_key() -> ActionNodeKey {
    let mut other = Context::new();
    other.create_root();
    other.create_root();
    other.create_root()
}

/// root -> [a -> [c], b]
fn small_tree(ctx: &mut Context) -> (ActionNodeKey, ActionNodeKey, ActionNodeKey, ActionNodeKey) {
    let root = ctx.create_root();
    let (a, b) = ctx
        .with_current_action(root, |c: &mut Context| (c.create_branch(), c.create_branch()))
        .unwrap();
    let cc = ctx.with_current_action(a, |c: &mut Context| c.create_child().unwrap()).unwrap();
    (root, a, b, cc)
}

#[test]
fn create_root_makes_a_root_without_children() {
    let mut ctx = Context::new();
    let root = ctx.create_root();
    assert!(ctx.contains_node(root));
    assert_eq!(ctx.parent(root), Ok(None));
    assert_eq!(ctx.children(root), Ok(&[][..]));
}

#[test]
fn fresh_keys_differ() {
    let mut ctx = Context::new();
    let a = ctx.create_root();
    let b = ctx.create_root();
    assert_ne!(a, b);
}

#[test]
fn unknown_nodes_are_refused() {
    let mut ctx = Context::new();
    ctx.create_root();
    let unknown = foreign_key();
    assert!(!ctx.contains_node(unknown));
    assert_eq!(ctx.parent(unknown), Err(UnknownNode(unknown)));
    assert_eq!(ctx.children(unknown), Err(UnknownNode(unknown)));
    assert_eq!(ctx.ancestors(unknown), Err(UnknownNode(unknown)));
    assert_eq!(ctx.subtree_top_down(unknown), Err(UnknownNode(unknown)));
    assert_eq!(
        ctx.clear_children(unknown),
        Err(ClearChildrenError::UnknownNode(UnknownNode(unknown)))
    );
    assert_eq!(
        ctx.remove_node(unknown),
        Err(RemoveNodeError::UnknownNode(UnknownNode(unknown)))
    );
    assert_eq!(
        ctx.with_current_action(unknown, |_: &mut Context| ()),
        Err(UnknownNode(unknown))
    );
}

#[test]
fn create_child_needs_an_executing_action() {
    let mut ctx = Context::new();
    assert_eq!(ctx.create_child(), Err(NotExecuting));
    assert_eq!(ctx.current_action(), Err(NotExecuting));
}

#[test]
fn branches_go_under_the_current_action() {
    let mut ctx = Context::new();
    let outside = ctx.create_branch();
    assert_eq!(ctx.parent(outside), Ok(None));
    let root = ctx.create_root();
    let child = ctx
        .with_current_action(root, |c: &mut Context| c.create_branch())
        .unwrap();
    assert_eq!(ctx.parent(child), Ok(Some(root)));
    assert_eq!(ctx.children(root), Ok(&[child][..]));
    assert_eq!(ctx.current_action(), Err(NotExecuting));
}

#[test]
fn with_current_action_restores_the_previous_action() {
    let mut ctx = Context::new();
    let a = ctx.create_root();
    let b = ctx.create_root();
    let seen = ctx
        .with_current_action(a, |c: &mut Context| {
            let inner = c.with_current_action(b, |c2: &mut Context| c2.current_action()).unwrap();
            (inner, c.current_action())
        })
        .unwrap();
    assert_eq!(seen, (Ok(b), Ok(a)));
    assert_eq!(ctx.current_action(), Err(NotExecuting));
}

#[test]
fn executing_nodes_cannot_be_removed() {
    let mut ctx = Context::new();
    let root = ctx.create_root();
    let (removed_self, cleared_parent, child_executing) = ctx
        .with_current_action(root, |c: &mut Context| {
            let child = c.create_child().unwrap();
            let removed_self = c.remove_node(root);
            let (cleared_parent, child_executing) = c
                .with_current_action(child, |c2: &mut Context| {
                    (c2.clear_children(root), c2.has_executing_descendant(root))
                })
                .unwrap();
            (removed_self, cleared_parent, child_executing)
        })
        .unwrap();
    assert_eq!(removed_self, Err(RemoveNodeError::NodeExecuting(NodeExecuting(root))));
    assert_eq!(
        cleared_parent,
        Err(ClearChildrenError::ExecutingDescendant(ExecutingDescendant(root)))
    );
    assert!(child_executing);
    assert!(!ctx.has_executing(root));
}

#[test]
fn walks_visit_in_documented_orders() {
    let mut ctx = Context::new();
    let (root, a, b, c) = small_tree(&mut ctx);
    assert_eq!(ctx.subtree_top_down(root), Ok(vec![root, a, c, b]));
    assert_eq!(ctx.subtree_top_down_rev(root), Ok(vec![root, b, a, c]));
    assert_eq!(ctx.subtree_bottom_up(root), Ok(vec![c, a, b, root]));
    assert_eq!(ctx.subtree_bottom_up_rev(root), Ok(vec![b, c, a, root]));
    assert_eq!(ctx.subtree_top_down(b), Ok(vec![b]));
}

#[test]
fn bottom_up_is_top_down_backwards_with_siblings_swapped() {
    let mut ctx = Context::new();
    let (root, _, _, _) = small_tree(&mut ctx);
    let mut forward_rev = ctx.subtree_top_down_rev(root).unwrap();
    forward_rev.reverse();
    assert_eq!(ctx.subtree_bottom_up(root).unwrap(), forward_rev);
    let mut forward = ctx.subtree_top_down(root).unwrap();
    forward.reverse();
    assert_eq!(ctx.subtree_bottom_up_rev(root).unwrap(), forward);
}

#[test]
fn ancestors_walk_up_to_the_root() {
    let mut ctx = Context::new();
    let (root, a, _, c) = small_tree(&mut ctx);
    assert_eq!(ctx.ancestors(c), Ok(vec![a, root]));
    assert_eq!(ctx.ancestors(root), Ok(vec![]));
}

#[test]
fn clear_children_removes_descendants_bottom_up() {
    let mut ctx = Context::new();
    let (root, a, b, c) = small_tree(&mut ctx);
    assert_eq!(ctx.clear_children(root), Ok(vec![c, a, b]));
    assert!(ctx.contains_node(root));
    assert!(!ctx.contains_node(a));
    assert!(!ctx.contains_node(c));
    assert_eq!(ctx.children(root), Ok(&[][..]));
    // A second clear removes nothing.
    assert_eq!(ctx.clear_children(root), Ok(vec![]));
}

#[test]
fn remove_node_removes_the_branch_and_updates_the_parent() {
    let mut ctx = Context::new();
    let (root, a, b, c) = small_tree(&mut ctx);
    assert_eq!(ctx.remove_node(a), Ok(vec![c, a]));
    assert_eq!(ctx.children(root), Ok(&[b][..]));
    assert!(!ctx.contains_node(c));
    assert_eq!(ctx.parent(b), Ok(Some(root)));
}

#[test]
fn remove_after_create_restores_the_tree() {
    let mut ctx = Context::new();
    let (root, a, b, c) = small_tree(&mut ctx);
    let before = ctx.subtree_top_down(root).unwrap();
    let extra = ctx.with_current_action(a, |c2: &mut Context| c2.create_branch()).unwrap();
    assert_eq!(ctx.children(a), Ok(&[c, extra][..]));
    assert_eq!(ctx.remove_node(extra), Ok(vec![extra]));
    assert_eq!(ctx.subtree_top_down(root).unwrap(), before);
    assert_eq!(ctx.children(a), Ok(&[c][..]));
    assert_eq!(ctx.children(root), Ok(&[a, b][..]));
}

#[test]
fn cursor_walks_top_down_and_skips_children() {
    let mut ctx = Context::new();
    let (root, a, b, c) = small_tree(&mut ctx);
    let mut cursor = ctx.subtree_cursor(root, false).unwrap();
    let mut seen = Vec::new();
    while let Some(node) = cursor.next(&ctx) {
        seen.push(node);
    }
    assert_eq!(seen, vec![root, a, c, b]);

    let mut cursor = ctx.subtree_cursor(root, false).unwrap();
    let mut seen = Vec::new();
    while let Some(node) = cursor.next(&ctx) {
        seen.push(node);
        if node == a {
            cursor.skip_children();
        }
    }
    assert_eq!(seen, vec![root, a, b]);
}

#[test]
fn cursor_follows_changes_to_the_tree() {
    let mut ctx = Context::new();
    let (root, a, b, c) = small_tree(&mut ctx);
    let mut cursor = ctx.subtree_cursor(root, false).unwrap();
    assert_eq!(cursor.next(&ctx), Some(root));
    assert_eq!(cursor.next(&ctx), Some(a));
    ctx.remove_node(b).unwrap();
    assert_eq!(cursor.next(&ctx), Some(c));
    assert_eq!(cursor.next(&ctx), None);
}
