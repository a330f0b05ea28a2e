use caaqi::action_tree::{ActionNodeKey, ActionTreeExt, UnknownNode};
use caaqi::context::Context;
use caaqi::current::CurrentActionExt;
use caaqi::grouping::{
    AddToGroupError, GroupContainsError, GroupingExt, RemoveFromGroupError, UnknownGroup,
};

fn foreign_key() -> ActionNodeKey {
    let mut other = Context::new();
    for _ in 0..5 {
        other.create_root();
    }
    other.create_root()
}

#[test]
fn added_nodes_are_members() {
    let mut ctx = Context::new();
    let g = ctx.create_group();
    let a = ctx.create_root();
    let b = ctx.create_root();
    assert!(ctx.group_exists(g));
    assert_eq!(ctx.group_contains(g, a), Ok(false));
    assert_eq!(ctx.add_to_group(g, a), Ok(true));
    assert_eq!(ctx.add_to_group(g, a), Ok(false));
    assert_eq!(ctx.group_contains(g, a), Ok(true));
    assert_eq!(ctx.group_contains(g, b), Ok(false));
    assert_eq!(ctx.group_members(g), Ok(vec![a]));
    assert_eq!(ctx.groups_of(a), Ok(vec![g]));
    assert_eq!(ctx.groups_of(b), Ok(vec![]));
}

#[test]
fn remove_from_group_undoes_add() {
    let mut ctx = Context::new();
    let g = ctx.create_group();
    let a = ctx.create_root();
    ctx.add_to_group(g, a).unwrap();
    assert_eq!(ctx.remove_from_group(g, a), Ok(true));
    assert_eq!(ctx.remove_from_group(g, a), Ok(false));
    assert_eq!(ctx.group_contains(g, a), Ok(false));
    assert_eq!(ctx.group_members(g), Ok(vec![]));
}

#[test]
fn groups_get_distinct_ids() {
    let mut ctx = Context::new();
    let g = ctx.create_group();
    let h = ctx.create_group();
    assert_ne!(g, h);
    let a = ctx.create_root();
    ctx.add_to_group(g, a).unwrap();
    ctx.add_to_group(h, a).unwrap();
    let mut of = ctx.groups_of(a).unwrap();
    of.sort_by_key(|x| x == &h);
    assert_eq!(of, vec![g, h]);
}

#[test]
fn removing_a_group_returns_its_members() {
    let mut ctx = Context::new();
    let g = ctx.create_group();
    let a = ctx.create_root();
    ctx.add_to_group(g, a).unwrap();
    assert_eq!(ctx.remove_group(g), Ok(vec![a]));
    assert!(!ctx.group_exists(g));
    assert_eq!(ctx.remove_group(g), Err(UnknownGroup(g)));
    assert_eq!(ctx.groups_of(a), Ok(vec![]));
}

#[test]
fn unknown_groups_and_nodes_are_refused() {
    let mut ctx = Context::new();
    let g = ctx.create_group();
    let a = ctx.create_root();
    ctx.remove_group(g).unwrap();
    let unknown = foreign_key();
    assert_eq!(ctx.add_to_group(g, a), Err(AddToGroupError::UnknownGroup(UnknownGroup(g))));
    assert_eq!(
        ctx.add_to_group(g, unknown),
        Err(AddToGroupError::UnknownNode(UnknownNode(unknown)))
    );
    assert_eq!(
        ctx.group_contains(g, a),
        Err(GroupContainsError::UnknownGroup(UnknownGroup(g)))
    );
    assert_eq!(
        ctx.group_contains(g, unknown),
        Err(GroupContainsError::UnknownNode(UnknownNode(unknown)))
    );
    assert_eq!(
        ctx.remove_from_group(g, a),
        Err(RemoveFromGroupError::UnknownGroup(UnknownGroup(g)))
    );
    assert_eq!(
        ctx.remove_from_group(g, unknown),
        Err(RemoveFromGroupError::UnknownNode(UnknownNode(unknown)))
    );
    assert_eq!(ctx.group_members(g), Err(UnknownGroup(g)));
    assert_eq!(ctx.groups_of(unknown), Err(UnknownNode(unknown)));
}

#[test]
fn removed_nodes_leave_their_groups() {
    let mut ctx = Context::new();
    let g = ctx.create_group();
    let root = ctx.create_root();
    let child = ctx.with_current_action(root, |c: &mut Context| c.create_branch());
    let child = child.unwrap();
    ctx.add_to_group(g, root).unwrap();
    ctx.add_to_group(g, child).unwrap();
    ctx.clear_children(root).unwrap();
    assert_eq!(ctx.group_members(g), Ok(vec![root]));
    ctx.remove_node(root).unwrap();
    assert_eq!(ctx.group_members(g), Ok(vec![]));
    assert!(ctx.group_exists(g));
}
