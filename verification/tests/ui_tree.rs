use caaqi::layout::NodeValueState;
use caaqi::ui_tree::{Group, Item, Node, UiTree, UiTreeBuilder};

#[test]
fn build_tree_creates_implicit_root() {
    let mut builder = UiTreeBuilder::new();
    builder.node(Node::new());
    let tree = builder.finish(Node::new());
    assert_eq!(tree.len(), 2);
    assert_eq!(tree.to_tree_string(), "*\n\t*\n");
}

#[test]
fn group_is_detached_until_appended() {
    let mut builder = UiTreeBuilder::new();
    let scope = builder.open_scope();
    builder.node(Node::new());
    builder.node(Node::new());
    let child = builder.close_scope(scope, Node::new());
    builder.attach_node(child);
    let tree = builder.finish(Node::new());
    assert_eq!(tree.to_tree_string(), "*\n\t*\n\t\t*\n\t\t*\n");
}

#[test]
fn append_group_preserves_nesting() {
    let mut builder = UiTreeBuilder::new();
    builder.node(Node::new());
    let outer = builder.open_scope();
    builder.node(Node::new());
    let inner = builder.open_scope();
    builder.node(Node::new());
    let inner_group = builder.close_scope(inner, Node::new());
    builder.attach_node(inner_group);
    let outer_group = builder.close_scope(outer, Node::new());
    builder.attach_node(outer_group);
    builder.node(Node::new());
    let tree = builder.finish(Node::new());
    assert_eq!(
        tree.to_tree_string(),
        "*\n\t*\n\t*\n\t\t*\n\t\t*\n\t\t\t*\n\t*\n"
    );
}

#[test]
fn parent_relationships_are_created_by_group() {
    let mut builder = UiTreeBuilder::new();
    let scope = builder.open_scope();
    builder.node(Node::new());
    let group = builder.close_scope(scope, Node::new());
    builder.attach_node(group);
    let tree = builder.finish(Node::new());
    let root = tree.root().unwrap();
    let branch = tree.get(root).unwrap().child_key(0).unwrap();
    let leaf = tree.get(branch).unwrap().child_key(0).unwrap();
    assert_eq!(tree.get(root).unwrap().parent(), None);
    assert_eq!(tree.get(branch).unwrap().parent(), Some(root));
    assert_eq!(tree.get(leaf).unwrap().parent(), Some(branch));
}

#[test]
fn detached_nodes_are_allowed_to_remain_in_storage() {
    let mut builder = UiTreeBuilder::new();
    let _unused = builder.detached_node(Node::new());
    builder.node(Node::new());
    let tree = builder.finish(Node::new());
    assert_eq!(tree.len(), 3);
    assert_eq!(tree.to_tree_string(), "*\n\t*\n");
}

#[test]
fn detached_groups_are_allowed_to_remain_in_storage() {
    let mut builder = UiTreeBuilder::new();
    let scope = builder.open_scope();
    builder.node(Node::new());
    builder.node(Node::new());
    let _unused = builder.close_scope(scope, Node::new());
    builder.node(Node::new());
    let tree = builder.finish(Node::new());
    assert_eq!(tree.len(), 5);
    assert_eq!(tree.to_tree_string(), "*\n\t*\n");
}

#[test]
fn an_empty_tree_renders_nothing() {
    let tree = UiTree::new();
    assert!(tree.is_empty());
    assert_eq!(tree.root(), None);
    assert!(tree.root_node().is_none());
    assert_eq!(tree.render_depths(), Vec::<usize>::new());
    assert_eq!(tree.to_tree_string(), "");
}

#[test]
fn items_are_leaves_and_depths_follow_the_walk() {
    let mut builder = UiTreeBuilder::new();
    builder.node(Item);
    let scope = builder.open_scope();
    builder.node(Item);
    let group = builder.close_scope(scope, Node::new());
    builder.attach_node(group);
    let tree = builder.finish(Node::new());
    assert_eq!(tree.render_depths(), vec![0, 1, 1, 2]);
    let root = tree.root_node().unwrap();
    assert_eq!(root.child_count(), 2);
    assert!(root.has_children());
    assert_eq!(root.child_key(2), None);
    let leaf = tree.get(root.child_keys()[0]).unwrap();
    assert!(!leaf.has_children());
}

#[test]
fn groups_hold_children_like_nodes() {
    let mut builder = UiTreeBuilder::new();
    let scope = builder.open_scope();
    builder.node(Item);
    builder.node(Item);
    let group = builder.close_scope(scope, Group);
    builder.attach_node(group);
    let tree = builder.finish(Group);
    assert_eq!(tree.to_tree_string(), "*\n\t*\n\t\t*\n\t\t*\n");
}

#[test]
fn pending_is_the_default_layout_value() {
    let value: NodeValueState<u32, u8> = NodeValueState::default();
    assert_eq!(value, NodeValueState::Pending(0));
    assert_ne!(value, NodeValueState::Computed(0));
}

#[test]
fn root_with_no_children() {
    let builder = UiTreeBuilder::new();
    let tree = builder.finish(Group);
    assert_eq!(tree.len(), 1);
    assert_eq!(tree.to_tree_string(), "*\n");
}

#[test]
fn root_with_scope() {
    let mut builder = UiTreeBuilder::new();
    builder.node(Group);
    let tree = builder.finish(Group);
    assert_eq!(tree.len(), 2);
    assert_eq!(tree.to_tree_string(), "*\n\t*\n");
}

#[test]
fn for_loop() {
    let mut builder = UiTreeBuilder::new();
    for _ in 0..5 {
        builder.node(Group);
    }
    let tree = builder.finish(Group);
    assert_eq!(tree.len(), 6);
    assert_eq!(tree.to_tree_string(), "*\n\t*\n\t*\n\t*\n\t*\n\t*\n");
}

#[test]
fn detached_nodes() {
    let mut builder = UiTreeBuilder::new();
    let create_detached = |builder: &mut UiTreeBuilder| {
        let scope = builder.open_scope();
        builder.node(Group);
        for _ in 0..3 {
            let inner = builder.open_scope();
            builder.node(Group);
            let group = builder.close_scope(inner, Group);
            builder.attach_node(group);
        }
        builder.close_scope(scope, Group)
    };
    for _ in 0..5 {
        let detached = create_detached(&mut builder);
        builder.attach_node(detached);
    }
    let tree = builder.finish(Group);
    assert_eq!(tree.len(), 41);
    assert_eq!(
        tree.to_tree_string(),
        "*\n\t*\n\t\t*\n\t\t*\n\t\t\t*\n\t\t*\n\t\t\t*\n\t\t*\n\t\t\t*\n\t*\n\t\t*\n\t\t*\n\t\t\t*\n\t\t*\n\t\t\t*\n\t\t*\n\t\t\t*\n\t*\n\t\t*\n\t\t*\n\t\t\t*\n\t\t*\n\t\t\t*\n\t\t*\n\t\t\t*\n\t*\n\t\t*\n\t\t*\n\t\t\t*\n\t\t*\n\t\t\t*\n\t\t*\n\t\t\t*\n\t*\n\t\t*\n\t\t*\n\t\t\t*\n\t\t*\n\t\t\t*\n\t\t*\n\t\t\t*\n"
    );
}
