use caaqi::scope::{Attached, Scope};

#[test]
fn context_tree_builder_test_scope() {
    let mut attached: Attached<i32> = Attached::new();

    let previous_entity = 41;
    attached.attach(previous_entity);

    let scope = Scope::new(&mut attached);

    let outer_entity = 42;
    attached.attach(outer_entity);

    let nested_scope = Scope::new(&mut attached);

    let nested_entity = 43;
    attached.attach(nested_entity);

    let nested_nodes = nested_scope.collect(&mut attached);

    assert_eq!(nested_nodes.len(), 1);
    assert!(nested_nodes.contains(&nested_entity));
    assert_eq!(attached.as_slice().len(), 1);
    assert!(attached.as_slice().contains(&outer_entity));

    let nodes = scope.collect(&mut attached);

    assert_eq!(nodes.len(), 1);
    assert!(nodes.contains(&outer_entity));
    assert_eq!(attached.as_slice().len(), 1);
    assert!(attached.as_slice().contains(&previous_entity));
}

#[test]
fn take_empties_what_was_attached() {
    let mut attached: Attached<i32> = Attached::new();
    attached.attach(1);
    attached.attach(2);
    assert_eq!(attached.take(), vec![1, 2]);
    assert_eq!(attached.take(), Vec::<i32>::new());
}

#[test]
fn scope_test_scope() {
    let mut attached: Attached<i32> = Attached::new();
    let scope = Scope::new(&mut attached);
    attached.attach(42);
    attached.attach(43);
    let nodes = scope.collect(&mut attached);
    assert_eq!(nodes.len(), 2);
}

#[test]
fn children_scope_test_scope() {
    let mut attached: Attached<i32> = Attached::new();
    let scope = Scope::new(&mut attached);
    attached.attach(42);
    attached.attach(43);
    let nodes = scope.collect(&mut attached);
    assert_eq!(nodes.len(), 2);
    assert_eq!(attached.as_slice().len(), 0);
}
