use nary_tree::core_tree::CoreTree;

#[test]
fn core_tree_capacity() {
    let capacity = 5;
    let tree = CoreTree::<i32>::new(capacity);
    assert_eq!(tree.capacity(), capacity);
}

#[test]
fn core_tree_insert() {
    let mut tree = CoreTree::new(0);

    let id = tree.insert(1);
    let id2 = tree.insert(3);

    assert_eq!(tree.get(id).unwrap().data, 1);
    assert_eq!(tree.get(id2).unwrap().data, 3);
}

#[test]
fn remove() {
    let mut tree = CoreTree::new(0);

    let id = tree.insert(1);
    assert_eq!(tree.get(id).unwrap().data, 1);

    let one = tree.remove(id);
    assert!(one.is_some());

    let one = one.unwrap();
    assert_eq!(one, 1);
}

#[test]
fn core_tree_get() {
    let mut tree = CoreTree::new(0);

    let id = tree.insert(1);
    let id2 = tree.insert(3);

    assert_eq!(tree.get(id).unwrap().data, 1);
    assert_eq!(tree.get(id2).unwrap().data, 3);
}

#[test]
fn core_tree_get_mut() {
    let mut tree = CoreTree::new(0);

    let id = tree.insert(1);
    let id2 = tree.insert(3);

    assert_eq!(tree.get_mut(id).unwrap().data, 1);
    assert_eq!(tree.get_mut(id2).unwrap().data, 3);
}

#[test]
fn get_with_bad_id() {
    let mut tree = CoreTree::new(0);
    let tree2: CoreTree<i32> = CoreTree::new(0);

    let mut id = tree.insert(1);
    id.tree_id = tree2.id;

    let result = tree.get(id);

    assert!(result.is_none());
}
