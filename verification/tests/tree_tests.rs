use nary_tree::RemoveBehavior::{self, DropChildren, OrphanChildren};
use nary_tree::{Tree, TreeBuilder};

#[test]
fn capacity() {
    let tree = TreeBuilder::new().with_root(1).with_capacity(5).build();
    assert_eq!(tree.capacity(), 5);
}

#[test]
fn root_id() {
    let tree = TreeBuilder::new().with_root(1).build();
    let root_id = tree.root_id().expect("root doesn't exist?");
    let root = tree.get_node(root_id).unwrap();
    assert_eq!(root.data(), &1);
}

#[test]
fn root() {
    let tree = TreeBuilder::new().with_root(1).build();
    let root_id = tree.root_id().expect("root doesn't exist?");
    let root = tree.get_node(root_id).expect("root doesn't exist?");
    assert_eq!(root.data(), &1);
}

#[test]
fn root_mut() {
    let mut tree = TreeBuilder::new().with_root(1).build();
    let root_id = tree.root_id().expect("root doesn't exist?");

    assert_eq!(tree.data_mut(root_id).expect("root doesn't exist?"), &mut 1);

    *tree.data_mut(root_id).unwrap() = 2;
    assert_eq!(tree.data_mut(root_id).unwrap(), &mut 2);
}

#[test]
fn get() {
    let tree = TreeBuilder::new().with_root(1).build();

    let root_id = tree.root_id().expect("root doesn't exist?");
    let root = tree.get_node(root_id);
    assert!(root.is_some());

    let root = root.unwrap();
    assert_eq!(root.data(), &1);
}

#[test]
fn get_mut() {
    let mut tree = TreeBuilder::new().with_root(1).build();

    let root_id = tree.root_id().expect("root doesn't exist?");
    let root = tree.data_mut(root_id);
    assert!(root.is_some());

    let root = root.unwrap();
    assert_eq!(root, &mut 1);

    *root = 2;
    assert_eq!(tree.get_node(root_id).unwrap().data(), &2);
}

#[test]
fn get_node() {
    let tree = TreeBuilder::new().with_root(1).build();

    let root_id = tree.root_id().expect("root doesn't exist?");
    let root = tree.get_node(root_id);
    assert!(root.is_some());

    let root = root.unwrap();
    assert_eq!(root.data, 1);
}

#[test]
fn get_node_mut() {
    let mut tree = TreeBuilder::new().with_root(1).build();

    let root_id = tree.root_id().expect("root doesn't exist?");
    let root = tree.get_node_mut(root_id);
    assert!(root.is_some());

    let root = root.unwrap();
    assert_eq!(root.data, 1);

    root.data = 2;
    assert_eq!(tree.get_node(root_id).unwrap().data, 2);
}

#[test]
fn set_root_shifts_old_root_down() {
    let mut tree = Tree::new();
    let first = tree.set_root(1);
    let second = tree.set_root(2);

    assert_eq!(tree.root_id(), Some(second));
    let second_node = tree.get_node(second).unwrap();
    assert_eq!(second_node.relatives.first_child, Some(first));
    assert_eq!(second_node.relatives.last_child, Some(first));

    let first_node = tree.get_node(first).unwrap();
    assert_eq!(first_node.relatives.parent, Some(second));
    assert_eq!(first_node.data, 1);
}

#[test]
fn append_children_in_order() {
    let mut tree = TreeBuilder::new().with_root(0).build();
    let root_id = tree.root_id().unwrap();
    let one = tree.append_child(root_id, 1).unwrap();
    let two = tree.append_child(root_id, 2).unwrap();
    let three = tree.append_child(root_id, 3).unwrap();

    assert_eq!(tree.children(root_id), vec![one, two, three]);
    assert_eq!(tree.get_node(one).unwrap().data, 1);
    assert_eq!(tree.get_node(two).unwrap().data, 2);
    assert_eq!(tree.get_node(three).unwrap().data, 3);

    let root = tree.get_node(root_id).unwrap();
    assert_eq!(root.relatives.first_child, Some(one));
    assert_eq!(root.relatives.last_child, Some(three));
    assert_eq!(tree.get_node(two).unwrap().relatives.prev_sibling, Some(one));
    assert_eq!(tree.get_node(two).unwrap().relatives.next_sibling, Some(three));
}

#[test]
fn prepend_children_in_order() {
    let mut tree = TreeBuilder::new().with_root(0).build();
    let root_id = tree.root_id().unwrap();
    let three = tree.prepend_child(root_id, 3).unwrap();
    let two = tree.prepend_child(root_id, 2).unwrap();
    let one = tree.prepend_child(root_id, 1).unwrap();

    assert_eq!(tree.children(root_id), vec![one, two, three]);
    let root = tree.get_node(root_id).unwrap();
    assert_eq!(root.relatives.first_child, Some(one));
    assert_eq!(root.relatives.last_child, Some(three));
}

#[test]
fn append_to_stale_handle_is_absent() {
    let mut tree = Tree::new();
    let mut other: Tree<i32> = Tree::new();
    let foreign = other.set_root(9);
    let r = tree.append_child(foreign, 1);
    assert!(r.is_none());
    assert!(tree.root_id().is_none());
}

#[test]
fn get_after_insert_returns_data() {
    let mut tree = TreeBuilder::new().with_root(7).build();
    let root_id = tree.root_id().unwrap();
    let child = tree.append_child(root_id, 41).unwrap();
    assert_eq!(tree.get_node(child).unwrap().data(), &41);
}

#[test]
fn handles_are_tree_scoped() {
    let mut tree_a = Tree::new();
    let mut tree_b: Tree<i32> = Tree::new();
    let a_root = tree_a.set_root(10);
    let b_root = tree_b.set_root(10);

    // Same slot and generation, different tree identity.
    assert_eq!(a_root.index, b_root.index);
    assert!(tree_b.get_node(a_root).is_none());
    assert!(tree_a.get_node(b_root).is_none());
    assert!(tree_a.get_node(a_root).is_some());
}

#[test]
fn replace_data_swaps_payload() {
    let mut tree = TreeBuilder::new().with_root(5).build();
    let root_id = tree.root_id().unwrap();
    let old = tree.replace_data(root_id, 6);
    assert_eq!(old, Some(5));
    assert_eq!(tree.get_node(root_id).unwrap().data, 6);
}

#[test]
fn remove_root_drop() {
    let mut tree = TreeBuilder::new().with_root(1).build();
    let root_id = tree.root_id().expect("root doesn't exist?");

    tree.remove(root_id, DropChildren);
    assert!(tree.root_id().is_none());
}

#[test]
fn remove_root_orphan() {
    let mut tree = TreeBuilder::new().with_root(1).build();
    let root_id = tree.root_id().expect("root doesn't exist?");

    tree.remove(root_id, OrphanChildren);
    assert!(tree.root_id().is_none());
}

#[test]
fn remove_drop() {
    let mut tree = TreeBuilder::new().with_root(1).build();

    let root_id = tree.root_id().expect("root doesn't exist?");
    let two_id = tree.append_child(root_id, 2).expect("root doesn't exist?");
    let three_id = tree.append_child(root_id, 3).expect("root doesn't exist?");
    let four_id = tree.append_child(root_id, 4).expect("root doesn't exist?");
    let five_id = tree.append_child(three_id, 5).expect("three doesn't exist?");

    //        1
    //      / | \
    //     2  3  4
    //        |
    //        5

    tree.remove(three_id, DropChildren);

    let root = tree
        .get_node(tree.root_id().expect("tree doesn't exist?"))
        .unwrap();
    assert!(root.relatives.first_child.is_some());
    assert!(root.relatives.last_child.is_some());
    assert_eq!(root.relatives.first_child.unwrap(), two_id);
    assert_eq!(root.relatives.last_child.unwrap(), four_id);

    let two = tree.get_node(two_id);
    assert!(two.is_some());

    let two = two.unwrap();
    assert_eq!(two.relatives.next_sibling, Some(four_id));

    let four = tree.get_node(four_id);
    assert!(four.is_some());

    let four = four.unwrap();
    assert_eq!(four.relatives.prev_sibling, Some(two_id));

    let five = tree.get_node(five_id);
    assert!(five.is_none());
}

/// Removing an already removed node must not panic.
#[test]
fn address_dropped() {
    let mut tree = TreeBuilder::new().with_root(1).build();
    let two_id = tree.root_id().expect("root doesn't exist");
    tree.remove(two_id, DropChildren);
    tree.remove(two_id, DropChildren);
}

#[test]
fn remove_orphan() {
    let mut tree = TreeBuilder::new().with_root(1).build();

    let root_id = tree.root_id().expect("root doesn't exist?");
    let two_id = tree.append_child(root_id, 2).expect("root doesn't exist?");
    let three_id = tree.append_child(root_id, 3).expect("root doesn't exist?");
    let four_id = tree.append_child(root_id, 4).expect("root doesn't exist?");
    let five_id = tree.append_child(three_id, 5).expect("three doesn't exist?");

    //        1
    //      / | \
    //     2  3  4
    //        |
    //        5

    tree.remove(three_id, OrphanChildren);

    let root = tree
        .get_node(tree.root_id().expect("tree doesn't exist?"))
        .unwrap();
    assert!(root.relatives.first_child.is_some());
    assert!(root.relatives.last_child.is_some());
    assert_eq!(root.relatives.first_child.unwrap(), two_id);
    assert_eq!(root.relatives.last_child.unwrap(), four_id);

    let two = tree.get_node(two_id);
    assert!(two.is_some());

    let two = two.unwrap();
    assert_eq!(two.relatives.next_sibling, Some(four_id));

    let four = tree.get_node(four_id);
    assert!(four.is_some());

    let four = four.unwrap();
    assert_eq!(four.relatives.prev_sibling, Some(two_id));

    let five = tree.get_node(five_id);
    assert!(five.is_some());

    let five = five.unwrap();
    assert_eq!(five.relatives.parent, None);
}

/// Builds the shared example: 0 with 1->(2->(3,4)), 5->(6->7, 8), then 9.
fn build_example_tree() -> Tree<i32> {
    let mut tree = TreeBuilder::new().with_root(0).build();
    let root = tree.root_id().unwrap();
    let one = tree.append_child(root, 1).unwrap();
    let two = tree.append_child(one, 2).unwrap();
    tree.append_child(two, 3).unwrap();
    tree.append_child(two, 4).unwrap();
    let five = tree.append_child(root, 5).unwrap();
    let six = tree.append_child(five, 6).unwrap();
    tree.append_child(six, 7).unwrap();
    tree.append_child(five, 8).unwrap();
    tree.append_child(root, 9).unwrap();
    tree
}

#[test]
fn find_data() {
    let tree = build_example_tree();

    // 0
    // ├── 1
    // │   └── 2
    // │       ├── 3
    // │       └── 4
    // ├── 5
    // │   ├── 6
    // │   │   └── 7
    // │   └── 8
    // └── 9

    let matches = tree.find(&6).unwrap();
    assert_eq!(matches.len(), 1);
    assert_eq!(tree.get_node(matches[0]).unwrap().data(), &6);
}

#[test]
fn find_removed_data() {
    let mut tree = build_example_tree();

    let matches = tree.find(&6).unwrap();
    assert_eq!(matches.len(), 1);
    assert_eq!(tree.get_node(matches[0]).unwrap().data(), &6);

    tree.remove(matches[0], DropChildren);
    let matches = tree.find(&6);
    assert!(matches.is_none());
}

#[test]
fn find_empty_tree() {
    let tree: Tree<i32> = TreeBuilder::new().build();
    let matches = tree.find(&6);
    assert!(matches.is_none());
}

#[test]
fn drop_children_removes_whole_subtree() {
    let mut tree = build_example_tree();
    let five_id = tree.find(&5).unwrap()[0];
    let six_id = tree.find(&6).unwrap()[0];
    let seven_id = tree.find(&7).unwrap()[0];
    let eight_id = tree.find(&8).unwrap()[0];

    // The subtree below 5 holds 4 nodes; dropping it removes exactly those.
    let removed = tree.remove(five_id, DropChildren);
    assert_eq!(removed, Some(5));
    assert!(tree.get_node(five_id).is_none());
    assert!(tree.get_node(six_id).is_none());
    assert!(tree.get_node(seven_id).is_none());
    assert!(tree.get_node(eight_id).is_none());
    assert_eq!(tree.traverse_level_order(tree.root_id().unwrap()).len(), 6);
}

#[test]
fn level_order_visits_breadth_first() {
    let tree = build_example_tree();
    let order = tree.traverse_level_order(tree.root_id().unwrap());
    let values: Vec<i32> = order
        .iter()
        .map(|id| *tree.get_node(*id).unwrap().data())
        .collect();
    assert_eq!(values, vec![0, 1, 5, 9, 2, 6, 8, 3, 4, 7]);
}

#[test]
fn orphans_stay_unreachable_from_root() {
    let mut tree = build_example_tree();
    let five_id = tree.find(&5).unwrap()[0];
    let six_id = tree.find(&6).unwrap()[0];
    let eight_id = tree.find(&8).unwrap()[0];

    tree.remove(five_id, OrphanChildren);

    // The orphans live on, with their mutual order, but no traversal from
    // the root reaches them and `find` no longer reports them.
    let six = tree.get_node(six_id).unwrap();
    assert_eq!(six.relatives.parent, None);
    assert_eq!(six.relatives.next_sibling, Some(eight_id));
    assert!(tree.find(&6).is_none());
    assert!(tree.find(&8).is_none());
    let order = tree.traverse_level_order(tree.root_id().unwrap());
    assert!(!order.contains(&six_id));
    assert!(!order.contains(&eight_id));
}

#[test]
fn write_formatted_tree() {
    let mut tree = TreeBuilder::new().with_root(0).build();
    let root_id = tree.root_id().unwrap();
    let one = tree.append_child(root_id, 1).unwrap();
    tree.append_child(one, 2).unwrap();
    tree.append_child(root_id, 3).unwrap();
    let s = tree.write_formatted();
    assert_eq!(
        &s,
        "\
0
├── 1
│   └── 2
└── 3
"
    );
}

#[test]
fn write_formatted_example_layout() {
    let tree = build_example_tree();
    let s = tree.write_formatted();
    assert_eq!(
        &s,
        "\
0
├── 1
│   └── 2
│       ├── 3
│       └── 4
├── 5
│   ├── 6
│   │   └── 7
│   └── 8
└── 9
"
    );
}

#[test]
fn write_formatted_empty_tree() {
    let tree: Tree<i32> = TreeBuilder::new().build();
    let s = tree.write_formatted();
    assert_eq!(&s, "");
}

#[test]
fn shrink_to_fit() {
    let mut tree = TreeBuilder::new().with_root(0).with_capacity(10).build();
    let root_id = tree.root_id().unwrap();
    for i in 1..4 {
        tree.append_child(root_id, i).unwrap();
    }
    tree.shrink_to_fit();
    assert!(tree.capacity() >= 4 && tree.capacity() < 10);
}

#[test]
fn shrink_to_fit_with_remove() {
    let mut tree = TreeBuilder::new().with_root(0).with_capacity(10).build();
    let root_id = tree.root_id().unwrap();
    let mut node_ids = vec![root_id];
    for i in 1..4 {
        node_ids.push(tree.append_child(root_id, i).unwrap());
    }
    tree.remove(node_ids[1], OrphanChildren);
    tree.remove(node_ids[3], OrphanChildren);
    tree.shrink_to_fit();
    assert!(tree.capacity() >= 3 && tree.capacity() < 10);
}

#[test]
fn pre_order_visits_depth_first() {
    let tree = build_example_tree();
    let order = tree.traverse_pre_order(tree.root_id().unwrap());
    let values: Vec<i32> = order
        .iter()
        .map(|id| *tree.get_node(*id).unwrap().data())
        .collect();
    assert_eq!(values, vec![0, 1, 2, 3, 4, 5, 6, 7, 8, 9]);
}

#[test]
fn read_cursor_navigates() {
    let tree = build_example_tree();
    let root = tree.root().expect("root doesn't exist?");
    assert_eq!(root.data(), &0);

    let one = root.first_child().expect("first child missing");
    assert_eq!(one.data(), &1);
    let five = one.next_sibling().expect("next sibling missing");
    assert_eq!(five.data(), &5);
    assert_eq!(five.parent().expect("parent missing").data(), &0);
    let nine = tree.root().unwrap().last_child().expect("last child missing");
    assert_eq!(nine.data(), &9);
    assert!(nine.next_sibling().is_none());
    assert_eq!(nine.prev_sibling().expect("prev sibling missing").data(), &5);

    let handle = five.node_id();
    let again = tree.get(handle).expect("handle went stale");
    assert_eq!(again.data(), &5);
}
