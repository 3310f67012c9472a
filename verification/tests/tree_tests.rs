use id_tree::Node;
use id_tree::NodeId;
use id_tree::Tree;
use id_tree::TreeBuilder;

#[test]
fn test_new() {
    let tb: TreeBuilder<i32> = TreeBuilder::new();
    assert!(tb.root.is_none());
    assert_eq!(tb.node_capacity, 0);
    assert_eq!(tb.swap_capacity, 0);
}

#[test]
fn test_with_root() {
    let tb: TreeBuilder<i32> = TreeBuilder::new().with_root(Node::new(5));

    assert_eq!(tb.root.unwrap().data(), &5);
    assert_eq!(tb.node_capacity, 0);
    assert_eq!(tb.swap_capacity, 0);
}

#[test]
fn test_with_node_capacity() {
    let tb: TreeBuilder<i32> = TreeBuilder::new().with_node_capacity(10);

    assert!(tb.root.is_none());
    assert_eq!(tb.node_capacity, 10);
    assert_eq!(tb.swap_capacity, 0);
}

#[test]
fn test_with_swap_capacity() {
    let tb: TreeBuilder<i32> = TreeBuilder::new().with_swap_capacity(10);

    assert!(tb.root.is_none());
    assert_eq!(tb.node_capacity, 0);
    assert_eq!(tb.swap_capacity, 10);
}

#[test]
fn test_with_all_settings() {
    let tb: TreeBuilder<i32> = TreeBuilder::new()
        .with_root(Node::new(5))
        .with_node_capacity(10)
        .with_swap_capacity(3);

    assert_eq!(tb.root.unwrap().data(), &5);
    assert_eq!(tb.node_capacity, 10);
    assert_eq!(tb.swap_capacity, 3);
}

#[test]
fn test_build() {
    let tree = TreeBuilder::new()
        .with_root(Node::new(5))
        .with_node_capacity(10)
        .with_swap_capacity(3)
        .build();

    let root = tree.get(tree.root_node_id().unwrap()).unwrap();

    assert_eq!(root.data(), &5);
    assert_eq!(tree.core_tree.nodes.capacity(), 10);
    assert_eq!(tree.core_tree.free_ids.capacity(), 3);
}

#[test]
fn tree_test_new() {
    let tree: Tree<i32> = Tree::new();

    assert!(tree.root_node_id().is_none());
    assert_eq!(tree.core_tree.nodes.len(), 0);
    assert_eq!(tree.core_tree.free_ids.len(), 0);
}

#[test]
fn tree_test_get() {
    let tree = TreeBuilder::new().with_root(Node::new(5)).build();

    let root_id = *tree.root_node_id().unwrap();
    let root = tree.get(&root_id).unwrap();

    assert_eq!(root.data(), &5);
}

#[test]
fn tree_test_get_mut() {
    let mut tree = TreeBuilder::new().with_root(Node::new(5)).build();

    let root_id = *tree.root_node_id().unwrap();

    {
        let root = tree.get(&root_id).unwrap();
        assert_eq!(root.data(), &5);
    }

    {
        let root = tree.get_mut(&root_id).unwrap();
        *root.data_mut() = 6;
    }

    let root = tree.get(&root_id).unwrap();
    assert_eq!(root.data(), &6);
}

#[test]
fn tree_test_set_root() {
    let a = 5;
    let b = 6;
    let node_a = Node::new(a);
    let node_b = Node::new(b);

    let mut tree = TreeBuilder::new().build();

    let node_a_id = tree.set_root(node_a);
    let root_id = *tree.root_node_id().unwrap();
    assert_eq!(node_a_id, root_id);

    {
        let node_a_ref = tree.get(&node_a_id).unwrap();
        let root_ref = tree.get(&root_id).unwrap();
        assert_eq!(node_a_ref.data(), &a);
        assert_eq!(root_ref.data(), &a);
    }

    let node_b_id = tree.set_root(node_b);
    let root_id = *tree.root_node_id().unwrap();
    assert_eq!(node_b_id, root_id);

    {
        let node_b_ref = tree.get(&node_b_id).unwrap();
        let root_ref = tree.get(&root_id).unwrap();
        assert_eq!(node_b_ref.data(), &b);
        assert_eq!(root_ref.data(), &b);

        let node_b_child_id = *node_b_ref.children().get(0).unwrap();
        let node_b_child_ref = tree.get(&node_b_child_id).unwrap();
        assert_eq!(node_b_child_ref.data(), &a);
    }
}

#[test]
fn test_root_node_id() {
    let tree = TreeBuilder::new().with_root(Node::new(5)).build();

    let root_id = *tree.root_node_id().unwrap();
    let root_node_id = tree.root_node_id().unwrap();

    assert_eq!(&root_id, root_node_id);
}

#[test]
fn test_insert_with_parent() {
    let a = 1;
    let b = 2;
    let r = 5;

    let mut tree = TreeBuilder::new().with_root(Node::new(r)).build();

    let node_a = Node::new(a);
    let node_b = Node::new(b);

    let root_id = *tree.root_node_id().unwrap();
    let node_a_id = tree.insert_with_parent(node_a, &root_id).unwrap();
    let node_b_id = tree.insert_with_parent(node_b, &root_id).unwrap();

    let node_a_ref = tree.get(&node_a_id).unwrap();
    let node_b_ref = tree.get(&node_b_id).unwrap();
    assert_eq!(node_a_ref.data(), &a);
    assert_eq!(node_b_ref.data(), &b);

    assert_eq!(node_a_ref.parent().unwrap(), root_id);
    assert_eq!(node_b_ref.parent().unwrap(), root_id);

    let root_node_ref = tree.get(&root_id).unwrap();
    let root_children: &Vec<NodeId> = root_node_ref.children();

    let child_1_id = *root_children.get(0).unwrap();
    let child_2_id = *root_children.get(1).unwrap();

    let child_1_ref = tree.get(&child_1_id).unwrap();
    let child_2_ref = tree.get(&child_2_id).unwrap();

    assert_eq!(child_1_ref.data(), &a);
    assert_eq!(child_2_ref.data(), &b);
}

#[test]
fn test_remove_node_lift_children() {
    let mut tree = TreeBuilder::new().with_root(Node::new(5)).build();

    let root_id = *tree.root_node_id().unwrap();

    let node_1_id = tree.insert_with_parent(Node::new(1), &root_id).unwrap();
    let node_2_id = tree.insert_with_parent(Node::new(2), &node_1_id).unwrap();
    let node_3_id = tree.insert_with_parent(Node::new(3), &node_1_id).unwrap();

    let node_1 = tree.remove_node_lift_children(node_1_id).unwrap();

    assert_eq!(Some(&root_id), tree.root_node_id());

    assert_eq!(node_1.data(), &1);
    assert_eq!(node_1.children().len(), 0);
    assert!(node_1.parent().is_none());
    assert!(tree.get(&node_1_id).is_err());

    let root_ref = tree.get(&root_id).unwrap();
    let node_2_ref = tree.get(&node_2_id).unwrap();
    let node_3_ref = tree.get(&node_3_id).unwrap();

    assert_eq!(node_2_ref.data(), &2);
    assert_eq!(node_3_ref.data(), &3);

    assert_eq!(node_2_ref.parent().unwrap(), root_id);
    assert_eq!(node_3_ref.parent().unwrap(), root_id);

    assert!(root_ref.children().contains(&node_2_id));
    assert!(root_ref.children().contains(&node_3_id));
}

#[test]
fn test_remove_node_orphan_children() {
    let mut tree = TreeBuilder::new().with_root(Node::new(5)).build();

    let root_id = *tree.root_node_id().unwrap();

    let node_1_id = tree.insert_with_parent(Node::new(1), &root_id).unwrap();
    let node_2_id = tree.insert_with_parent(Node::new(2), &node_1_id).unwrap();
    let node_3_id = tree.insert_with_parent(Node::new(3), &node_1_id).unwrap();

    let node_1 = tree.remove_node_orphan_children(node_1_id).unwrap();

    assert_eq!(Some(&root_id), tree.root_node_id());

    assert_eq!(node_1.data(), &1);
    assert_eq!(node_1.children().len(), 0);
    assert!(node_1.parent().is_none());
    assert!(tree.get(&node_1_id).is_err());

    let node_2_ref = tree.get(&node_2_id).unwrap();
    let node_3_ref = tree.get(&node_3_id).unwrap();

    assert_eq!(node_2_ref.data(), &2);
    assert_eq!(node_3_ref.data(), &3);

    assert!(node_2_ref.parent().is_none());
    assert!(node_3_ref.parent().is_none());
}

#[test]
fn test_remove_root() {
    let mut tree = TreeBuilder::new().with_root(Node::new(5)).build();

    let root_id = *tree.root_node_id().unwrap();
    tree.remove_node_orphan_children(root_id).unwrap();
    assert_eq!(None, tree.root_node_id());

    let mut tree = TreeBuilder::new().with_root(Node::new(5)).build();

    let root_id = *tree.root_node_id().unwrap();
    tree.remove_node_lift_children(root_id).unwrap();
    assert_eq!(None, tree.root_node_id());
}

#[test]
fn test_move_node_to_parent() {
    let mut tree = Tree::new();

    let root_id = tree.set_root(Node::new(0));
    let node_1_id = tree.insert_with_parent(Node::new(1), &root_id).unwrap();
    let node_2_id = tree.insert_with_parent(Node::new(2), &root_id).unwrap();
    let node_3_id = tree.insert_with_parent(Node::new(3), &node_1_id).unwrap();

    // move 3 "across" the tree
    tree.move_node_to_parent(&node_3_id, &node_2_id).unwrap();
    assert!(tree.get(&root_id).unwrap().children().contains(&node_1_id));
    assert!(tree.get(&root_id).unwrap().children().contains(&node_2_id));
    assert!(tree.get(&node_2_id).unwrap().children().contains(&node_3_id));

    // move 3 "up" the tree
    tree.move_node_to_parent(&node_3_id, &root_id).unwrap();
    assert!(tree.get(&root_id).unwrap().children().contains(&node_1_id));
    assert!(tree.get(&root_id).unwrap().children().contains(&node_2_id));
    assert!(tree.get(&root_id).unwrap().children().contains(&node_3_id));

    // move 3 "down" (really this is across though) the tree
    tree.move_node_to_parent(&node_3_id, &node_1_id).unwrap();
    assert!(tree.get(&root_id).unwrap().children().contains(&node_1_id));
    assert!(tree.get(&root_id).unwrap().children().contains(&node_2_id));
    assert!(tree.get(&node_1_id).unwrap().children().contains(&node_3_id));

    // move 1 "down" the tree
    tree.move_node_to_parent(&node_1_id, &node_3_id).unwrap();
    assert!(tree.get(&root_id).unwrap().children().contains(&node_2_id));
    assert!(tree.get(&root_id).unwrap().children().contains(&node_3_id));
    assert!(tree.get(&node_3_id).unwrap().children().contains(&node_1_id));

    // note: node_1 is at the lowest point in the tree before these insertions.
    let node_4_id = tree.insert_with_parent(Node::new(4), &node_1_id).unwrap();
    let node_5_id = tree.insert_with_parent(Node::new(5), &node_4_id).unwrap();

    // move 3 "down" the tree
    tree.move_node_to_parent(&node_3_id, &node_5_id).unwrap();
    assert!(tree.get(&root_id).unwrap().children().contains(&node_2_id));
    assert!(tree.get(&root_id).unwrap().children().contains(&node_1_id));
    assert!(tree.get(&node_1_id).unwrap().children().contains(&node_4_id));
    assert!(tree.get(&node_4_id).unwrap().children().contains(&node_5_id));
    assert!(tree.get(&node_5_id).unwrap().children().contains(&node_3_id));

    // move root "down" the tree
    tree.move_node_to_parent(&root_id, &node_2_id).unwrap();
    assert!(tree.get(&node_2_id).unwrap().children().contains(&root_id));
    assert!(tree.get(&root_id).unwrap().children().contains(&node_1_id));
    assert!(tree.get(&node_1_id).unwrap().children().contains(&node_4_id));
    assert!(tree.get(&node_4_id).unwrap().children().contains(&node_5_id));
    assert!(tree.get(&node_5_id).unwrap().children().contains(&node_3_id));
    assert_eq!(tree.root_node_id(), Some(&node_2_id));
}

#[test]
fn test_find_subtree_root_below_upper_id() {
    let mut tree = Tree::new();

    let root_id = tree.set_root(Node::new(0));
    let node_1_id = tree.insert_with_parent(Node::new(1), &root_id).unwrap();
    let node_2_id = tree.insert_with_parent(Node::new(2), &node_1_id).unwrap();
    let node_3_id = tree.insert_with_parent(Node::new(3), &node_1_id).unwrap();
    let node_4_id = tree.insert_with_parent(Node::new(4), &node_2_id).unwrap();

    let sub_root = tree.find_subtree_root_between_ids(&node_1_id, &root_id);
    assert_eq!(sub_root, Some(node_1_id));
    let sub_root = tree.find_subtree_root_between_ids(&root_id, &node_1_id); //invert for None
    assert_eq!(sub_root, None);

    let sub_root = tree.find_subtree_root_between_ids(&node_2_id, &root_id);
    assert_eq!(sub_root, Some(node_1_id));
    let sub_root = tree.find_subtree_root_between_ids(&root_id, &node_2_id); //invert for None
    assert_eq!(sub_root, None);

    let sub_root = tree.find_subtree_root_between_ids(&node_3_id, &node_1_id);
    assert_eq!(sub_root, Some(node_3_id));
    let sub_root = tree.find_subtree_root_between_ids(&node_1_id, &node_3_id); //invert for None
    assert_eq!(sub_root, None);

    let sub_root = tree.find_subtree_root_between_ids(&node_4_id, &root_id);
    assert_eq!(sub_root, Some(node_1_id));
    let sub_root = tree.find_subtree_root_between_ids(&root_id, &node_4_id); //invert for None
    assert_eq!(sub_root, None);
}

#[test]
fn test_swap_sub_trees() {
    // test across swap
    {
        let mut tree = Tree::new();
        let root_id = tree.set_root(Node::new(0));
        let node_1_id = tree.insert_with_parent(Node::new(1), &root_id).unwrap();
        let node_2_id = tree.insert_with_parent(Node::new(2), &root_id).unwrap();
        let node_3_id = tree.insert_with_parent(Node::new(3), &node_1_id).unwrap();
        let node_4_id = tree.insert_with_parent(Node::new(4), &node_2_id).unwrap();

        tree.swap_sub_tree(&node_3_id, &node_4_id).unwrap();

        assert!(tree.get(&node_1_id).unwrap().children().contains(&node_4_id));
        assert!(tree.get(&node_2_id).unwrap().children().contains(&node_3_id));
    }

    // test ordering via swap
    {
        let mut tree = Tree::new();
        let root_id = tree.set_root(Node::new(0));
        let node_1_id = tree.insert_with_parent(Node::new(1), &root_id).unwrap();
        let node_2_id = tree.insert_with_parent(Node::new(2), &root_id).unwrap();

        tree.swap_sub_tree(&node_1_id, &node_2_id).unwrap();

        let root = tree.get(&root_id).unwrap();
        let children = root.children();
        assert!(children[0] == node_2_id);
        assert!(children[1] == node_1_id);
    }

    // test swap down
    {
        let mut tree = Tree::new();
        let root_id = tree.set_root(Node::new(0));
        let node_1_id = tree.insert_with_parent(Node::new(1), &root_id).unwrap();
        let node_2_id = tree.insert_with_parent(Node::new(2), &root_id).unwrap();
        let node_3_id = tree.insert_with_parent(Node::new(3), &node_1_id).unwrap();

        tree.swap_sub_tree(&root_id, &node_3_id).unwrap();

        assert_eq!(tree.root_node_id(), Some(&node_3_id));

        assert!(tree.get(&node_3_id).unwrap().children().contains(&root_id));

        let root = tree.get(&root_id).unwrap();
        let children = root.children();
        assert!(children[0] == node_1_id);
        assert!(children[1] == node_2_id);
    }

    // test swap down without root
    {
        let mut tree = Tree::new();
        let root_id = tree.set_root(Node::new(0));
        let node_1_id = tree.insert_with_parent(Node::new(1), &root_id).unwrap();
        let node_2_id = tree.insert_with_parent(Node::new(2), &root_id).unwrap();
        let node_3_id = tree.insert_with_parent(Node::new(3), &node_1_id).unwrap();

        tree.swap_sub_tree(&node_1_id, &node_3_id).unwrap();

        assert!(tree.get(&node_3_id).unwrap().children().contains(&node_1_id));

        let root = tree.get(&root_id).unwrap();
        let children = root.children();
        assert!(children[0] == node_3_id);
        assert!(children[1] == node_2_id);
    }
}
