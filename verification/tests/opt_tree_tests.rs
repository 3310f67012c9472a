use id_tree::InsertBehavior::AsRoot;
use id_tree::InsertBehavior::UnderNode;
use id_tree::NodeId;
use id_tree::OptNode;
use id_tree::OptTree;
use id_tree::OptTreeBuilder;

fn new_tree() -> (NodeId, OptTree<i32>) {
    let tree = OptTreeBuilder::new()
        .with_root(OptNode::new(1))
        .with_node_capacity(2usize)
        .with_swap_capacity(3usize)
        .build();

    (*tree.core_tree.root.as_ref().unwrap(), tree)
}

#[test]
fn opt_tree_new() {
    let tree: OptTree<i32> = OptTree::new();

    assert_eq!(tree.core_tree.root, None);
    assert_eq!(tree.core_tree.nodes.len(), 0);
    assert_eq!(tree.core_tree.free_ids.len(), 0);
}

#[test]
fn insert() {
    let (root_id, mut tree) = new_tree();

    assert_eq!(tree.get(&root_id).unwrap().parent(), None);
    assert_eq!(tree.get(&root_id).unwrap().first_child(), None);
    assert_eq!(tree.get(&root_id).unwrap().last_child(), None);
    assert_eq!(tree.get(&root_id).unwrap().prev_sibling(), None);
    assert_eq!(tree.get(&root_id).unwrap().next_sibling(), None);

    let child_1 = tree.insert(OptNode::new(2), UnderNode(&root_id)).unwrap();

    assert_eq!(tree.get(&root_id).unwrap().parent(), None);
    assert_eq!(tree.get(&root_id).unwrap().first_child(), Some(child_1));
    assert_eq!(tree.get(&root_id).unwrap().last_child(), Some(child_1));
    assert_eq!(tree.get(&root_id).unwrap().prev_sibling(), None);
    assert_eq!(tree.get(&root_id).unwrap().next_sibling(), None);

    assert_eq!(tree.get(&child_1).unwrap().parent(), Some(root_id));
    assert_eq!(tree.get(&child_1).unwrap().first_child(), None);
    assert_eq!(tree.get(&child_1).unwrap().last_child(), None);
    assert_eq!(tree.get(&child_1).unwrap().prev_sibling(), None);
    assert_eq!(tree.get(&child_1).unwrap().next_sibling(), None);

    let child_2 = tree.insert(OptNode::new(3), UnderNode(&root_id)).unwrap();

    assert_eq!(tree.get(&root_id).unwrap().parent(), None);
    assert_eq!(tree.get(&root_id).unwrap().first_child(), Some(child_1));
    assert_eq!(tree.get(&root_id).unwrap().last_child(), Some(child_2));
    assert_eq!(tree.get(&root_id).unwrap().prev_sibling(), None);
    assert_eq!(tree.get(&root_id).unwrap().next_sibling(), None);

    assert_eq!(tree.get(&child_1).unwrap().parent(), Some(root_id));
    assert_eq!(tree.get(&child_1).unwrap().first_child(), None);
    assert_eq!(tree.get(&child_1).unwrap().last_child(), None);
    assert_eq!(tree.get(&child_1).unwrap().prev_sibling(), None);
    assert_eq!(tree.get(&child_1).unwrap().next_sibling(), Some(child_2));

    assert_eq!(tree.get(&child_2).unwrap().parent(), Some(root_id));
    assert_eq!(tree.get(&child_2).unwrap().first_child(), None);
    assert_eq!(tree.get(&child_2).unwrap().last_child(), None);
    assert_eq!(tree.get(&child_2).unwrap().prev_sibling(), Some(child_1));
    assert_eq!(tree.get(&child_2).unwrap().next_sibling(), None);

    let new_root = tree.insert(OptNode::new(0), AsRoot).unwrap();
    let old_root = root_id;

    assert_eq!(tree.get(&old_root).unwrap().parent(), Some(new_root));
    assert_eq!(tree.get(&old_root).unwrap().first_child(), Some(child_1));
    assert_eq!(tree.get(&old_root).unwrap().last_child(), Some(child_2));
    assert_eq!(tree.get(&old_root).unwrap().prev_sibling(), None);
    assert_eq!(tree.get(&old_root).unwrap().next_sibling(), None);

    assert_eq!(tree.get(&new_root).unwrap().parent(), None);
    assert_eq!(tree.get(&new_root).unwrap().first_child(), Some(old_root));
    assert_eq!(tree.get(&new_root).unwrap().last_child(), Some(old_root));
    assert_eq!(tree.get(&new_root).unwrap().prev_sibling(), None);
    assert_eq!(tree.get(&new_root).unwrap().next_sibling(), None);

    assert_eq!(tree.get(&child_1).unwrap().parent(), Some(old_root));
    assert_eq!(tree.get(&child_1).unwrap().first_child(), None);
    assert_eq!(tree.get(&child_1).unwrap().last_child(), None);
    assert_eq!(tree.get(&child_1).unwrap().prev_sibling(), None);
    assert_eq!(tree.get(&child_1).unwrap().next_sibling(), Some(child_2));

    assert_eq!(tree.get(&child_2).unwrap().parent(), Some(old_root));
    assert_eq!(tree.get(&child_2).unwrap().first_child(), None);
    assert_eq!(tree.get(&child_2).unwrap().last_child(), None);
    assert_eq!(tree.get(&child_2).unwrap().prev_sibling(), Some(child_1));
    assert_eq!(tree.get(&child_2).unwrap().next_sibling(), None);
}

#[test]
fn opt_builder_new() {
    let tb: OptTreeBuilder<i32> = OptTreeBuilder::new();
    assert!(tb.root.is_none());
    assert_eq!(tb.node_capacity, 0);
    assert_eq!(tb.swap_capacity, 0);
}

#[test]
fn opt_with_root() {
    let tb: OptTreeBuilder<i32> = OptTreeBuilder::new().with_root(OptNode::new(5));

    assert_eq!(tb.root.unwrap().data(), &5);
    assert_eq!(tb.node_capacity, 0);
    assert_eq!(tb.swap_capacity, 0);
}

#[test]
fn opt_with_node_capacity() {
    let tb: OptTreeBuilder<i32> = OptTreeBuilder::new().with_node_capacity(10);

    assert!(tb.root.is_none());
    assert_eq!(tb.node_capacity, 10);
    assert_eq!(tb.swap_capacity, 0);
}

#[test]
fn opt_with_swap_capacity() {
    let tb: OptTreeBuilder<i32> = OptTreeBuilder::new().with_swap_capacity(10);

    assert!(tb.root.is_none());
    assert_eq!(tb.node_capacity, 0);
    assert_eq!(tb.swap_capacity, 10);
}
