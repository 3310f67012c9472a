use id_tree::InsertBehavior::AsRoot;
use id_tree::InsertBehavior::UnderNode;
use id_tree::Node;
use id_tree::Tree;
use id_tree::VecNode;
use id_tree::VecTree;

#[test]
fn vec_ancestors() {
    let mut tree = VecTree::new();

    let root_id = tree.insert(VecNode::new(0), AsRoot).unwrap();
    let node_1 = tree.insert(VecNode::new(1), UnderNode(&root_id)).unwrap();
    let node_2 = tree.insert(VecNode::new(2), UnderNode(&node_1)).unwrap();
    let node_3 = tree.insert(VecNode::new(3), UnderNode(&node_1)).unwrap();

    let mut ancestors = tree.ancestors(&root_id).unwrap();
    let mut count = 0;
    while let Some(_) = ancestors.next() {
        count += 1;
    }
    assert_eq!(count, 0);

    let data = [0];
    let mut index = 0;
    let mut ancestors = tree.ancestors(&node_1).unwrap();
    while let Some(id) = ancestors.next() {
        assert_eq!(tree.get(&id).unwrap().data(), &data[index]);
        index += 1;
    }
    assert_eq!(index, data.len());

    let data = [1, 0];
    let mut index = 0;
    let mut ancestors = tree.ancestors(&node_2).unwrap();
    while let Some(id) = ancestors.next() {
        assert_eq!(tree.get(&id).unwrap().data(), &data[index]);
        index += 1;
    }
    assert_eq!(index, data.len());

    let data = [1, 0];
    let mut index = 0;
    let mut ancestors = tree.ancestors(&node_3).unwrap();
    while let Some(id) = ancestors.next() {
        assert_eq!(tree.get(&id).unwrap().data(), &data[index]);
        index += 1;
    }
    assert_eq!(index, data.len());
}

#[test]
fn vec_ancestor_ids() {
    let mut tree = VecTree::new();

    let root_id = tree.insert(VecNode::new(0), AsRoot).unwrap();
    let node_1 = tree.insert(VecNode::new(1), UnderNode(&root_id)).unwrap();
    let node_2 = tree.insert(VecNode::new(2), UnderNode(&node_1)).unwrap();
    let node_3 = tree.insert(VecNode::new(3), UnderNode(&node_1)).unwrap();

    let mut ancestor_ids = tree.ancestor_ids(&root_id).unwrap();
    let mut count = 0;
    while let Some(_) = ancestor_ids.next() {
        count += 1;
    }
    assert_eq!(count, 0);

    let data = [0];
    let mut index = 0;
    let mut ancestor_ids = tree.ancestor_ids(&node_1).unwrap();
    while let Some(node_id) = ancestor_ids.next() {
        assert_eq!(tree.get(&node_id).unwrap().data(), &data[index]);
        index += 1;
    }
    assert_eq!(index, data.len());

    let data = [1, 0];
    let mut index = 0;
    let mut ancestor_ids = tree.ancestor_ids(&node_2).unwrap();
    while let Some(node_id) = ancestor_ids.next() {
        assert_eq!(tree.get(&node_id).unwrap().data(), &data[index]);
        index += 1;
    }
    assert_eq!(index, data.len());

    let data = [1, 0];
    let mut index = 0;
    let mut ancestor_ids = tree.ancestor_ids(&node_3).unwrap();
    while let Some(node_id) = ancestor_ids.next() {
        assert_eq!(tree.get(&node_id).unwrap().data(), &data[index]);
        index += 1;
    }
    assert_eq!(index, data.len());
}

#[test]
fn vec_children() {
    let mut tree = VecTree::new();

    let root_id = tree.insert(VecNode::new(0), AsRoot).unwrap();
    let node_1 = tree.insert(VecNode::new(1), UnderNode(&root_id)).unwrap();
    let node_2 = tree.insert(VecNode::new(2), UnderNode(&node_1)).unwrap();
    let node_3 = tree.insert(VecNode::new(3), UnderNode(&node_1)).unwrap();

    let data = [1];
    let mut index = 0;
    let mut children = tree.children(&root_id).unwrap();
    while let Some(id) = children.next() {
        assert_eq!(tree.get(&id).unwrap().data(), &data[index]);
        index += 1;
    }
    assert_eq!(index, data.len());

    let data = [2, 3];
    let mut index = 0;
    let mut children = tree.children(&node_1).unwrap();
    while let Some(id) = children.next() {
        assert_eq!(tree.get(&id).unwrap().data(), &data[index]);
        index += 1;
    }
    assert_eq!(index, data.len());

    let mut children = tree.children(&node_2).unwrap();
    let mut count = 0;
    while let Some(_) = children.next() {
        count += 1;
    }
    assert_eq!(count, 0);

    let mut children = tree.children(&node_3).unwrap();
    let mut count = 0;
    while let Some(_) = children.next() {
        count += 1;
    }
    assert_eq!(count, 0);
}

#[test]
fn vec_children_ids() {
    let mut tree = VecTree::new();

    let root_id = tree.insert(VecNode::new(0), AsRoot).unwrap();
    let node_1 = tree.insert(VecNode::new(1), UnderNode(&root_id)).unwrap();
    let node_2 = tree.insert(VecNode::new(2), UnderNode(&node_1)).unwrap();
    let node_3 = tree.insert(VecNode::new(3), UnderNode(&node_1)).unwrap();

    let data = [1];
    let mut index = 0;
    let mut children_ids = tree.children_ids(&root_id).unwrap();
    while let Some(node_id) = children_ids.next() {
        assert_eq!(tree.get(&node_id).unwrap().data(), &data[index]);
        index += 1;
    }
    assert_eq!(index, data.len());

    let data = [2, 3];
    let mut index = 0;
    let mut children_ids = tree.children_ids(&node_1).unwrap();
    while let Some(node_id) = children_ids.next() {
        assert_eq!(tree.get(&node_id).unwrap().data(), &data[index]);
        index += 1;
    }
    assert_eq!(index, data.len());

    let mut children_ids = tree.children_ids(&node_2).unwrap();
    let mut count = 0;
    while let Some(_) = children_ids.next() {
        count += 1;
    }
    assert_eq!(count, 0);

    let mut children_ids = tree.children_ids(&node_3).unwrap();
    let mut count = 0;
    while let Some(_) = children_ids.next() {
        count += 1;
    }
    assert_eq!(count, 0);
}

#[test]
fn vec_pre_order_traversal() {
    let mut tree = VecTree::new();

    //      0
    //     / \
    //    1   2
    //   /
    //  3
    let root_id = tree.insert(VecNode::new(0), AsRoot).unwrap();
    let node_1 = tree.insert(VecNode::new(1), UnderNode(&root_id)).unwrap();
    let node_2 = tree.insert(VecNode::new(2), UnderNode(&root_id)).unwrap();
    let node_3 = tree.insert(VecNode::new(3), UnderNode(&node_1)).unwrap();

    let data = [0, 1, 3, 2];
    let mut index = 0;
    let mut nodes = tree.traverse_pre_order(&root_id).unwrap();
    while let Some(id) = nodes.next() {
        assert_eq!(tree.get(&id).unwrap().data(), &data[index]);
        index += 1;
    }
    assert_eq!(index, data.len());

    let data = [1, 3];
    let mut index = 0;
    let mut nodes = tree.traverse_pre_order(&node_1).unwrap();
    while let Some(id) = nodes.next() {
        assert_eq!(tree.get(&id).unwrap().data(), &data[index]);
        index += 1;
    }
    assert_eq!(index, data.len());

    let data = [2];
    let mut index = 0;
    let mut nodes = tree.traverse_pre_order(&node_2).unwrap();
    while let Some(id) = nodes.next() {
        assert_eq!(tree.get(&id).unwrap().data(), &data[index]);
        index += 1;
    }
    assert_eq!(index, data.len());

    let data = [3];
    let mut index = 0;
    let mut nodes = tree.traverse_pre_order(&node_3).unwrap();
    while let Some(id) = nodes.next() {
        assert_eq!(tree.get(&id).unwrap().data(), &data[index]);
        index += 1;
    }
    assert_eq!(index, data.len());
}

#[test]
fn vec_post_order_traversal() {
    let mut tree = VecTree::new();

    //      0
    //     / \
    //    1   2
    //   /
    //  3
    let root_id = tree.insert(VecNode::new(0), AsRoot).unwrap();
    let node_1 = tree.insert(VecNode::new(1), UnderNode(&root_id)).unwrap();
    let node_2 = tree.insert(VecNode::new(2), UnderNode(&root_id)).unwrap();
    let node_3 = tree.insert(VecNode::new(3), UnderNode(&node_1)).unwrap();

    let data = [3, 1, 2, 0];
    let mut index = 0;
    let mut nodes = tree.traverse_post_order(&root_id).unwrap();
    while let Some(id) = nodes.next() {
        assert_eq!(tree.get(&id).unwrap().data(), &data[index]);
        index += 1;
    }
    assert_eq!(index, data.len());

    let data = [3, 1];
    let mut index = 0;
    let mut nodes = tree.traverse_post_order(&node_1).unwrap();
    while let Some(id) = nodes.next() {
        assert_eq!(tree.get(&id).unwrap().data(), &data[index]);
        index += 1;
    }
    assert_eq!(index, data.len());

    let data = [2];
    let mut index = 0;
    let mut nodes = tree.traverse_post_order(&node_2).unwrap();
    while let Some(id) = nodes.next() {
        assert_eq!(tree.get(&id).unwrap().data(), &data[index]);
        index += 1;
    }
    assert_eq!(index, data.len());

    let data = [3];
    let mut index = 0;
    let mut nodes = tree.traverse_post_order(&node_3).unwrap();
    while let Some(id) = nodes.next() {
        assert_eq!(tree.get(&id).unwrap().data(), &data[index]);
        index += 1;
    }
    assert_eq!(index, data.len());
}

#[test]
fn vec_level_order_traversal() {
    let mut tree = VecTree::new();

    //      0
    //     / \
    //    1   2
    //   /
    //  3
    let root_id = tree.insert(VecNode::new(0), AsRoot).unwrap();
    let node_1 = tree.insert(VecNode::new(1), UnderNode(&root_id)).unwrap();
    let node_2 = tree.insert(VecNode::new(2), UnderNode(&root_id)).unwrap();
    let node_3 = tree.insert(VecNode::new(3), UnderNode(&node_1)).unwrap();

    let data = [0, 1, 2, 3];
    let mut index = 0;
    let mut nodes = tree.traverse_level_order(&root_id).unwrap();
    while let Some(id) = nodes.next() {
        assert_eq!(tree.get(&id).unwrap().data(), &data[index]);
        index += 1;
    }
    assert_eq!(index, data.len());

    let data = [1, 3];
    let mut index = 0;
    let mut nodes = tree.traverse_level_order(&node_1).unwrap();
    while let Some(id) = nodes.next() {
        assert_eq!(tree.get(&id).unwrap().data(), &data[index]);
        index += 1;
    }
    assert_eq!(index, data.len());

    let data = [2];
    let mut index = 0;
    let mut nodes = tree.traverse_level_order(&node_2).unwrap();
    while let Some(id) = nodes.next() {
        assert_eq!(tree.get(&id).unwrap().data(), &data[index]);
        index += 1;
    }
    assert_eq!(index, data.len());

    let data = [3];
    let mut index = 0;
    let mut nodes = tree.traverse_level_order(&node_3).unwrap();
    while let Some(id) = nodes.next() {
        assert_eq!(tree.get(&id).unwrap().data(), &data[index]);
        index += 1;
    }
    assert_eq!(index, data.len());
}

#[test]
fn test_ancestors() {
    let mut tree = Tree::new();

    let root_id = tree.insert(Node::new(0), AsRoot).unwrap();
    let node_1 = tree.insert(Node::new(1), UnderNode(&root_id)).unwrap();
    let node_2 = tree.insert(Node::new(2), UnderNode(&node_1)).unwrap();
    let node_3 = tree.insert(Node::new(3), UnderNode(&node_1)).unwrap();

    let mut ancestors = tree.ancestors(&root_id).unwrap();
    let mut count = 0;
    while let Some(_) = ancestors.next() {
        count += 1;
    }
    assert_eq!(count, 0);

    let data = [0];
    let mut index = 0;
    let mut ancestors = tree.ancestors(&node_1).unwrap();
    while let Some(id) = ancestors.next() {
        assert_eq!(tree.get(&id).unwrap().data(), &data[index]);
        index += 1;
    }
    assert_eq!(index, data.len());

    let data = [1, 0];
    let mut index = 0;
    let mut ancestors = tree.ancestors(&node_2).unwrap();
    while let Some(id) = ancestors.next() {
        assert_eq!(tree.get(&id).unwrap().data(), &data[index]);
        index += 1;
    }
    assert_eq!(index, data.len());

    let data = [1, 0];
    let mut index = 0;
    let mut ancestors = tree.ancestors(&node_3).unwrap();
    while let Some(id) = ancestors.next() {
        assert_eq!(tree.get(&id).unwrap().data(), &data[index]);
        index += 1;
    }
    assert_eq!(index, data.len());
}

#[test]
fn test_ancestor_ids() {
    let mut tree = Tree::new();

    let root_id = tree.insert(Node::new(0), AsRoot).unwrap();
    let node_1 = tree.insert(Node::new(1), UnderNode(&root_id)).unwrap();
    let node_2 = tree.insert(Node::new(2), UnderNode(&node_1)).unwrap();
    let node_3 = tree.insert(Node::new(3), UnderNode(&node_1)).unwrap();

    let mut ancestor_ids = tree.ancestor_ids(&root_id).unwrap();
    let mut count = 0;
    while let Some(_) = ancestor_ids.next() {
        count += 1;
    }
    assert_eq!(count, 0);

    let data = [0];
    let mut index = 0;
    let mut ancestor_ids = tree.ancestor_ids(&node_1).unwrap();
    while let Some(node_id) = ancestor_ids.next() {
        assert_eq!(tree.get(&node_id).unwrap().data(), &data[index]);
        index += 1;
    }
    assert_eq!(index, data.len());

    let data = [1, 0];
    let mut index = 0;
    let mut ancestor_ids = tree.ancestor_ids(&node_2).unwrap();
    while let Some(node_id) = ancestor_ids.next() {
        assert_eq!(tree.get(&node_id).unwrap().data(), &data[index]);
        index += 1;
    }
    assert_eq!(index, data.len());

    let data = [1, 0];
    let mut index = 0;
    let mut ancestor_ids = tree.ancestor_ids(&node_3).unwrap();
    while let Some(node_id) = ancestor_ids.next() {
        assert_eq!(tree.get(&node_id).unwrap().data(), &data[index]);
        index += 1;
    }
    assert_eq!(index, data.len());
}

#[test]
fn iterators_test_children() {
    let mut tree = Tree::new();

    let root_id = tree.insert(Node::new(0), AsRoot).unwrap();
    let node_1 = tree.insert(Node::new(1), UnderNode(&root_id)).unwrap();
    let node_2 = tree.insert(Node::new(2), UnderNode(&node_1)).unwrap();
    let node_3 = tree.insert(Node::new(3), UnderNode(&node_1)).unwrap();

    let data = [1];
    let mut index = 0;
    let mut children = tree.children(&root_id).unwrap();
    while let Some(id) = children.next() {
        assert_eq!(tree.get(&id).unwrap().data(), &data[index]);
        index += 1;
    }
    assert_eq!(index, data.len());

    let data = [2, 3];
    let mut index = 0;
    let mut children = tree.children(&node_1).unwrap();
    while let Some(id) = children.next() {
        assert_eq!(tree.get(&id).unwrap().data(), &data[index]);
        index += 1;
    }
    assert_eq!(index, data.len());

    let mut children = tree.children(&node_2).unwrap();
    let mut count = 0;
    while let Some(_) = children.next() {
        count += 1;
    }
    assert_eq!(count, 0);

    let mut children = tree.children(&node_3).unwrap();
    let mut count = 0;
    while let Some(_) = children.next() {
        count += 1;
    }
    assert_eq!(count, 0);
}

#[test]
fn test_children_ids() {
    let mut tree = Tree::new();

    let root_id = tree.insert(Node::new(0), AsRoot).unwrap();
    let node_1 = tree.insert(Node::new(1), UnderNode(&root_id)).unwrap();
    let node_2 = tree.insert(Node::new(2), UnderNode(&node_1)).unwrap();
    let node_3 = tree.insert(Node::new(3), UnderNode(&node_1)).unwrap();

    let data = [1];
    let mut index = 0;
    let mut children_ids = tree.children_ids(&root_id).unwrap();
    while let Some(node_id) = children_ids.next() {
        assert_eq!(tree.get(&node_id).unwrap().data(), &data[index]);
        index += 1;
    }
    assert_eq!(index, data.len());

    let data = [2, 3];
    let mut index = 0;
    let mut children_ids = tree.children_ids(&node_1).unwrap();
    while let Some(node_id) = children_ids.next() {
        assert_eq!(tree.get(&node_id).unwrap().data(), &data[index]);
        index += 1;
    }
    assert_eq!(index, data.len());

    let mut children_ids = tree.children_ids(&node_2).unwrap();
    let mut count = 0;
    while let Some(_) = children_ids.next() {
        count += 1;
    }
    assert_eq!(count, 0);

    let mut children_ids = tree.children_ids(&node_3).unwrap();
    let mut count = 0;
    while let Some(_) = children_ids.next() {
        count += 1;
    }
    assert_eq!(count, 0);
}

#[test]
fn test_pre_order_traversal() {
    let mut tree = Tree::new();

    //      0
    //     / \
    //    1   2
    //   /
    //  3
    let root_id = tree.insert(Node::new(0), AsRoot).unwrap();
    let node_1 = tree.insert(Node::new(1), UnderNode(&root_id)).unwrap();
    let node_2 = tree.insert(Node::new(2), UnderNode(&root_id)).unwrap();
    let node_3 = tree.insert(Node::new(3), UnderNode(&node_1)).unwrap();

    let data = [0, 1, 3, 2];
    let mut index = 0;
    let mut nodes = tree.traverse_pre_order(&root_id).unwrap();
    while let Some(id) = nodes.next() {
        assert_eq!(tree.get(&id).unwrap().data(), &data[index]);
        index += 1;
    }
    assert_eq!(index, data.len());

    let data = [1, 3];
    let mut index = 0;
    let mut nodes = tree.traverse_pre_order(&node_1).unwrap();
    while let Some(id) = nodes.next() {
        assert_eq!(tree.get(&id).unwrap().data(), &data[index]);
        index += 1;
    }
    assert_eq!(index, data.len());

    let data = [2];
    let mut index = 0;
    let mut nodes = tree.traverse_pre_order(&node_2).unwrap();
    while let Some(id) = nodes.next() {
        assert_eq!(tree.get(&id).unwrap().data(), &data[index]);
        index += 1;
    }
    assert_eq!(index, data.len());

    let data = [3];
    let mut index = 0;
    let mut nodes = tree.traverse_pre_order(&node_3).unwrap();
    while let Some(id) = nodes.next() {
        assert_eq!(tree.get(&id).unwrap().data(), &data[index]);
        index += 1;
    }
    assert_eq!(index, data.len());
}

#[test]
fn test_post_order_traversal() {
    let mut tree = Tree::new();

    //      0
    //     / \
    //    1   2
    //   /
    //  3
    let root_id = tree.insert(Node::new(0), AsRoot).unwrap();
    let node_1 = tree.insert(Node::new(1), UnderNode(&root_id)).unwrap();
    let node_2 = tree.insert(Node::new(2), UnderNode(&root_id)).unwrap();
    let node_3 = tree.insert(Node::new(3), UnderNode(&node_1)).unwrap();

    let data = [3, 1, 2, 0];
    let mut index = 0;
    let mut nodes = tree.traverse_post_order(&root_id).unwrap();
    while let Some(id) = nodes.next() {
        assert_eq!(tree.get(&id).unwrap().data(), &data[index]);
        index += 1;
    }
    assert_eq!(index, data.len());

    let data = [3, 1];
    let mut index = 0;
    let mut nodes = tree.traverse_post_order(&node_1).unwrap();
    while let Some(id) = nodes.next() {
        assert_eq!(tree.get(&id).unwrap().data(), &data[index]);
        index += 1;
    }
    assert_eq!(index, data.len());

    let data = [2];
    let mut index = 0;
    let mut nodes = tree.traverse_post_order(&node_2).unwrap();
    while let Some(id) = nodes.next() {
        assert_eq!(tree.get(&id).unwrap().data(), &data[index]);
        index += 1;
    }
    assert_eq!(index, data.len());

    let data = [3];
    let mut index = 0;
    let mut nodes = tree.traverse_post_order(&node_3).unwrap();
    while let Some(id) = nodes.next() {
        assert_eq!(tree.get(&id).unwrap().data(), &data[index]);
        index += 1;
    }
    assert_eq!(index, data.len());
}

#[test]
fn test_level_order_traversal() {
    let mut tree = Tree::new();

    //      0
    //     / \
    //    1   2
    //   /
    //  3
    let root_id = tree.insert(Node::new(0), AsRoot).unwrap();
    let node_1 = tree.insert(Node::new(1), UnderNode(&root_id)).unwrap();
    let node_2 = tree.insert(Node::new(2), UnderNode(&root_id)).unwrap();
    let node_3 = tree.insert(Node::new(3), UnderNode(&node_1)).unwrap();

    let data = [0, 1, 2, 3];
    let mut index = 0;
    let mut nodes = tree.traverse_level_order(&root_id).unwrap();
    while let Some(id) = nodes.next() {
        assert_eq!(tree.get(&id).unwrap().data(), &data[index]);
        index += 1;
    }
    assert_eq!(index, data.len());

    let data = [1, 3];
    let mut index = 0;
    let mut nodes = tree.traverse_level_order(&node_1).unwrap();
    while let Some(id) = nodes.next() {
        assert_eq!(tree.get(&id).unwrap().data(), &data[index]);
        index += 1;
    }
    assert_eq!(index, data.len());

    let data = [2];
    let mut index = 0;
    let mut nodes = tree.traverse_level_order(&node_2).unwrap();
    while let Some(id) = nodes.next() {
        assert_eq!(tree.get(&id).unwrap().data(), &data[index]);
        index += 1;
    }
    assert_eq!(index, data.len());

    let data = [3];
    let mut index = 0;
    let mut nodes = tree.traverse_level_order(&node_3).unwrap();
    while let Some(id) = nodes.next() {
        assert_eq!(tree.get(&id).unwrap().data(), &data[index]);
        index += 1;
    }
    assert_eq!(index, data.len());
}
