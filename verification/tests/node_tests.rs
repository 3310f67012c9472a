use id_tree::Node;
use id_tree::NodeId;
use id_tree::OptNode;
use id_tree::VecNode;
use id_tree::VecNodeBuilder;
use snowflake::ProcessUniqueId;

#[test]
fn node_test_new() {
    let node = Node::new(5);
    assert_eq!(node.children().capacity(), 0);
}

#[test]
fn test_new_with_capacity() {
    let node = Node::new_with_child_capacity(5, 10);
    assert_eq!(node.children().capacity(), 10);
}

#[test]
fn node_test_data() {
    let five = 5;
    let node = Node::new(five);
    assert_eq!(node.data(), &five);
}

#[test]
fn node_test_data_mut() {
    let mut five = 5;
    let mut node = Node::new(five);
    assert_eq!(node.data_mut(), &mut five);
}

#[test]
fn node_test_parent() {
    let mut node = Node::new(5);
    assert!(node.parent().is_none());

    let parent_id: NodeId = NodeId { tree_id: ProcessUniqueId::new(), index: 0 };

    node.set_parent(Some(parent_id));
    assert_eq!(node.parent(), Some(parent_id));
}

#[test]
fn node_test_children() {
    let mut node = Node::new(5);
    assert_eq!(node.children().len(), 0);

    let child_id: NodeId = NodeId { tree_id: ProcessUniqueId::new(), index: 0 };
    node.add_child(child_id);

    assert_eq!(node.children().len(), 1);
    assert_eq!(node.children().get(0).unwrap(), &child_id);

    let mut node = Node::new(5);
    assert_eq!(node.children().len(), 0);

    let child_id: NodeId = NodeId { tree_id: ProcessUniqueId::new(), index: 0 };
    node.children_mut().push(child_id);

    assert_eq!(node.children().len(), 1);
    assert_eq!(node.children().get(0).unwrap(), &child_id);
}

#[test]
fn vec_node_builder_test_new() {
    let five = 5;
    let node = VecNodeBuilder::new(5).build();
    assert_eq!(node.data(), &five);
    assert_eq!(node.children().capacity(), 0);
}

#[test]
fn test_with_child_capacity() {
    let five = 5;
    let node = VecNodeBuilder::new(5).with_child_capacity(10).build();
    assert_eq!(node.data(), &five);
    assert_eq!(node.children().capacity(), 10);
}

#[test]
fn vec_node_test_new() {
    let node = VecNode::new(5);
    assert_eq!(node.children().capacity(), 0);
}

#[test]
fn vec_node_test_data() {
    let five = 5;
    let node = VecNode::new(five);
    assert_eq!(node.data(), &five);
}

#[test]
fn vec_node_test_data_mut() {
    let mut five = 5;
    let mut node = VecNode::new(five);
    assert_eq!(node.data_mut(), &mut five);
}

#[test]
fn vec_node_test_parent() {
    let mut node = VecNode::new(5);
    assert!(node.parent().is_none());

    let parent_id: NodeId = NodeId { tree_id: ProcessUniqueId::new(), index: 0 };

    node.set_parent(Some(parent_id));
    assert!(node.parent().is_some());

    assert_eq!(node.parent().unwrap(), parent_id);
}

#[test]
fn vec_node_test_children() {
    let mut node = VecNode::new(5);
    assert_eq!(node.children().len(), 0);

    let child_id: NodeId = NodeId { tree_id: ProcessUniqueId::new(), index: 0 };
    node.add_child(child_id);

    assert_eq!(node.children().len(), 1);
    assert_eq!(node.children().get(0).unwrap(), &child_id);

    let mut node = VecNode::new(5);
    assert_eq!(node.children().len(), 0);

    let child_id: NodeId = NodeId { tree_id: ProcessUniqueId::new(), index: 0 };
    node.children_mut().push(child_id);

    assert_eq!(node.children().len(), 1);
    assert_eq!(node.children().get(0).unwrap(), &child_id);
}

#[test]
fn data() {
    let five = 5;
    let node = OptNode::new(five);
    assert_eq!(node.data(), &five);
}

#[test]
fn data_mut() {
    let mut five = 5;
    let mut node = OptNode::new(five);
    assert_eq!(node.data_mut(), &mut five);
}

#[test]
fn parent() {
    let mut node = OptNode::new(5);
    assert!(node.parent().is_none());

    let parent_id: NodeId = NodeId { tree_id: ProcessUniqueId::new(), index: 0 };

    node.set_parent(Some(parent_id));
    assert!(node.parent().is_some());

    assert_eq!(node.parent().unwrap(), parent_id);
}

#[test]
fn prev_sibling() {
    let mut node = OptNode::new(5);
    assert!(node.prev_sibling().is_none());

    let prev_sibling_id: NodeId = NodeId { tree_id: ProcessUniqueId::new(), index: 0 };

    node.set_prev_sibling(Some(prev_sibling_id));
    assert!(node.prev_sibling().is_some());

    assert_eq!(node.prev_sibling().unwrap(), prev_sibling_id);
}

#[test]
fn next_sibling() {
    let mut node = OptNode::new(5);
    assert!(node.next_sibling().is_none());

    let next_sibling_id: NodeId = NodeId { tree_id: ProcessUniqueId::new(), index: 0 };

    node.set_next_sibling(Some(next_sibling_id));
    assert!(node.next_sibling().is_some());

    assert_eq!(node.next_sibling().unwrap(), next_sibling_id);
}

#[test]
fn first_child() {
    let mut node = OptNode::new(5);
    assert!(node.first_child().is_none());

    let first_child_id: NodeId = NodeId { tree_id: ProcessUniqueId::new(), index: 0 };

    node.set_first_child(Some(first_child_id));
    assert!(node.first_child().is_some());

    assert_eq!(node.first_child().unwrap(), first_child_id);
}

#[test]
fn last_child() {
    let mut node = OptNode::new(5);
    assert!(node.last_child().is_none());

    let last_child_id: NodeId = NodeId { tree_id: ProcessUniqueId::new(), index: 0 };

    node.set_last_child(Some(last_child_id));
    assert!(node.last_child().is_some());

    assert_eq!(node.last_child().unwrap(), last_child_id);
}
