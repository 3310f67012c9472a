use id_tree::CoreTree;
use id_tree::NodeIdError;
use id_tree::VecNode;

fn new_tree() -> CoreTree<VecNode<i32>> {
    let root = Some(VecNode::new(1));
    let node_capacity = 2usize;
    let swap_capacity = 3usize;
    CoreTree::new(root, node_capacity, swap_capacity)
}

#[test]
fn core_test_new() {
    let root = Some(VecNode::new(1));
    let node_capacity = 2usize;
    let swap_capacity = 3usize;

    let tree = CoreTree::new(root, node_capacity, swap_capacity);

    assert!(tree.root.is_some());

    let root_id = *tree.root.as_ref().unwrap();

    assert_eq!(tree.get(&root_id).unwrap().data(), &1);
    assert_eq!(tree.nodes.capacity(), node_capacity);
    assert_eq!(tree.free_ids.capacity(), swap_capacity);
}

#[test]
fn test_insert() {
    let mut tree = new_tree();
    let four = 4;
    let node_id = tree.insert(VecNode::new(four));

    assert!(tree.get(&node_id).is_ok());
    assert_eq!(tree.get(&node_id).unwrap().data(), &four);
}

#[test]
fn test_remove() {
    let mut tree = new_tree();
    let four = 4;
    let node_id = tree.insert(VecNode::new(four));

    assert!(tree.get(&node_id).is_ok());
    assert_eq!(tree.get(&node_id).unwrap().data(), &four);

    let node = tree.remove(node_id);
    assert_eq!(node.data(), &four);
}

#[test]
fn core_test_set_root() {
    let one = 1;
    let node_capacity = 2usize;
    let swap_capacity = 3usize;

    let mut tree = CoreTree::new(None, node_capacity, swap_capacity);

    assert!(tree.root.is_none());

    let root_id = tree.set_root(VecNode::new(one));

    assert!(tree.root.is_some());
    assert_eq!(tree.get(&root_id).unwrap().data(), &one);
}

#[test]
fn test_root() {
    let mut tree = new_tree();
    assert!(tree.root.is_some());

    {
        let root_id = tree.root();
        assert!(root_id.is_some());
        assert_eq!(root_id, tree.root.as_ref());
    }

    let new_root_id = tree.set_root(VecNode::new(10));
    assert_eq!(Some(new_root_id).as_ref(), tree.root());
}

#[test]
fn core_test_get() {
    let mut tree = new_tree();

    let four = 4;
    let node_id = tree.insert(VecNode::new(four));

    let node_result = tree.get(&node_id);
    assert!(node_result.is_ok());

    let node = node_result.unwrap();
    assert_eq!(node.data(), &four);
}

#[test]
fn core_test_get_mut() {
    let mut tree = new_tree();

    let four = 4;
    let node_id = tree.insert(VecNode::new(four));

    let node_result = tree.get_mut(&node_id);
    assert!(node_result.is_ok());

    let node = node_result.unwrap();
    assert_eq!(node.data(), &four);

    let five = 5;
    let four_again = node.replace_data(five);
    assert_eq!(four_again, four);
    assert_eq!(node.data(), &five);
}

#[test]
fn test_get_unsafe() {
    let mut tree = new_tree();

    let four = 4;
    let node_id = tree.insert(VecNode::new(four));

    let node = tree.get_unsafe(&node_id);
    assert_eq!(node.data(), &four);
}

#[test]
fn test_get_mut_unsafe() {
    let mut tree = new_tree();

    let four = 4;
    let node_id = tree.insert(VecNode::new(four));

    {
        let node = tree.get_mut_unsafe(&node_id);
        assert_eq!(node.data(), &four);

        let five = 5;
        let four_again = node.replace_data(five);
        assert_eq!(four_again, four);
    }
    assert_eq!(tree.get_unsafe(&node_id).data(), &5);
}

#[test]
fn test_new_node_id() {
    let tree = new_tree();

    // the index actually doesn't matter because we just care about the tree's id.
    let new_node_id = tree.new_node_id(0);

    assert_eq!(new_node_id.tree_id, tree.id);
}

#[test]
fn test_is_valid_node_id() {
    let mut tree = new_tree();
    let node_id = tree.insert(VecNode::new(2));

    let (is_valid, error) = tree.is_valid_node_id(&node_id);
    assert!(is_valid);
    assert!(error.is_none());
}

#[test]
fn test_is_valid_node_id_wrong_tree() {
    let tree_a = new_tree();
    let tree_b = new_tree();

    // the index actually doesn't matter because this is for the wrong tree.
    let node_id_a = tree_a.new_node_id(0);

    let (is_valid, error) = tree_b.is_valid_node_id(&node_id_a);
    assert!(!is_valid);
    assert!(error.is_some());
    assert_eq!(error.unwrap(), NodeIdError::InvalidNodeIdForTree);
}

#[test]
fn test_is_valid_node_id_old_id() {
    let mut tree = new_tree();
    let node_id = tree.insert(VecNode::new(2));

    let _ = tree.remove(node_id);

    let (is_valid, error) = tree.is_valid_node_id(&node_id);
    assert!(!is_valid);
    assert!(error.is_some());
    assert_eq!(error.unwrap(), NodeIdError::NodeIdNoLongerValid);
}

#[test]
fn test_validate_node_id() {
    let mut tree = new_tree();
    let node_id = tree.insert(VecNode::new(2));

    let result = tree.validate_node_id(&node_id);
    assert!(result.is_ok());
    assert_eq!(result.ok().unwrap(), ());
}

#[test]
fn test_validate_node_id_wrong_tree() {
    let tree_a = new_tree();
    let tree_b = new_tree();

    // the index actually doesn't matter because this is for the wrong tree.
    let node_id_a = tree_a.new_node_id(0);

    let result = tree_b.validate_node_id(&node_id_a);
    assert!(result.is_err());
    assert_eq!(result.err().unwrap(), NodeIdError::InvalidNodeIdForTree);
}

#[test]
fn test_validate_node_id_old_id() {
    let mut tree = new_tree();
    let node_id = tree.insert(VecNode::new(2));

    let _ = tree.remove(node_id);

    let result = tree.validate_node_id(&node_id);
    assert!(result.is_err());
    assert_eq!(result.err().unwrap(), NodeIdError::NodeIdNoLongerValid);
}
