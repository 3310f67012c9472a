use id_tree::Node;
use id_tree::VecTreeBuilder;

#[test]
fn builders_new() {
    let tb: VecTreeBuilder<i32> = VecTreeBuilder::new();
    assert!(tb.root.is_none());
    assert_eq!(tb.node_capacity, 0);
    assert_eq!(tb.swap_capacity, 0);
}

#[test]
fn with_root() {
    let tb: VecTreeBuilder<i32> = VecTreeBuilder::new().with_root(Node::new(5));

    assert_eq!(tb.root.unwrap().data(), &5);
    assert_eq!(tb.node_capacity, 0);
    assert_eq!(tb.swap_capacity, 0);
}

#[test]
fn with_node_capacity() {
    let tb: VecTreeBuilder<i32> = VecTreeBuilder::new().with_node_capacity(10);

    assert!(tb.root.is_none());
    assert_eq!(tb.node_capacity, 10);
    assert_eq!(tb.swap_capacity, 0);
}

#[test]
fn with_swap_capacity() {
    let tb: VecTreeBuilder<i32> = VecTreeBuilder::new().with_swap_capacity(10);

    assert!(tb.root.is_none());
    assert_eq!(tb.node_capacity, 0);
    assert_eq!(tb.swap_capacity, 10);
}

#[test]
fn with_all_settings() {
    let tb: VecTreeBuilder<i32> = VecTreeBuilder::new()
        .with_root(Node::new(5))
        .with_node_capacity(10)
        .with_swap_capacity(3);

    assert_eq!(tb.root.unwrap().data(), &5);
    assert_eq!(tb.node_capacity, 10);
    assert_eq!(tb.swap_capacity, 3);
}

#[test]
fn build() {
    let tree = VecTreeBuilder::new()
        .with_root(Node::new(5))
        .with_node_capacity(10)
        .with_swap_capacity(3)
        .build();

    let root = tree.get(tree.root_node_id().unwrap()).unwrap();

    assert_eq!(root.data(), &5);
    assert_eq!(tree.core_tree.nodes.capacity(), 10);
    assert_eq!(tree.core_tree.free_ids.capacity(), 3);
}
