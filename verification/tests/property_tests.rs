use id_tree::InsertBehavior::AsRoot;
use id_tree::InsertBehavior::UnderNode;
use id_tree::MoveBehavior::ToParent;
use id_tree::MoveBehavior::ToRoot;
use id_tree::Node;
use id_tree::RemoveBehavior::DropChildren;
use id_tree::RemoveBehavior::LiftChildren;
use id_tree::RemoveBehavior::OrphanChildren;
use id_tree::Tree;
use id_tree::NodeIdError;
use id_tree::TreeBuilder;

// every handle handed out by an insertion resolves to the payload that went
// in, until the node is removed
#[test]
fn inserted_payloads_resolve() {
    let mut tree: Tree<i32> = Tree::new();
    let root_id = tree.insert(Node::new(10), AsRoot).unwrap();
    let a = tree.insert(Node::new(20), UnderNode(&root_id)).unwrap();
    let b = tree.insert(Node::new(30), UnderNode(&a)).unwrap();
    let c = tree.insert(Node::new(40), UnderNode(&root_id)).unwrap();

    assert_eq!(*tree.get(&root_id).unwrap().data(), 10);
    assert_eq!(*tree.get(&a).unwrap().data(), 20);
    assert_eq!(*tree.get(&b).unwrap().data(), 30);
    assert_eq!(*tree.get(&c).unwrap().data(), 40);

    tree.remove_node(b, DropChildren).unwrap();
    assert!(tree.get(&b).is_err());
    assert_eq!(*tree.get(&a).unwrap().data(), 20);
    assert_eq!(*tree.get(&c).unwrap().data(), 40);
}

// a removed handle fails with the slot-no-longer-occupied error under every
// policy
#[test]
fn removed_handle_fails_get() {
    for policy in [DropChildren, LiftChildren, OrphanChildren] {
        let mut tree: Tree<i32> = Tree::new();
        let root_id = tree.insert(Node::new(0), AsRoot).unwrap();
        let child = tree.insert(Node::new(1), UnderNode(&root_id)).unwrap();
        tree.remove_node(child, policy).unwrap();
        let r = tree.get(&child);
        assert_eq!(r.err().unwrap(), NodeIdError::NodeIdNoLongerValid);
    }
}

// dropping a subtree invalidates every handle that pointed into it
#[test]
fn drop_children_invalidates_descendants() {
    let mut tree: Tree<i32> = Tree::new();
    let root_id = tree.insert(Node::new(0), AsRoot).unwrap();
    let child_id = tree.insert(Node::new(1), UnderNode(&root_id)).unwrap();
    let grandchild_id = tree.insert(Node::new(2), UnderNode(&child_id)).unwrap();
    let great_id = tree.insert(Node::new(3), UnderNode(&grandchild_id)).unwrap();
    let sibling_id = tree.insert(Node::new(4), UnderNode(&root_id)).unwrap();

    tree.remove_node(child_id, DropChildren).unwrap();

    assert!(tree.get(&child_id).is_err());
    assert!(tree.get(&grandchild_id).is_err());
    assert!(tree.get(&great_id).is_err());
    assert!(tree.get(&root_id).is_ok());
    assert!(tree.get(&sibling_id).is_ok());
    assert_eq!(tree.get(&root_id).unwrap().children(), &vec![sibling_id]);
}

// moving a node away and back leaves it below its old parent with the same
// sibling set
#[test]
fn move_round_trip_restores_membership() {
    let mut tree: Tree<i32> = Tree::new();
    let root_id = tree.insert(Node::new(0), AsRoot).unwrap();
    let x = tree.insert(Node::new(1), UnderNode(&root_id)).unwrap();
    let s1 = tree.insert(Node::new(2), UnderNode(&root_id)).unwrap();
    let s2 = tree.insert(Node::new(3), UnderNode(&root_id)).unwrap();
    let y = tree.insert(Node::new(4), UnderNode(&s1)).unwrap();
    let xc = tree.insert(Node::new(5), UnderNode(&x)).unwrap();

    tree.move_node(&x, ToParent(&y)).unwrap();
    tree.move_node(&x, ToParent(&root_id)).unwrap();

    let root_children = tree.get(&root_id).unwrap().children().clone();
    assert!(root_children.contains(&x));
    assert!(root_children.contains(&s1));
    assert!(root_children.contains(&s2));
    assert_eq!(root_children.len(), 3);
    assert_eq!(tree.get(&x).unwrap().parent(), Some(root_id));
    assert_eq!(tree.get(&x).unwrap().children(), &vec![xc]);
}

// moving a node below its own descendant keeps the structure a tree: every
// node still reaches the root along parent links
#[test]
fn move_into_own_subtree_stays_acyclic() {
    let mut tree: Tree<i32> = Tree::new();
    let root_id = tree.insert(Node::new(0), AsRoot).unwrap();
    let a = tree.insert(Node::new(1), UnderNode(&root_id)).unwrap();
    let b = tree.insert(Node::new(2), UnderNode(&a)).unwrap();
    let c = tree.insert(Node::new(3), UnderNode(&b)).unwrap();

    tree.move_node(&a, ToParent(&c)).unwrap();

    for id in [root_id, a, b, c] {
        let mut steps = 0;
        let mut current = id;
        while let Some(parent) = tree.get(&current).unwrap().parent() {
            current = parent;
            steps += 1;
            assert!(steps <= 4);
        }
        assert_eq!(Some(&current), tree.root_node_id());
    }
}

// sorting children arranges them by payload, and leaves the parent alone
#[test]
fn sort_children_by_data_orders_payloads() {
    let mut tree: Tree<i32> = Tree::new();
    let root_id = tree.insert(Node::new(100), AsRoot).unwrap();
    tree.insert(Node::new(100), UnderNode(&root_id)).unwrap();
    tree.insert(Node::new(1), UnderNode(&root_id)).unwrap();
    tree.insert(Node::new(2), UnderNode(&root_id)).unwrap();
    tree.insert(Node::new(0), UnderNode(&root_id)).unwrap();

    tree.sort_children_by_data(&root_id).unwrap();

    let children = tree.get(&root_id).unwrap().children().clone();
    let payloads: Vec<i32> = children.iter().map(|id| *tree.get(id).unwrap().data()).collect();
    assert_eq!(payloads, vec![0, 1, 2, 100]);
    assert_eq!(*tree.get(&root_id).unwrap().data(), 100);
}

#[test]
fn sort_children_by_comparator_orders_payloads() {
    let mut tree: Tree<i32> = Tree::new();
    let root_id = tree.insert(Node::new(100), AsRoot).unwrap();
    tree.insert(Node::new(1), UnderNode(&root_id)).unwrap();
    tree.insert(Node::new(2), UnderNode(&root_id)).unwrap();
    tree.insert(Node::new(0), UnderNode(&root_id)).unwrap();

    tree.sort_children_by(&root_id, |a, b| a.data().cmp(b.data())).unwrap();

    let children = tree.get(&root_id).unwrap().children().clone();
    for (i, id) in children.iter().enumerate() {
        assert_eq!(*tree.get(id).unwrap().data(), i as i32);
    }
}

#[test]
fn sort_children_by_key_orders_payloads() {
    let mut tree: Tree<i32> = Tree::new();
    let root_id = tree.insert(Node::new(100), AsRoot).unwrap();
    tree.insert(Node::new(1), UnderNode(&root_id)).unwrap();
    tree.insert(Node::new(2), UnderNode(&root_id)).unwrap();
    tree.insert(Node::new(0), UnderNode(&root_id)).unwrap();

    tree.sort_children_by_key(&root_id, |x| *x.data()).unwrap();

    let children = tree.get(&root_id).unwrap().children().clone();
    for (i, id) in children.iter().enumerate() {
        assert_eq!(*tree.get(id).unwrap().data(), i as i32);
    }
}

// lifting: the removed node's children move below its parent
#[test]
fn lift_children_reattaches_to_parent() {
    let mut tree: Tree<i32> = Tree::new();
    let root_id = tree.insert(Node::new(0), AsRoot).unwrap();
    let h = tree.insert(Node::new(1), UnderNode(&root_id)).unwrap();
    let c1 = tree.insert(Node::new(2), UnderNode(&h)).unwrap();
    let c2 = tree.insert(Node::new(3), UnderNode(&h)).unwrap();

    tree.remove_node(h, LiftChildren).unwrap();

    let root_children = tree.get(&root_id).unwrap().children().clone();
    assert!(root_children.contains(&c1));
    assert!(root_children.contains(&c2));
    assert!(!root_children.contains(&h));
    assert_eq!(tree.get(&c1).unwrap().parent(), Some(root_id));
    assert_eq!(tree.get(&c2).unwrap().parent(), Some(root_id));
}

// orphaning: the children stay alive with their parent links cleared
#[test]
fn orphan_children_clears_parents() {
    let mut tree: Tree<i32> = Tree::new();
    let root_id = tree.insert(Node::new(0), AsRoot).unwrap();
    let h = tree.insert(Node::new(1), UnderNode(&root_id)).unwrap();
    let c1 = tree.insert(Node::new(2), UnderNode(&h)).unwrap();
    let c2 = tree.insert(Node::new(3), UnderNode(&h)).unwrap();

    tree.remove_node(h, OrphanChildren).unwrap();

    assert!(tree.get(&c1).is_ok());
    assert!(tree.get(&c2).is_ok());
    assert_eq!(tree.get(&c1).unwrap().parent(), None);
    assert_eq!(tree.get(&c2).unwrap().parent(), None);
}

// inserting under a handle of another tree instance changes neither tree
#[test]
fn cross_tree_insert_mutates_nothing() {
    let mut tree_a: Tree<i32> = Tree::new();
    let mut tree_b: Tree<i32> = Tree::new();
    let root_a = tree_a.insert(Node::new(1), AsRoot).unwrap();
    let root_b = tree_b.insert(Node::new(2), AsRoot).unwrap();

    let r = tree_b.insert(Node::new(3), UnderNode(&root_a));
    assert_eq!(r.err().unwrap(), NodeIdError::InvalidNodeIdForTree);

    assert_eq!(tree_a.get(&root_a).unwrap().children().len(), 0);
    assert_eq!(tree_b.get(&root_b).unwrap().children().len(), 0);
    assert_eq!(tree_a.core_tree.nodes.len(), 1);
    assert_eq!(tree_b.core_tree.nodes.len(), 1);
}

// swapping two unrelated nodes exchanges their positions and keeps their
// subtrees
#[test]
fn swap_keeps_subtrees() {
    let mut tree: Tree<i32> = Tree::new();
    let root_id = tree.insert(Node::new(0), AsRoot).unwrap();
    let a = tree.insert(Node::new(1), UnderNode(&root_id)).unwrap();
    let b = tree.insert(Node::new(2), UnderNode(&root_id)).unwrap();
    let a_child = tree.insert(Node::new(3), UnderNode(&a)).unwrap();
    let b_child = tree.insert(Node::new(4), UnderNode(&b)).unwrap();
    let under_a = tree.insert(Node::new(5), UnderNode(&a_child)).unwrap();

    tree.swap_sub_tree(&a_child, &b_child).unwrap();

    assert_eq!(tree.get(&a).unwrap().children(), &vec![b_child]);
    assert_eq!(tree.get(&b).unwrap().children(), &vec![a_child]);
    assert_eq!(tree.get(&a_child).unwrap().parent(), Some(b));
    assert_eq!(tree.get(&b_child).unwrap().parent(), Some(a));
    assert_eq!(tree.get(&a_child).unwrap().children(), &vec![under_a]);
    assert_eq!(tree.get(&under_a).unwrap().parent(), Some(a_child));
}

// a vacated slot is re-used by the next insertion, but the old handle stays
// invalid for the old content
#[test]
fn slot_reuse_keeps_old_handle_invalid_until_reissued() {
    let mut tree: Tree<i32> = Tree::new();
    let root_id = tree.insert(Node::new(0), AsRoot).unwrap();
    let child = tree.insert(Node::new(1), UnderNode(&root_id)).unwrap();
    tree.remove_node(child, DropChildren).unwrap();
    assert!(tree.get(&child).is_err());

    let replacement = tree.insert(Node::new(7), UnderNode(&root_id)).unwrap();
    assert_eq!(replacement, child);
    assert_eq!(*tree.get(&replacement).unwrap().data(), 7);
    assert_eq!(tree.core_tree.nodes.len(), 2);
}

// moving to the root attaches the old root as the last child
#[test]
fn move_to_root_attaches_old_root() {
    let mut tree: Tree<i32> = Tree::new();
    let root_id = tree.insert(Node::new(1), AsRoot).unwrap();
    let child_id = tree.insert(Node::new(2), UnderNode(&root_id)).unwrap();
    let grandchild_id = tree.insert(Node::new(3), UnderNode(&child_id)).unwrap();

    tree.move_node(&grandchild_id, ToRoot).unwrap();

    assert_eq!(tree.root_node_id(), Some(&grandchild_id));
    assert!(tree.get(&grandchild_id).unwrap().children().contains(&root_id));
    assert!(!tree.get(&child_id).unwrap().children().contains(&grandchild_id));
}

// the documented tree of the traversal orders, stated once more against the
// builder-based construction
#[test]
fn traversal_orders_on_reference_shape() {
    let mut tree = TreeBuilder::new().with_root(Node::new(0)).build();
    let root_id = *tree.root_node_id().unwrap();
    let n1 = tree.insert_with_parent(Node::new(1), &root_id).unwrap();
    let n2 = tree.insert_with_parent(Node::new(2), &root_id).unwrap();
    let n3 = tree.insert_with_parent(Node::new(3), &n1).unwrap();
    let n4 = tree.insert_with_parent(Node::new(4), &n1).unwrap();
    let _ = (n2, n3, n4);

    let mut pre = Vec::new();
    let mut it = tree.traverse_pre_order(&root_id).unwrap();
    while let Some(id) = it.next() {
        pre.push(*tree.get(&id).unwrap().data());
    }
    assert_eq!(pre, vec![0, 1, 3, 4, 2]);

    let mut post = Vec::new();
    let mut it = tree.traverse_post_order(&root_id).unwrap();
    while let Some(id) = it.next() {
        post.push(*tree.get(&id).unwrap().data());
    }
    assert_eq!(post, vec![3, 4, 1, 2, 0]);

    let mut level = Vec::new();
    let mut it = tree.traverse_level_order(&root_id).unwrap();
    while let Some(id) = it.next() {
        level.push(*tree.get(&id).unwrap().data());
    }
    assert_eq!(level, vec![0, 1, 2, 3, 4]);
}

// a descending comparator is honoured, not just some fixed order
#[test]
fn sort_children_by_reverse_comparator_orders_descending() {
    let mut tree: Tree<i32> = Tree::new();
    let root_id = tree.insert(Node::new(100), AsRoot).unwrap();
    tree.insert(Node::new(1), UnderNode(&root_id)).unwrap();
    tree.insert(Node::new(2), UnderNode(&root_id)).unwrap();
    tree.insert(Node::new(0), UnderNode(&root_id)).unwrap();

    tree.sort_children_by(&root_id, |a, b| b.data().cmp(a.data())).unwrap();

    let children = tree.get(&root_id).unwrap().children().clone();
    let payloads: Vec<i32> = children.iter().map(|id| *tree.get(id).unwrap().data()).collect();
    assert_eq!(payloads, vec![2, 1, 0]);
}

// removing the root through the dispatcher clears the root under every policy
#[test]
fn remove_node_clears_root_for_every_policy() {
    for policy_ix in 0..3 {
        let policy = match policy_ix {
            0 => DropChildren,
            1 => LiftChildren,
            _ => OrphanChildren,
        };
        let mut tree: Tree<i32> = Tree::new();
        let root_id = tree.insert(Node::new(7), AsRoot).unwrap();
        let child_id = tree.insert(Node::new(8), UnderNode(&root_id)).unwrap();

        let removed = tree.remove_node(root_id, policy).unwrap();
        assert_eq!(*removed.data(), 7);
        assert!(removed.parent().is_none());
        assert!(removed.children().is_empty());
        assert!(tree.get(&root_id).is_err());
        assert_eq!(tree.root_node_id(), None);

        if policy_ix == 0 {
            assert!(tree.get(&child_id).is_err());
        } else {
            let child = tree.get(&child_id).unwrap();
            assert_eq!(*child.data(), 8);
            assert_eq!(child.parent(), None);
        }
    }
}

// the freshest vacated slot is reused first
#[test]
fn insert_reuses_last_freed_slot() {
    let mut tree: Tree<i32> = Tree::new();
    let root_id = tree.insert(Node::new(0), AsRoot).unwrap();
    let a = tree.insert(Node::new(1), UnderNode(&root_id)).unwrap();
    let b = tree.insert(Node::new(2), UnderNode(&root_id)).unwrap();

    tree.remove_node(a, OrphanChildren).unwrap();
    tree.remove_node(b, OrphanChildren).unwrap();

    // b was freed last, so its slot is handed out first, then a's
    let c = tree.insert(Node::new(3), UnderNode(&root_id)).unwrap();
    let d = tree.insert(Node::new(4), UnderNode(&root_id)).unwrap();
    assert_eq!(c.index, b.index);
    assert_eq!(d.index, a.index);
}
