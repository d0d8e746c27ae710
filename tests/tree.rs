use hql::tree::{ChildrenTraverse, NodeID, PreOrderTraverse, Tree};

fn preorder_data(tree: &Tree<i32>, root: NodeID) -> Vec<i32> {
    let mut it = PreOrderTraverse::new(tree, tree.node_ref(root).unwrap());
    let mut out = Vec::new();
    while let Some((n, _)) = it.next() {
        out.push(n.data);
    }
    out
}

fn children_ids(tree: &Tree<i32>, parent: NodeID, reversed: bool) -> Vec<usize> {
    let mut it = ChildrenTraverse::new(tree, tree.node_ref(parent).unwrap(), reversed);
    let mut out = Vec::new();
    while let Some((n, _)) = it.next() {
        out.push(n.id.0);
    }
    out
}

#[test]
fn test_tree_preorder_traverse() {
    let mut tree = Tree::new(0);
    let root = tree.root_ref().unwrap().id;

    let node1 = tree.append_child(root, 1).unwrap().id;
    tree.append_child(root, 2).unwrap();
    let node3 = tree.append_child(root, 3).unwrap().id;

    let node4 = tree.append_child(node1, 4).unwrap().id;
    let node5 = tree.append_child(node4, 5).unwrap().id;
    tree.append_child(node5, 6).unwrap();

    let node7 = tree.append_child(node3, 7).unwrap().id;
    tree.append_child(node7, 8).unwrap();
    tree.append_child(node7, 9).unwrap();

    let mut it = PreOrderTraverse::new(&tree, tree.root_ref().unwrap());
    let mut node_values = Vec::new();
    while let Some((n, _)) = it.next() {
        node_values.push(n.data);
    }
    let preorder_values = vec![0, 1, 4, 5, 6, 2, 3, 7, 8, 9];
    assert_eq!(
        node_values, preorder_values,
        "want: {:?}, get: {:?}",
        preorder_values, node_values,
    )
}

#[test]
fn test_tree_children_traverse() {
    let mut tree = Tree::new(0);
    let root = tree.root_ref().unwrap().id;
    let node1 = tree.append_child(root, 1).unwrap().id;
    let node2 = tree.append_child(root, 2).unwrap().id;

    tree.append_child(node1, 3);
    tree.append_child(node2, 4);

    let mut it = ChildrenTraverse::new(&tree, tree.root_ref().unwrap(), false);
    let mut node_ids = Vec::new();
    while let Some((n, _)) = it.next() {
        node_ids.push(n.id.0);
    }
    let preorder_ids = vec![1, 2];
    assert_eq!(
        node_ids, preorder_ids,
        "want: {:?}, get: {:?}",
        preorder_ids, node_ids,
    )
}

#[test]
fn children_reversed_is_forward_reversed() {
    let mut tree = Tree::new(0);
    let root = NodeID(0);
    for v in 1..=4 {
        tree.append_child(root, v).unwrap();
    }
    let mut forward = children_ids(&tree, root, false);
    let backward = children_ids(&tree, root, true);
    assert_eq!(forward, vec![1, 2, 3, 4]);
    forward.reverse();
    assert_eq!(forward, backward);
    assert!(children_ids(&tree, NodeID(1), true).is_empty());
}

#[test]
fn append_to_missing_node_fails() {
    let mut tree = Tree::new(0);
    assert!(tree.append_child(NodeID(5), 1).is_none());
    assert_eq!(tree.nodes().len(), 1);
    assert!(tree.append_child_id(NodeID(0), NodeID(7)).is_none());
}

#[test]
fn append_refuses_cycles() {
    let mut tree = Tree::new(0);
    let a = tree.append_child(NodeID(0), 1).unwrap().id;
    let b = tree.append_child(a, 2).unwrap().id;
    assert!(tree.append_child_id(b, a).is_none());
    assert!(tree.append_child_id(a, a).is_none());
    assert_eq!(preorder_data(&tree, NodeID(0)), vec![0, 1, 2]);
}

#[test]
fn detach_and_reattach_moves_node_last() {
    let mut tree = Tree::new(0);
    let a = tree.append_child(NodeID(0), 1).unwrap().id;
    let b = tree.append_child(NodeID(0), 2).unwrap().id;
    let c = tree.append_child(NodeID(0), 3).unwrap().id;
    let detached = tree.detach(a).unwrap();
    assert!(detached.parent.is_none());
    assert!(detached.previous_sibling.is_none() && detached.next_sibling.is_none());
    assert_eq!(children_ids(&tree, NodeID(0), false), vec![b.0, c.0]);
    assert_eq!(tree.children_range(NodeID(0)), Some((b, c)));
    tree.append_child_id(NodeID(0), a).unwrap();
    assert_eq!(children_ids(&tree, NodeID(0), false), vec![b.0, c.0, a.0]);
    assert_eq!(tree.children_range(NodeID(0)), Some((b, a)));
    // detaching twice is harmless
    tree.detach(b).unwrap();
    tree.detach(b).unwrap();
    assert_eq!(children_ids(&tree, NodeID(0), false), vec![c.0, a.0]);
    assert!(tree.detach(NodeID(40)).is_none());
}

#[test]
fn detach_middle_and_only_child() {
    let mut tree = Tree::new(0);
    let a = tree.append_child(NodeID(0), 1).unwrap().id;
    let b = tree.append_child(NodeID(0), 2).unwrap().id;
    let c = tree.append_child(NodeID(0), 3).unwrap().id;
    let d = tree.append_child(a, 4).unwrap().id;
    tree.detach(b).unwrap();
    assert_eq!(children_ids(&tree, NodeID(0), false), vec![a.0, c.0]);
    assert_eq!(children_ids(&tree, NodeID(0), true), vec![c.0, a.0]);
    tree.detach(d).unwrap();
    assert_eq!(tree.children_range(a), None);
}

#[test]
fn insert_before_first_and_middle() {
    let mut tree = Tree::new(0);
    let a = tree.append_child(NodeID(0), 1).unwrap().id;
    let c = tree.append_child(NodeID(0), 3).unwrap().id;
    let b = tree.insert_before(c, 2).unwrap().id;
    let z = tree.insert_before(a, 9).unwrap().id;
    assert_eq!(children_ids(&tree, NodeID(0), false), vec![z.0, a.0, b.0, c.0]);
    assert_eq!(tree.children_range(NodeID(0)), Some((z, c)));
    assert_eq!(tree.previous_sibling_ref(b).unwrap().id, a);
    assert_eq!(tree.parent_ref(b).unwrap().id, NodeID(0));
    // the root has no parent, so nothing goes before it
    assert!(tree.insert_before(NodeID(0), 5).is_none());
    // moving an existing node in front of another
    tree.insert_id_before(a, c).unwrap();
    assert_eq!(children_ids(&tree, NodeID(0), false), vec![z.0, c.0, a.0, b.0]);
    assert!(tree.insert_id_before(a, a).is_none());
}

#[test]
fn reparent_moves_all_children_in_order() {
    let mut tree = Tree::new(0);
    let a = tree.append_child(NodeID(0), 1).unwrap().id;
    let b = tree.append_child(NodeID(0), 2).unwrap().id;
    let x = tree.append_child(a, 10).unwrap().id;
    let y = tree.append_child(a, 11).unwrap().id;
    let w = tree.append_child(b, 20).unwrap().id;
    tree.reparent_from_id_append(a, b).unwrap();
    assert_eq!(children_ids(&tree, b, false), vec![w.0, x.0, y.0]);
    assert_eq!(children_ids(&tree, b, true), vec![y.0, x.0, w.0]);
    assert_eq!(tree.children_range(a), None);
    assert_eq!(tree.parent_ref(x).unwrap().id, b);
    // an empty child list moves nothing
    tree.reparent_from_id_append(a, b).unwrap();
    assert_eq!(children_ids(&tree, b, false), vec![w.0, x.0, y.0]);
    // moving children under one of them would make a cycle
    assert!(tree.reparent_from_id_append(NodeID(0), x).is_none());
    assert_eq!(preorder_data(&tree, NodeID(0)), vec![0, 1, 2, 20, 10, 11]);
}

#[test]
fn preorder_of_subtree_and_leaf() {
    let mut tree = Tree::new(0);
    let a = tree.append_child(NodeID(0), 1).unwrap().id;
    tree.append_child(a, 2).unwrap();
    let c = tree.append_child(NodeID(0), 3).unwrap().id;
    assert_eq!(preorder_data(&tree, a), vec![1, 2]);
    assert_eq!(preorder_data(&tree, c), vec![3]);
    let phantom = tree.phantom_node(7);
    assert_eq!(phantom.id, NodeID(usize::MAX));
    assert!(phantom.parent.is_none());
}

#[test]
fn node_id_conversions() {
    let id: NodeID = 3usize.into();
    assert_eq!(id, NodeID(3));
    let back: usize = id.into();
    assert_eq!(back, 3);
}

#[test]
fn root_never_gets_a_parent() {
    let mut tree = Tree::new(0);
    let orphan = tree.orphan_node(1).id;
    assert!(tree.append_child_id(orphan, NodeID(0)).is_none());
    let a = tree.append_child(orphan, 2).unwrap().id;
    assert!(tree.insert_id_before(a, NodeID(0)).is_none());
    let root = tree.root_ref().unwrap();
    assert!(root.parent.is_none() && root.previous_sibling.is_none() && root.next_sibling.is_none());
    let o = tree.node_ref(orphan).unwrap();
    assert!(o.previous_sibling.is_none() && o.next_sibling.is_none());
}
