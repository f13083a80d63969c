use molasses::tree_math::{
    common_ancestor, is_ancestor, node_direct_path, node_extended_direct_path, node_left_child,
    node_parent, node_right_child, node_sibling, num_leaves_in_tree, num_nodes_in_tree, root_idx,
};

#[test]
fn counts() {
    assert_eq!(num_nodes_in_tree(1), 1);
    assert_eq!(num_nodes_in_tree(7), 13);
    assert_eq!(num_nodes_in_tree(0), 0);
    assert_eq!(num_leaves_in_tree(13), 7);
    assert_eq!(num_leaves_in_tree(0), 0);
    assert_eq!(num_leaves_in_tree(1), 1);
}

#[test]
fn roots() {
    assert_eq!(root_idx(1), 0);
    assert_eq!(root_idx(2), 1);
    assert_eq!(root_idx(3), 3);
    assert_eq!(root_idx(4), 3);
    assert_eq!(root_idx(5), 7);
    assert_eq!(root_idx(8), 7);
    assert_eq!(root_idx(9), 15);
}

#[test]
fn parents_and_children() {
    // Four leaves: a complete tree.
    assert_eq!(node_parent(0, 4), 1);
    assert_eq!(node_parent(2, 4), 1);
    assert_eq!(node_parent(1, 4), 3);
    assert_eq!(node_parent(5, 4), 3);
    assert_eq!(node_parent(4, 4), 5);
    assert_eq!(node_parent(3, 4), 3);
    assert_eq!(node_left_child(3, 4), 1);
    assert_eq!(node_right_child(3, 4), 5);
    assert_eq!(node_left_child(0, 4), 0);
    // Three leaves: the right child of the root is a leaf.
    assert_eq!(node_right_child(3, 3), 4);
    assert_eq!(node_parent(4, 3), 3);
    // Five leaves: the root's right subtree is the single leaf 8.
    assert_eq!(node_right_child(7, 5), 8);
    assert_eq!(node_parent(8, 5), 7);
    assert_eq!(node_sibling(8, 5), 3);
    assert_eq!(node_sibling(3, 5), 8);
    assert_eq!(node_sibling(0, 5), 2);
}

#[test]
fn index_algebra_on_every_node() {
    for num_leaves in 1..40usize {
        let n = num_nodes_in_tree(num_leaves);
        let root = root_idx(num_leaves);
        for i in 0..n {
            if i != root {
                let p = node_parent(i, num_leaves);
                assert!(node_left_child(p, num_leaves) == i || node_right_child(p, num_leaves) == i);
                assert_eq!(node_sibling(node_sibling(i, num_leaves), num_leaves), i);
            }
            for j in 0..n {
                let ca = common_ancestor(i, j, num_leaves);
                assert!(is_ancestor(ca, i, num_leaves));
                assert!(is_ancestor(ca, j, num_leaves));
            }
        }
    }
}

#[test]
fn paths() {
    assert_eq!(node_direct_path(0, 4), vec![1]);
    assert_eq!(node_extended_direct_path(0, 4), vec![0, 1, 3]);
    assert_eq!(node_direct_path(3, 4), Vec::<usize>::new());
    assert_eq!(node_extended_direct_path(3, 4), vec![3]);
    assert_eq!(node_direct_path(8, 6), vec![9]);
    assert_eq!(node_extended_direct_path(10, 6), vec![10, 9, 7]);
    assert!(is_ancestor(7, 10, 6));
    assert!(is_ancestor(10, 10, 6));
    assert!(!is_ancestor(3, 10, 6));
    assert_eq!(common_ancestor(0, 6, 4), 3);
    assert_eq!(common_ancestor(0, 2, 4), 1);
    assert_eq!(common_ancestor(8, 10, 6), 9);
    assert_eq!(common_ancestor(4, 4, 6), 4);
}
