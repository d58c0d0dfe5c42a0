use fp_succinct_trees_1::errors::{InvalidBitvecError, NodeError};
use fp_succinct_trees_1::louds_tree::LOUDSTree;

fn twelve() -> Vec<bool> {
    vec![true, true, true, true, false, true, false, true, false, false, false, false]
}

fn labeled_tree() -> LOUDSTree<String> {
    // root, with children first_root_child (which has the child leaf) and
    // second_root_child; degrees and labels in level order
    let degrees: Vec<u64> = vec![2, 1, 0, 0];
    let labels = vec![
        String::from("root"),
        String::from("first_root_child"),
        String::from("second_root_child"),
        String::from("leaf"),
    ];
    LOUDSTree::from_level_order(&degrees, labels).unwrap()
}

#[test]
fn louds_tree_new_from_bitvec() {
    let bitvec = vec![true, false];
    let tree: LOUDSTree<String> = LOUDSTree::from_bitvec(bitvec.clone()).unwrap();
    assert_eq!(
        tree.bits(),
        bitvec,
        "BPTree seems to somehow change the bitvector it was created with."
    );
}

#[test]
fn louds_tree_new_from_bitvec_invalid() {
    let bitvec = vec![true, true];
    let tree: Result<LOUDSTree<String>, InvalidBitvecError> = LOUDSTree::from_bitvec(bitvec);
    assert_eq!(tree.unwrap_err(), InvalidBitvecError);
}

#[test]
fn louds_tree_is_leaf() {
    let tree: LOUDSTree<String> = LOUDSTree::from_bitvec(vec![true, true, false, false]).unwrap();
    assert!(tree.is_leaf(3).unwrap());
}

#[test]
fn louds_tree_is_no_leaf() {
    let tree: LOUDSTree<String> = LOUDSTree::from_bitvec(vec![true, true, false, false]).unwrap();
    assert!(!tree.is_leaf(1).unwrap());
}

#[test]
fn louds_tree_is_leaf_wrong_index() {
    let tree: LOUDSTree<String> = LOUDSTree::from_bitvec(vec![true, true, false, false]).unwrap();
    assert_eq!(tree.is_leaf(2).unwrap_err(), NodeError::NotANodeError);
}

#[test]
fn louds_tree_is_leaf_wrong_index2() {
    let tree: LOUDSTree<String> = LOUDSTree::from_bitvec(vec![true, true, false, false]).unwrap();
    assert_eq!(tree.is_leaf(4).unwrap_err(), NodeError::NotANodeError);
}

#[test]
fn louds_tree_first_child() {
    let tree: LOUDSTree<String> = LOUDSTree::from_bitvec(vec![true, true, false, false]).unwrap();
    assert_eq!(tree.first_child(1).unwrap(), 3);
}

#[test]
fn louds_tree_first_child_no_parent() {
    let tree: LOUDSTree<String> = LOUDSTree::from_bitvec(vec![true, true, false, false]).unwrap();
    assert_eq!(tree.first_child(3).unwrap_err(), NodeError::NotAParentError);
}

#[test]
fn louds_tree_parent() {
    let tree: LOUDSTree<String> = LOUDSTree::from_bitvec(vec![true, true, false, false]).unwrap();
    assert_eq!(tree.parent(3).unwrap(), 1)
}

#[test]
fn louds_tree_parent_root_node() {
    let tree: LOUDSTree<String> = LOUDSTree::from_bitvec(vec![true, true, false, false]).unwrap();
    assert_eq!(tree.parent(1).unwrap_err(), NodeError::RootNodeError)
}

#[test]
fn louds_tree_parent_no_node() {
    let tree: LOUDSTree<String> = LOUDSTree::from_bitvec(vec![true, true, false, false]).unwrap();
    assert_eq!(tree.parent(0).unwrap_err(), NodeError::NotANodeError)
}

#[test]
fn louds_tree_next_sibling() {
    let tree: LOUDSTree<String> = LOUDSTree::from_bitvec(twelve()).unwrap();
    assert_eq!(tree.next_sibling(5).unwrap(), 7);
    assert_eq!(tree.next_sibling(7).unwrap(), 9);
}

#[test]
fn louds_tree_no_next_sibling() {
    let tree: LOUDSTree<String> = LOUDSTree::from_bitvec(twelve()).unwrap();
    assert_eq!(
        tree.next_sibling(10).unwrap_err(),
        NodeError::NoSiblingError
    );
}

#[test]
fn louds_tree_degree() {
    let tree: LOUDSTree<String> = LOUDSTree::from_bitvec(twelve()).unwrap();
    assert_eq!(tree.degree(1).unwrap(), 3);
    assert_eq!(tree.degree(5).unwrap(), 1);
    assert_eq!(tree.degree(9).unwrap(), 0);
}

#[test]
fn louds_tree_child_rank() {
    let tree: LOUDSTree<String> = LOUDSTree::from_bitvec(twelve()).unwrap();
    assert_eq!(tree.child_rank(9).unwrap(), 2);
    assert_eq!(tree.child_rank(7).unwrap(), 1);
    assert_eq!(tree.child_rank(5).unwrap(), 0);
    assert_eq!(tree.child_rank(1).unwrap(), 0);
}

#[test]
fn louds_tree_print() {
    let tree: LOUDSTree<String> = LOUDSTree::from_bitvec(twelve()).unwrap();
    let str = tree.debug_string();
    assert_eq!(str, "LOUDSTree\n  { bits: bit_vec![true, true, true, true, false, true, false, true, false, false, false, false] }")
}

#[test]
fn louds_tree_partial_eq() {
    let bitvec_a = twelve();
    let bitvec_b = vec![true, true, false, false];
    let tree_a: LOUDSTree<String> = LOUDSTree::from_bitvec(bitvec_a.clone()).unwrap();
    let tree_b: LOUDSTree<String> = LOUDSTree::from_bitvec(bitvec_a.clone()).unwrap();
    let tree_c: LOUDSTree<String> = LOUDSTree::from_bitvec(bitvec_b.clone()).unwrap();
    assert!(tree_a == tree_b);
    assert!(tree_a != tree_c)
}

#[test]
fn louds_tree_from_id_tree() {
    // root 0 with children 1 and 2; 3 under 1: degrees and labels in level order
    let degrees: Vec<u64> = vec![2, 1, 0, 0];
    let tree: LOUDSTree<i32> = LOUDSTree::from_level_order(&degrees, vec![0, 1, 2, 3]).unwrap();
    let bitvec = vec![true, true, true, false, true, false, false, false];
    let other_tree = LOUDSTree::from_bitvec(bitvec).unwrap();
    assert!(tree == other_tree)
}

#[test]
fn louds_tree_child_label() {
    let louds_tree = labeled_tree();
    assert_eq!(*louds_tree.child_label(1).unwrap(), "root");
    assert_eq!(*louds_tree.child_label(4).unwrap(), "first_root_child");
    assert_eq!(*louds_tree.child_label(6).unwrap(), "second_root_child");
    assert_eq!(*louds_tree.child_label(7).unwrap(), "leaf");
}

#[test]
fn louds_tree_labeled_child() {
    let louds_tree = labeled_tree();
    assert_eq!(
        louds_tree
            .labeled_child(1, String::from("second_root_child"))
            .unwrap(),
        6
    );
    assert_eq!(
        louds_tree
            .labeled_child(1, String::from("first_root_child"))
            .unwrap(),
        4
    );
    assert_eq!(louds_tree.labeled_child(4, String::from("leaf")).unwrap(), 7);
    assert_eq!(
        louds_tree
            .labeled_child(4, String::from("foobar"))
            .unwrap_err(),
        NodeError::NoSuchChildError
    );
}

#[test]
fn nth_child() {
    let tree: LOUDSTree<String> = LOUDSTree::from_bitvec(twelve()).unwrap();
    assert_eq!(tree.child(1, 1).unwrap(), 5);
    assert_eq!(tree.child(1, 2).unwrap(), 7);
    assert_eq!(tree.child(1, 3).unwrap(), 9);
    assert_eq!(tree.child(5, 1).unwrap(), 10);
    assert_eq!(tree.child(7, 1).unwrap(), 11);
    let bitvec2 = vec![true, true, false, true, false, false];
    let tree2: LOUDSTree<String> = LOUDSTree::from_bitvec(bitvec2).unwrap();
    assert_eq!(tree2.child(1, 1).unwrap(), 3);
    assert_eq!(tree2.child(3, 1).unwrap(), 5);
    let bitvec3 = vec![true, true, true, false, true, false, false, false];
    let tree3: LOUDSTree<String> = LOUDSTree::from_bitvec(bitvec3).unwrap();
    assert_eq!(tree3.child(1, 1).unwrap(), 4);
    assert_eq!(tree3.child(1, 2).unwrap(), 6);
    assert_eq!(tree3.child(4, 1).unwrap(), 7);
}
