use fp_succinct_trees_1::bits::is_valid;
use fp_succinct_trees_1::bp_tree::{preorder_bits, BPTree};
use fp_succinct_trees_1::errors::{InvalidBitvecError, NodeError};
use fp_succinct_trees_1::generate::{balance, generate_bits};
use fp_succinct_trees_1::louds_tree::{louds_bits, LOUDSTree};
use fp_succinct_trees_1::min_max::MinMax;
use fp_succinct_trees_1::rank_select::calc_superblock_size;
use fp_succinct_trees_1::succinct_tree::SuccinctTree;

fn twelve_bp() -> Vec<bool> {
    vec![true, true, true, false, true, false, false, true, true, false, false, false]
}

fn excess_at(bits: &[bool], i: usize) -> i64 {
    bits[..=i].iter().map(|&b| if b { 1 } else { -1 }).sum()
}

fn nodes(bits: &[bool]) -> Vec<u64> {
    (0..bits.len()).filter(|&i| bits[i]).map(|i| i as u64).collect()
}

#[test]
fn scenario_bp_is_leaf() {
    let tree: BPTree<i32> = BPTree::from_bitvec(vec![true, true, false, false]).unwrap();
    assert!(tree.is_leaf(1).unwrap());
    assert!(!tree.is_leaf(0).unwrap());
}

#[test]
fn scenario_bp_sibling_parent_size() {
    let tree: BPTree<i32> =
        BPTree::from_bitvec(vec![true, true, false, true, false, false]).unwrap();
    assert_eq!(tree.next_sibling(1).unwrap(), 3);
    assert_eq!(tree.parent(3).unwrap(), 0);
    assert_eq!(tree.subtree_size(0).unwrap(), 3);
}

#[test]
fn scenario_rmm_find_close_excess_fwd_search() {
    let min_max = MinMax::new(twelve_bp(), 4);
    assert_eq!(min_max.find_close(0).unwrap(), 11);
    assert_eq!(min_max.excess(7).unwrap(), 2);
    assert_eq!(min_max.fwd_search(5, 2).unwrap(), 8);
}

#[test]
fn scenario_louds_sibling_degree() {
    let bits = vec![true, true, true, true, false, true, false, true, false, false, false, false];
    let tree: LOUDSTree<i32> = LOUDSTree::from_bitvec(bits).unwrap();
    assert_eq!(tree.next_sibling(5).unwrap(), 7);
    assert_eq!(tree.next_sibling(7).unwrap(), 9);
    assert_eq!(tree.degree(1).unwrap(), 3);
    assert_eq!(tree.degree(9).unwrap(), 0);
}

#[test]
fn scenario_louds_first_child_parent() {
    let tree: LOUDSTree<i32> = LOUDSTree::from_bitvec(vec![true, true, false, false]).unwrap();
    assert_eq!(tree.first_child(1).unwrap(), 3);
    assert_eq!(tree.parent(3).unwrap(), 1);
}

#[test]
fn accepted_bits_have_well_formed_excess() {
    assert!(is_valid(&vec![true, false]));
    assert!(is_valid(&Vec::new()));
    assert!(is_valid(&twelve_bp()));
    // the excess reaches 0 before the end
    assert!(!is_valid(&vec![true, false, true, false]));
    // the excess drops below 0 at once
    assert!(!is_valid(&vec![false, true]));
    // the excess does not end at 0
    assert!(!is_valid(&vec![true, true, false]));
    assert_eq!(
        BPTree::<i32>::from_bitvec(vec![false, true]).unwrap_err(),
        InvalidBitvecError
    );
}

#[test]
fn find_close_matches_on_every_node() {
    let bits = twelve_bp();
    let min_max = MinMax::new(bits.clone(), 2);
    for x in nodes(&bits) {
        let c = min_max.find_close(x).unwrap();
        assert!(c > x);
        assert!(!bits[c as usize]);
        assert_eq!(excess_at(&bits, c as usize), excess_at(&bits, x as usize) - 1);
    }
}

#[test]
fn enclose_lies_before_and_closes_after() {
    let bits = twelve_bp();
    let tree: BPTree<i32> = BPTree::from_bitvec(bits.clone()).unwrap();
    let min_max = MinMax::new(bits.clone(), 3);
    for x in nodes(&bits) {
        if x > 0 {
            let q = tree.parent(x).unwrap();
            assert_eq!(min_max.enclose(x).unwrap(), q);
            assert!(q < x);
            assert!(x < min_max.find_close(q).unwrap());
        }
    }
    assert_eq!(min_max.enclose(0).unwrap_err(), NodeError::NotFoundError);
}

#[test]
fn pre_rank_of_pre_select_is_identity() {
    let bits = twelve_bp();
    let tree: BPTree<i32> = BPTree::from_bitvec(bits.clone()).unwrap();
    for k in 1..=6u64 {
        assert_eq!(tree.pre_rank(tree.pre_select(k).unwrap()).unwrap(), k);
    }
    assert_eq!(tree.pre_select(7), None);
}

#[test]
fn preorder_construction_equals_manual_encoding() {
    let depths: Vec<u64> = vec![0, 1, 2, 2, 1, 2, 1];
    let manual = preorder_bits(&depths);
    assert_eq!(
        manual,
        vec![true, true, true, false, true, false, false, true, true, false, false, true, false, false]
    );
    let built: BPTree<i32> = BPTree::from_preorder(&depths, vec![]).unwrap();
    let from_bits: BPTree<i32> = BPTree::from_bitvec(manual).unwrap();
    assert!(built == from_bits);
    assert_eq!(
        BPTree::<i32>::from_preorder(&vec![0, 2], vec![]).unwrap_err(),
        InvalidBitvecError
    );
    assert_eq!(
        BPTree::<i32>::from_preorder(&vec![1], vec![]).unwrap_err(),
        InvalidBitvecError
    );
}

#[test]
fn level_order_construction_equals_manual_encoding() {
    let degrees: Vec<u64> = vec![3, 1, 1, 0, 0, 0];
    let manual = louds_bits(&degrees).unwrap();
    assert_eq!(
        manual,
        vec![true, true, true, true, false, true, false, true, false, false, false, false]
    );
    let built: LOUDSTree<i32> = LOUDSTree::from_level_order(&degrees, vec![]).unwrap();
    assert!(built == LOUDSTree::from_bitvec(manual).unwrap());
    assert_eq!(louds_bits(&vec![5, 0]), None);
    assert_eq!(
        LOUDSTree::<i32>::from_level_order(&vec![0, 1], vec![]).unwrap_err(),
        InvalidBitvecError
    );
}

#[test]
fn subtree_size_counts_descendants() {
    let bits = twelve_bp();
    let tree: BPTree<i32> = BPTree::from_bitvec(bits.clone()).unwrap();
    for x in nodes(&bits) {
        let count = nodes(&bits)
            .into_iter()
            .filter(|&y| tree.ancestor(x, y).unwrap())
            .count() as u64;
        assert_eq!(tree.subtree_size(x).unwrap(), count);
    }
}

#[test]
fn ancestor_is_transitive() {
    let bits = twelve_bp();
    let tree: BPTree<i32> = BPTree::from_bitvec(bits.clone()).unwrap();
    let ns = nodes(&bits);
    for &x in &ns {
        for &y in &ns {
            for &z in &ns {
                if tree.ancestor(x, y).unwrap() && tree.ancestor(y, z).unwrap() {
                    assert!(tree.ancestor(x, z).unwrap());
                }
            }
        }
    }
    assert_eq!(tree.ancestor(0, 3).unwrap_err(), NodeError::NotANodeError);
}

#[test]
fn inner_nodes_compose_their_children() {
    let bits = vec![
        true, true, true, false, true, false, true, true, false, false, false, true, false, true,
        true, true, false, true, false, false, false, false,
    ];
    let min_max = MinMax::new(bits, 3);
    let heap = min_max.heap();
    assert_eq!(heap.len(), 15);
    for v in 0..heap.len() / 2 {
        let (l, r) = (&heap[2 * v + 1], &heap[2 * v + 2]);
        let p = &heap[v];
        if r.bits_for_node == 0 {
            assert_eq!(p.excess, l.excess);
            assert_eq!(p.bits_for_node, l.bits_for_node);
        } else {
            assert_eq!(p.excess, l.excess + r.excess);
            assert_eq!(p.min_excess, l.min_excess.min(l.excess + r.min_excess));
            assert_eq!(p.max_excess, l.max_excess.max(l.excess + r.max_excess));
            assert_eq!(p.bits_for_node, l.bits_for_node + r.bits_for_node);
        }
    }
    assert_eq!(heap[0].excess, 0);
    assert_eq!(heap[0].min_excess, 0);
    assert_eq!(heap[0].number_min_excess, 1);
    assert_eq!(heap[0].bits_for_node, 22);
}

#[test]
fn empty_sequence_has_no_nodes() {
    let tree: BPTree<i32> = BPTree::from_bitvec(Vec::new()).unwrap();
    assert_eq!(tree.is_leaf(0).unwrap_err(), NodeError::NotANodeError);
    assert_eq!(tree.pre_rank(0), None);
    let min_max = MinMax::new(Vec::new(), 4);
    assert_eq!(min_max.heap().len(), 1);
    assert_eq!(min_max.excess(0).unwrap_err(), NodeError::NotANodeError);
    assert_eq!(min_max.select_1(1).unwrap_err(), NodeError::NotANodeError);
}

#[test]
fn searches_report_missing_targets() {
    let min_max = MinMax::new(twelve_bp(), 4);
    assert_eq!(min_max.fwd_search(11, 0).unwrap_err(), NodeError::NotFoundError);
    assert_eq!(min_max.bwd_search(0, 0).unwrap_err(), NodeError::NotFoundError);
    assert_eq!(min_max.fwd_search(12, 0).unwrap_err(), NodeError::NotANodeError);
    assert_eq!(min_max.bwd_search(3, 5).unwrap_err(), NodeError::NotFoundError);
}

#[test]
fn every_block_size_gives_the_same_answers() {
    let bits = twelve_bp();
    let reference = MinMax::new(bits.clone(), 1);
    for s in 2..14u64 {
        let min_max = MinMax::new(bits.clone(), s);
        for i in 0..12u64 {
            assert_eq!(min_max.excess(i).unwrap(), reference.excess(i).unwrap());
            assert_eq!(min_max.rank_1(i).unwrap(), reference.rank_1(i).unwrap());
            assert_eq!(min_max.find_close(i), reference.find_close(i));
            assert_eq!(min_max.enclose(i), reference.enclose(i));
            for d in -3..4i64 {
                assert_eq!(min_max.fwd_search(i, d), reference.fwd_search(i, d));
                assert_eq!(min_max.bwd_search(i, d), reference.bwd_search(i, d));
            }
        }
        for k in 0..8u64 {
            assert_eq!(min_max.select_1(k), reference.select_1(k));
            assert_eq!(min_max.select_0(k), reference.select_0(k));
        }
    }
}

#[test]
fn navigation_errors() {
    let tree: BPTree<i32> =
        BPTree::from_bitvec(vec![true, true, false, true, false, false]).unwrap();
    assert_eq!(tree.child_label(1).unwrap_err(), NodeError::NoLabelError);
    assert_eq!(tree.depth(2).unwrap_err(), NodeError::NotANodeError);
    assert_eq!(tree.next_sibling(0).unwrap_err(), NodeError::NoSiblingError);
    assert_eq!(tree.first_child(3).unwrap_err(), NodeError::NotAParentError);
    let louds: LOUDSTree<i32> =
        LOUDSTree::from_bitvec(vec![true, true, false, true, false, false]).unwrap();
    assert_eq!(louds.child_label(1).unwrap_err(), NodeError::NoLabelError);
    assert_eq!(louds.next_sibling(1).unwrap_err(), NodeError::RootNodeError);
    assert_eq!(louds.degree(2).unwrap_err(), NodeError::NotANodeError);
    assert_eq!(louds.child_rank(2), None);
    assert_eq!(louds.child(1, 0), None);
}

#[test]
fn labels_are_not_compared() {
    let depths: Vec<u64> = vec![0, 1];
    let a: BPTree<i32> = BPTree::from_preorder(&depths, vec![1, 2]).unwrap();
    let b: BPTree<i32> = BPTree::from_preorder(&depths, vec![3, 4]).unwrap();
    assert!(a == b);
    assert_eq!(*BPTree::<i32>::stub_create().bits(), vec![true, false]);
}

#[test]
fn bp_and_louds_agree_on_shape() {
    // root with children a, b; a with children c, d; d with child e
    let depths: Vec<u64> = vec![0, 1, 2, 2, 3, 1];
    let degrees: Vec<u64> = vec![2, 2, 0, 0, 1, 0];
    let bp: BPTree<i32> = BPTree::from_preorder(&depths, vec![0, 1, 3, 4, 5, 2]).unwrap();
    let louds: LOUDSTree<i32> = LOUDSTree::from_level_order(&degrees, vec![0, 1, 2, 3, 4, 5]).unwrap();
    let bp_nodes = nodes(bp.bits());
    // level-order handles: the root at 1, then one after each 0-bit but the last
    let lbits = louds.bits();
    let mut louds_nodes = vec![1u64];
    for i in 0..lbits.len() - 1 {
        if !lbits[i] {
            louds_nodes.push(i as u64 + 1);
        }
    }
    // labels pair the two numberings
    for &x in &bp_nodes {
        let label = *bp.child_label(x).unwrap();
        let y = *louds_nodes
            .iter()
            .find(|&&y| *louds.child_label(y).unwrap() == label)
            .unwrap();
        assert_eq!(bp.is_leaf(x).unwrap(), louds.is_leaf(y).unwrap());
        let mut bp_children = 0;
        if !bp.is_leaf(x).unwrap() {
            let mut c = bp.first_child(x).unwrap();
            bp_children += 1;
            while let Ok(s) = bp.next_sibling(c) {
                bp_children += 1;
                c = s;
            }
        }
        assert_eq!(louds.degree(y).unwrap(), bp_children);
    }
    assert_eq!(bp.subtree_size(0).unwrap(), 6);
}

#[test]
fn superblock_sizes() {
    assert_eq!(calc_superblock_size(0), 1);
    assert_eq!(calc_superblock_size(2), 1);
    assert_eq!(calc_superblock_size(1024), 4);
    assert_eq!(calc_superblock_size(1025), 4);
    assert_eq!(calc_superblock_size(u64::MAX), 128);
}

#[test]
fn debug_text_shows_the_bits() {
    let tree: BPTree<i32> = BPTree::from_bitvec(vec![true, false]).unwrap();
    assert_eq!(tree.debug_string(), "BPTree\n  { bits: bit_vec![true, false] }");
    let louds: LOUDSTree<i32> = LOUDSTree::from_bitvec(vec![true, false]).unwrap();
    assert_eq!(louds.debug_string(), "LOUDSTree\n  { bits: bit_vec![true, false] }");
}

#[test]
fn balance_brings_the_excess_to_zero() {
    let mut a = vec![true, true, false];
    balance(&mut a);
    assert_eq!(a, vec![true, true, false, false]);
    let mut b = vec![false, false];
    balance(&mut b);
    assert_eq!(b, vec![false, false, true, true]);
    let mut c = vec![true, false];
    balance(&mut c);
    assert_eq!(c, vec![true, false]);
    let g = generate_bits();
    assert!(g.len() >= 10000);
    assert_eq!(excess_at(&g, g.len() - 1), 0);
}

#[test]
fn louds_parent_of_each_child_is_the_node() {
    let bits = vec![true, true, true, true, false, true, false, true, false, false, false, false];
    let tree: LOUDSTree<i32> = LOUDSTree::from_bitvec(bits).unwrap();
    for x in [1u64, 5, 7, 9, 10, 11] {
        let degree = tree.degree(x).unwrap();
        for k in 1..=degree {
            let c = tree.child(x, k).unwrap();
            assert_eq!(tree.parent(c).unwrap(), x);
            assert_eq!(tree.child_rank(c).unwrap(), k - 1);
        }
    }
}

fn count_leaves<T: SuccinctTree<i32>>(tree: &T, handles: &[u64]) -> usize {
    handles.iter().filter(|&&x| tree.is_leaf(x).unwrap()).count()
}

#[test]
fn both_encodings_through_one_interface() {
    // root with children a, b; a with child c
    let bp: BPTree<i32> = BPTree::from_preorder(&vec![0, 1, 2, 1], vec![]).unwrap();
    let louds: LOUDSTree<i32> = LOUDSTree::from_level_order(&vec![2, 1, 0, 0], vec![]).unwrap();
    assert_eq!(count_leaves(&bp, &[0, 1, 2, 5]), 2);
    assert_eq!(count_leaves(&louds, &[1, 4, 6, 7]), 2);
    assert_eq!(SuccinctTree::parent(&bp, 2).unwrap(), 1);
    assert_eq!(SuccinctTree::parent(&louds, 7).unwrap(), 4);
    assert_eq!(SuccinctTree::first_child(&louds, 4).unwrap(), 7);
    assert_eq!(SuccinctTree::next_sibling(&bp, 1).unwrap(), 5);
}

#[test]
fn empty_tree_select_and_empty_sources() {
    let tree: BPTree<i32> = BPTree::from_bitvec(Vec::new()).unwrap();
    assert_eq!(tree.pre_select(1), None);
    assert_eq!(tree.pre_select(0), None);
    assert_eq!(
        BPTree::<i32>::from_preorder(&Vec::new(), vec![]).unwrap_err(),
        InvalidBitvecError
    );
    assert_eq!(
        LOUDSTree::<i32>::from_level_order(&Vec::new(), vec![]).unwrap_err(),
        InvalidBitvecError
    );
}

#[test]
fn labeled_child_reports_missing_labels_and_first_match() {
    let bp: BPTree<i32> = BPTree::from_bitvec(vec![true, true, false, true, false, false]).unwrap();
    assert_eq!(bp.labeled_child(0, 7).unwrap_err(), NodeError::NoLabelError);
    assert_eq!(bp.labeled_child(1, 7).unwrap_err(), NodeError::NotAParentError);
    let louds: LOUDSTree<i32> =
        LOUDSTree::from_bitvec(vec![true, true, true, false, false, false]).unwrap();
    assert_eq!(louds.labeled_child(1, 7).unwrap_err(), NodeError::NoLabelError);
    // two children with the same label: the first one is returned
    let bp2: BPTree<i32> = BPTree::from_preorder(&vec![0, 1, 1], vec![0, 9, 9]).unwrap();
    assert_eq!(bp2.labeled_child(0, 9).unwrap(), 1);
    let louds2: LOUDSTree<i32> = LOUDSTree::from_level_order(&vec![2, 0, 0], vec![0, 9, 9]).unwrap();
    assert_eq!(louds2.labeled_child(1, 9).unwrap(), 4);
}
