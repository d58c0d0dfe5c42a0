use fp_succinct_trees_1::errors::NodeError;
use fp_succinct_trees_1::min_max::MinMax;

fn twelve() -> Vec<bool> {
    vec![true, true, true, false, true, false, false, true, true, false, false, false]
}

fn twenty_two() -> Vec<bool> {
    vec![
        true, true, true, false, true, false, true, true, false, false, false, true, false, true,
        true, true, false, true, false, false, false, false,
    ]
}

#[test]
fn min_max_test_min_max_construction() {
    let min_max = MinMax::new(twelve(), 4);
    //heap has the correct length
    assert_eq!(min_max.heap().len(), 7);
    //the blocks contents are correct
    assert_eq!(min_max.heap()[3].excess, 2);
    assert_eq!(min_max.heap()[3].min_excess, 1);
    assert_eq!(min_max.heap()[3].number_min_excess, 1);
    assert_eq!(min_max.heap()[3].max_excess, 3);

    assert_eq!(min_max.heap()[4].excess, 0);
    assert_eq!(min_max.heap()[4].min_excess, -1);
    assert_eq!(min_max.heap()[4].number_min_excess, 1);
    assert_eq!(min_max.heap()[4].max_excess, 1);

    assert_eq!(min_max.heap()[5].excess, -2);
    assert_eq!(min_max.heap()[5].min_excess, -2);
    assert_eq!(min_max.heap()[5].number_min_excess, 1);
    assert_eq!(min_max.heap()[5].max_excess, 1);

    assert_eq!(min_max.heap()[6].excess, 0);
    assert_eq!(min_max.heap()[6].min_excess, 0);
    assert_eq!(min_max.heap()[6].number_min_excess, 0);
    assert_eq!(min_max.heap()[6].max_excess, 0);
    //right subtree has the correct content
    assert_eq!(min_max.heap()[2].excess, -2);
    assert_eq!(min_max.heap()[2].min_excess, -2);
    assert_eq!(min_max.heap()[2].number_min_excess, 1);
    assert_eq!(min_max.heap()[2].max_excess, 1);
    //left subtree has the correct content
    assert_eq!(min_max.heap()[1].excess, 2);
    assert_eq!(min_max.heap()[1].min_excess, 1);
    assert_eq!(min_max.heap()[1].number_min_excess, 2);
    assert_eq!(min_max.heap()[1].max_excess, 3);
    //root node has the correct content
    assert_eq!(min_max.heap()[0].excess, 0);
    assert_eq!(min_max.heap()[0].min_excess, 0);
    assert_eq!(min_max.heap()[0].number_min_excess, 1);
    assert_eq!(min_max.heap()[0].max_excess, 3);
}

#[test]
fn test_min_max_construction2() {
    let min_max = MinMax::new(twenty_two(), 4);
    assert_eq!(min_max.heap()[0].excess, 0);
    assert_eq!(min_max.heap()[1].excess, 4);
    assert_eq!(min_max.heap()[2].excess, -4);
    assert_eq!(min_max.heap()[3].excess, 4);
    assert_eq!(min_max.heap()[4].excess, 0);
    assert_eq!(min_max.heap()[5].excess, -4);
    assert_eq!(min_max.heap()[6].excess, 0);
    //
    assert_eq!(min_max.heap()[7].excess, 2);
    assert_eq!(min_max.heap()[8].excess, 2);
    assert_eq!(min_max.heap()[9].excess, -2);
    assert_eq!(min_max.heap()[10].excess, 2);
    assert_eq!(min_max.heap()[11].excess, -2);
    assert_eq!(min_max.heap()[12].excess, -2);
    assert_eq!(min_max.heap()[13].excess, 0);
    assert_eq!(min_max.heap()[14].excess, 0);
}

#[test]
fn min_max_test_min_max() {
    let min_max = MinMax::new(twenty_two(), 4);
    assert_eq!(min_max.excess(21).unwrap(), 0);
    assert_eq!(min_max.excess(7).unwrap(), 4);
}

#[test]
fn min_max_test_excess() {
    let bits = vec![true, false];
    let min_max = MinMax::new(bits, 2);
    assert_eq!(min_max.excess(0).unwrap(), 1);
    assert_eq!(min_max.excess(1).unwrap(), 0);
    assert_eq!(min_max.excess(2).unwrap_err(), NodeError::NotANodeError);
}

#[test]
fn min_max_test_fwd_search() {
    let min_max = MinMax::new(twelve(), 4);
    assert_eq!(min_max.fwd_search(0, 0).unwrap(), 11);
    assert_eq!(min_max.fwd_search(1, 0).unwrap(), 6);
    assert_eq!(min_max.fwd_search(5, 2).unwrap(), 8);
    assert_eq!(min_max.fwd_search(4, 0).unwrap(), 5);
    assert_eq!(min_max.fwd_search(4, 1).unwrap(), 8);
    assert_eq!(min_max.fwd_search(0, 3).unwrap(), 2);
}

#[test]
fn min_max_test_find_close() {
    let bits = vec![true, true, false, false];
    let min_max = MinMax::new(bits, 2);
    assert_eq!(min_max.find_close(0).unwrap(), 3);
    assert_eq!(min_max.find_close(1).unwrap(), 2);
}

#[test]
fn min_max_test_bwd_search() {
    let min_max = MinMax::new(twelve(), 4);
    assert_eq!(min_max.bwd_search(7, 1).unwrap(), 4);
    assert_eq!(min_max.bwd_search(5, -1).unwrap(), 0);
    assert_eq!(min_max.bwd_search(10, 0).unwrap(), 6);
}

#[test]
fn min_max_test_enclose() {
    let min_max = MinMax::new(twenty_two(), 4);
    assert_eq!(min_max.enclose(4).unwrap(), 1);
    assert_eq!(min_max.enclose(6).unwrap(), 1);
}

#[test]
fn min_max_test_rank_1() {
    let min_max = MinMax::new(twenty_two(), 4);
    assert_eq!(min_max.rank_1(11).unwrap(), 7);
    assert_eq!(min_max.rank_1(21).unwrap(), 11);
}

#[test]
fn min_max_test_rank_0() {
    let min_max = MinMax::new(twenty_two(), 4);
    assert_eq!(min_max.rank_0(12).unwrap(), 6);
    assert_eq!(min_max.rank_0(17).unwrap(), 7);
    assert_eq!(min_max.rank_0(21).unwrap(), 11);
}

#[test]
fn min_max_test_parent() {
    let bits = vec![true, true, false, false];
    let min_max = MinMax::new(bits, 4);
    assert_eq!(min_max.parent(2), 0);
}

#[test]
fn min_max_test_left_child() {
    let bits = vec![true, true, false, false];
    let min_max = MinMax::new(bits, 4);
    assert_eq!(min_max.left_child(0), 1);
}

#[test]
fn min_max_test_right_child() {
    let bits = vec![true, true, false, false];
    let min_max = MinMax::new(bits, 4);
    assert_eq!(min_max.right_child(0), 2);
}

#[test]
fn test_is_leaf() {
    let bits = vec![true, true, false, false];
    let min_max = MinMax::new(bits, 1);
    assert_eq!(min_max.is_leaf(0), false);
    // first leaf node:
    assert_eq!(min_max.is_leaf(3), true);
}

#[test]
fn test_ones_for_node() {
    let bits = vec![true, true, false, false];
    let min_max = MinMax::new(bits, 1);
    assert_eq!(min_max.ones_for_node(0), 2);
    assert_eq!(min_max.ones_for_node(1), 2);
    assert_eq!(min_max.ones_for_node(6), 0);
}

#[test]
fn test_select_1() {
    let bits = vec![true, true, false, false];
    let min_max = MinMax::new(bits, 1);
    assert_eq!(min_max.select_1(2).unwrap(), 1);
    let min_max = MinMax::new(twenty_two(), 4);
    assert_eq!(min_max.select_1(4).unwrap(), 4);
    assert_eq!(min_max.select_1(10).unwrap(), 15);
    assert_eq!(min_max.select_1(11).unwrap(), 17);
    assert_eq!(min_max.select_1(12).unwrap_err(), NodeError::NotANodeError);
}

#[test]
fn test_select_0() {
    let bits = vec![true, true, false, false];
    let min_max = MinMax::new(bits, 1);
    assert_eq!(min_max.select_0(2).unwrap(), 3);
    let min_max = MinMax::new(twenty_two(), 4);
    assert_eq!(min_max.select_0(1).unwrap(), 3);
    assert_eq!(min_max.select_0(6).unwrap(), 12);
    assert_eq!(min_max.select_0(11).unwrap(), 21);
    assert_eq!(min_max.select_0(12).unwrap_err(), NodeError::NotANodeError);
}
