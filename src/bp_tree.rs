//! The balanced-parentheses encoding: each node is an opening bit, its
//! subtrees in order, and a closing bit; a node is named by the position of
//! its opening bit, and the root is at 0.

use bio::data_structures::rank_select::RankSelect;
use crate::bits::{
    encloses, excess, first_hit, is_valid, lemma_climb, lemma_excess_concat, lemma_excess_repeat,
    lemma_fall, lemma_prefix_agree, lemma_rank_excess, lemma_select, no_hit, parent_level, rank,
    repeat, same_bits, select, step, total, valid_parens,
};
use crate::errors::{InvalidBitvecError, NodeError};
use crate::succinct_tree::SuccinctTree;
use crate::min_max::{MinMax, MAX_BITS};
use crate::rank_select::{
    bits_debug, bits_debug_text, calc_superblock_size, indexed_bits, new_rank_select, rank_1,
    select_1,
};
use vstd::prelude::*;
use vstd::std_specs::cmp::PartialEqSpec;
use vstd::string::*;

verus! {

/// The block size of the range-min-max tree.
pub const BLOCK_SIZE: u64 = 1024;

/// `x` is a node: the position of an opening bit.
pub open spec fn is_node(s: Seq<bool>, x: int) -> bool {
    0 <= x < s.len() && s[x]
}

/// `c` is the closing bit that matches the opening bit at `x`.
pub open spec fn matches(s: Seq<bool>, x: int, c: int) -> bool {
    first_hit(s, x + 1, excess(s, x) - 1, c)
}

/// The bits before each node of a pre-order depth sequence: closing bits
/// back up to the node's parent, then the node's opening bit.
pub open spec fn preorder_prefix(ds: Seq<u64>) -> Seq<bool>
    decreases ds.len(),
{
    if ds.len() == 0 {
        Seq::empty()
    } else {
        let k = ds.len() - 1;
        let closes: int = if k == 0 {
            0
        } else {
            ds[k - 1] + 1 - ds[k]
        };
        preorder_prefix(ds.drop_last()) + repeat(false, closes as nat) + seq![true]
    }
}

/// The depths of a tree's nodes in pre-order: the root at depth 0 first,
/// every later node at depth at least 1 and at most one below its
/// predecessor.
pub open spec fn preorder_depths_ok(ds: Seq<u64>) -> bool {
    &&& ds.len() > 0 ==> ds[0] == 0
    &&& forall|k: int| 1 <= k < ds.len() ==> 1 <= #[trigger] ds[k] <= ds[k - 1] + 1
}

/// The balanced-parentheses bits of the tree with pre-order depths `ds`.
pub open spec fn bp_encoding(ds: Seq<u64>) -> Seq<bool> {
    if ds.len() == 0 {
        Seq::empty()
    } else {
        preorder_prefix(ds) + repeat(false, (ds.last() + 1) as nat)
    }
}

/// In a valid sequence a node is not the last bit, has excess at least 1,
/// and at least 2 unless it is the root at 0, which is a node.
pub proof fn lemma_node_facts(s: Seq<bool>, x: int)
    requires
        valid_parens(s),
        is_node(s, x),
    ensures
        x + 1 < s.len(),
        excess(s, x) >= 1,
        x > 0 ==> excess(s, x) >= 2,
        s[0],
{
    assert(excess(s, x) == excess(s, x - 1) + step(s[x]));
    assert(excess(s, 0) == excess(s, -1) + step(s[0]));
    if x > 0 {
        assert(excess(s, x - 1) >= 1);
    }
}

/// Every node has a matching closing bit.
pub proof fn lemma_close_exists(s: Seq<bool>, x: int)
    requires
        valid_parens(s),
        is_node(s, x),
    ensures
        !no_hit(s, x + 1, s.len() as int, excess(s, x) - 1),
{
    lemma_node_facts(s, x);
    lemma_fall(s, x, s.len() - 1, excess(s, x) - 1);
    let k = choose|k: int|
        x < k <= s.len() - 1 && #[trigger] excess(s, k) == excess(s, x) - 1 && excess(s, k - 1)
            == excess(s, x) - 1 + 1;
    assert(excess(s, k) == excess(s, x) - 1);
}

/// A node has one matching closing bit.
pub proof fn lemma_matches_unique(s: Seq<bool>, x: int, c1: int, c2: int)
    requires
        matches(s, x, c1),
        matches(s, x, c2),
    ensures
        c1 == c2,
{
    if c1 < c2 {
        assert(excess(s, c1) != excess(s, x) - 1);
    } else if c2 < c1 {
        assert(excess(s, c2) != excess(s, x) - 1);
    }
}

/// Every node but the root has an enclosing node.
pub proof fn lemma_parent_exists(s: Seq<bool>, x: int)
    requires
        valid_parens(s),
        is_node(s, x),
        x > 0,
    ensures
        exists|q: int| 0 <= q < x && s[q] && #[trigger] excess(s, q) == parent_level(s, x),
{
    lemma_node_facts(s, x);
    assert(excess(s, x) == excess(s, x - 1) + step(s[x]));
    lemma_climb(s, -1, x - 1, excess(s, x) - 1);
    let k = choose|k: int|
        -1 < k <= x - 1 && #[trigger] excess(s, k) == excess(s, x) - 1 && excess(s, k - 1)
            == excess(s, x) - 1 - 1;
    assert(excess(s, k) == excess(s, k - 1) + step(s[k]));
    assert(0 <= k < x && s[k] && excess(s, k) == parent_level(s, x));
}

/// Matching: the closing bit of a node lies after it, is a 0-bit, and has
/// the node's excess less one.
pub proof fn lemma_find_close_matches(s: Seq<bool>, x: int, c: int)
    requires
        valid_parens(s),
        is_node(s, x),
        matches(s, x, c),
    ensures
        c > x,
        !s[c],
        excess(s, c) == excess(s, x) - 1,
{
    assert(excess(s, c) == excess(s, c - 1) + step(s[c]));
    if c - 1 > x {
        assert(excess(s, c - 1) != excess(s, x) - 1);
        if excess(s, c - 1) < excess(s, x) - 1 {
            lemma_fall(s, x, c - 1, excess(s, x) - 1);
            let k = choose|k: int|
                x < k <= c - 1 && #[trigger] excess(s, k) == excess(s, x) - 1 && excess(s, k - 1)
                    == excess(s, x) - 1 + 1;
            assert(excess(s, k) != excess(s, x) - 1);
        }
    }
}

/// Between a node and its closing bit the excess stays at least the node's.
proof fn lemma_inside_close(s: Seq<bool>, x: int, c: int, k: int)
    requires
        matches(s, x, c),
        0 <= x <= k < c,
    ensures
        excess(s, k) >= excess(s, x),
{
    if k > x && excess(s, k) < excess(s, x) {
        assert(excess(s, k) != excess(s, x) - 1);
        lemma_fall(s, x, k, excess(s, x) - 1);
        let j = choose|j: int|
            x < j <= k && #[trigger] excess(s, j) == excess(s, x) - 1 && excess(s, j - 1) == excess(
                s,
                x,
            ) - 1 + 1;
        assert(excess(s, j) != excess(s, x) - 1);
    }
}

/// Enclose/close duality: a node other than the root lies strictly between
/// its enclosing node and that node's closing bit.
pub proof fn lemma_enclose_close(s: Seq<bool>, x: int, q: int, c: int)
    requires
        valid_parens(s),
        is_node(s, x),
        x > 0,
        encloses(s, x, q),
        matches(s, q, c),
    ensures
        q < x < c,
{
    lemma_find_close_matches(s, q, c);
    if c <= x {
        assert(c != x);
        assert(excess(s, c) == excess(s, x) - 2);
        lemma_climb(s, c, x, excess(s, x) - 1);
        let k = choose|k: int|
            c < k <= x && #[trigger] excess(s, k) == excess(s, x) - 1 && excess(s, k - 1) == excess(
                s,
                x,
            ) - 1 - 1;
        assert(excess(s, k) == excess(s, k - 1) + step(s[k]));
        assert(q < k < x && s[k]);
    }
}

/// Pre-order round trip: the pre-order number of the node with pre-order
/// number `k` is `k`, for every `k` from 1 to the number of nodes.
pub proof fn lemma_pre_rank_select(s: Seq<bool>, k: int)
    requires
        1 <= k <= rank(s, true, s.len() - 1),
    ensures
        0 <= select(s, true, k) < s.len(),
        rank(s, true, select(s, true, k)) == k,
{
    lemma_select(s, true, k);
}

/// Subtree size: the nodes `y` with `ancestor(x, y)` are the opening bits
/// from `x` to its closing bit `c`; there are `(c - x + 1) / 2` of them.
pub proof fn lemma_subtree_size(s: Seq<bool>, x: int, c: int)
    requires
        valid_parens(s),
        is_node(s, x),
        matches(s, x, c),
    ensures
        (c - x + 1) / 2 == rank(s, true, c) - rank(s, true, x - 1),
{
    lemma_find_close_matches(s, x, c);
    assert(excess(s, x) == excess(s, x - 1) + step(s[x]));
    lemma_rank_excess(s, c);
    lemma_rank_excess(s, x - 1);
}

/// The nodes in `[a, b]` form a finite set of `rank(b) - rank(a - 1)` elements.
proof fn lemma_nodes_in_range(s: Seq<bool>, a: int, b: int)
    requires
        0 <= a <= b + 1,
        b < s.len(),
    ensures
        Set::new(|y: int| is_node(s, y) && a <= y <= b).finite(),
        Set::new(|y: int| is_node(s, y) && a <= y <= b).len() == rank(s, true, b) - rank(
            s,
            true,
            a - 1,
        ),
    decreases b - a + 1,
{
    let set = Set::new(|y: int| is_node(s, y) && a <= y <= b);
    if b < a {
        assert(set =~= Set::<int>::empty());
    } else {
        lemma_nodes_in_range(s, a, b - 1);
        let prev = Set::new(|y: int| is_node(s, y) && a <= y <= b - 1);
        if s[b] {
            assert(set =~= prev.insert(b));
        } else {
            assert(set =~= prev);
        }
    }
}

/// Subtree size as a count: the nodes `y` with `ancestor(x, y)`, that is
/// with `x <= y <= c` for the closing bit `c` of `x`, number `(c - x + 1) / 2`.
pub proof fn lemma_subtree_size_count(s: Seq<bool>, x: int, c: int)
    requires
        valid_parens(s),
        is_node(s, x),
        matches(s, x, c),
    ensures
        Set::new(|y: int| is_node(s, y) && x <= y <= c).finite(),
        Set::new(|y: int| is_node(s, y) && x <= y <= c).len() == (c - x + 1) / 2,
{
    lemma_subtree_size(s, x, c);
    lemma_nodes_in_range(s, x, c);
}

/// Ancestor transitivity: if `x` is an ancestor of `y` and `y` of `z`, then
/// `x` is an ancestor of `z`.
pub proof fn lemma_ancestor_transitive(s: Seq<bool>, x: int, y: int, z: int, cx: int, cy: int)
    requires
        valid_parens(s),
        is_node(s, x),
        is_node(s, y),
        matches(s, x, cx),
        matches(s, y, cy),
        x <= y <= cx,
        y <= z <= cy,
    ensures
        x <= z <= cx,
{
    lemma_find_close_matches(s, x, cx);
    if y == x {
        lemma_matches_unique(s, x, cx, cy);
    } else {
        assert(y != cx);
        lemma_inside_close(s, x, cx, y);
        lemma_fall(s, y, cx, excess(s, y) - 1);
        let k = choose|k: int|
            y < k <= cx && #[trigger] excess(s, k) == excess(s, y) - 1 && excess(s, k - 1) == excess(
                s,
                y,
            ) - 1 + 1;
        if cy > k {
            assert(excess(s, k) != excess(s, y) - 1);
        }
    }
}

/// Before every node of a valid pre-order depth sequence the excess stays
/// at least 1, and after the last it is that node's depth plus one.
proof fn lemma_preorder_prefix(ds: Seq<u64>)
    requires
        preorder_depths_ok(ds),
        ds.len() >= 1,
    ensures
        total(preorder_prefix(ds)) == ds.last() + 1,
        forall|i: int|
            0 <= i < preorder_prefix(ds).len() ==> #[trigger] excess(preorder_prefix(ds), i) >= 1,
    decreases ds.len(),
{
    let p = preorder_prefix(ds);
    let k = ds.len() - 1;
    let d = ds[k];
    if k == 0 {
        assert(ds.drop_last().len() == 0);
        assert(preorder_prefix(ds.drop_last()) == Seq::<bool>::empty());
        assert(repeat(false, 0) =~= Seq::<bool>::empty());
        assert(p == Seq::<bool>::empty() + repeat(false, 0) + seq![true]);
        assert(p =~= seq![true]);
        assert(excess(p, 0) == excess(p, -1) + step(p[0]));
    } else {
        let dsp = ds.drop_last();
        assert(preorder_depths_ok(dsp)) by {
            assert forall|j: int| 1 <= j < dsp.len() implies 1 <= #[trigger] dsp[j] <= dsp[j - 1]
                + 1 by {
                assert(dsp[j] == ds[j] && dsp[j - 1] == ds[j - 1]);
            }
        }
        lemma_preorder_prefix(dsp);
        let a = preorder_prefix(dsp);
        let dp = ds[k - 1];
        assert(1 <= d <= dp + 1);
        let closes = (dp + 1 - d) as nat;
        let b = repeat(false, closes) + seq![true];
        assert(p =~= a + b);
        assert forall|i: int| 0 <= i < p.len() implies #[trigger] excess(p, i) >= 1 by {
            if i < a.len() {
                lemma_prefix_agree(p, a, i);
            } else {
                let j = i - a.len();
                lemma_excess_concat(a, b, j);
                if j < closes {
                    lemma_prefix_agree(b, repeat(false, closes), j);
                    lemma_excess_repeat(false, closes, j);
                } else {
                    lemma_excess_concat(repeat(false, closes), seq![true], 0);
                    lemma_excess_repeat(false, closes, closes - 1);
                    assert(excess(seq![true], 0) == excess(seq![true], -1) + step(seq![true][0]));
                }
            }
        }
        lemma_excess_concat(a, b, b.len() - 1);
        lemma_excess_concat(repeat(false, closes), seq![true], 0);
        lemma_excess_repeat(false, closes, closes - 1);
        assert(excess(seq![true], 0) == excess(seq![true], -1) + step(seq![true][0]));
    }
}

/// Equivalence under construction: the depths of a tree in pre-order give a
/// valid sequence, so `from_preorder(depths)` succeeds and equals
/// `from_bitvec(bp_encoding(depths))`, which succeeds too.
pub proof fn lemma_preorder_encoding_valid(ds: Seq<u64>)
    requires
        preorder_depths_ok(ds),
    ensures
        valid_parens(bp_encoding(ds)),
{
    if ds.len() > 0 {
        lemma_preorder_prefix(ds);
        let a = preorder_prefix(ds);
        let m = (ds.last() + 1) as nat;
        let e = bp_encoding(ds);
        assert(e == a + repeat(false, m));
        assert forall|i: int| 0 <= i < e.len() - 1 implies #[trigger] excess(e, i) >= 1 by {
            if i < a.len() {
                lemma_prefix_agree(e, a, i);
            } else {
                lemma_excess_concat(a, repeat(false, m), i - a.len());
                lemma_excess_repeat(false, m, i - a.len());
            }
        }
        lemma_excess_concat(a, repeat(false, m), m - 1);
        lemma_excess_repeat(false, m, m - 1);
    }
}

/// `c` is a child of node `x`: a node whose enclosing node is `x`.
pub open spec fn is_child(s: Seq<bool>, x: int, c: int) -> bool {
    is_node(s, c) && encloses(s, c, x)
}

/// From a child `c` of `x` with closing bit `cc`: the excess stays at least
/// `E(x)` up to `cc`, no child of `x` lies in `(c, cc]`, and the bit after
/// `cc`, if it opens, is the next child of `x`.
proof fn lemma_sibling_step(s: Seq<bool>, x: int, c: int, cc: int)
    requires
        valid_parens(s),
        is_node(s, x),
        is_node(s, c),
        x < c,
        excess(s, c) == excess(s, x) + 1,
        forall|k: int| x < k < c ==> #[trigger] excess(s, k) >= excess(s, x),
        first_hit(s, c + 1, excess(s, c) - 1, cc),
    ensures
        forall|k: int| x < k <= cc ==> #[trigger] excess(s, k) >= excess(s, x),
        excess(s, cc) == excess(s, x),
        cc + 1 < s.len(),
        forall|k: int| c < k <= cc ==> !#[trigger] is_child(s, x, k),
        s[cc + 1] ==> is_child(s, x, cc + 1) && excess(s, cc + 1) == excess(s, x) + 1,
{
    lemma_node_facts(s, x);
    assert forall|k: int| x < k <= cc implies #[trigger] excess(s, k) >= excess(s, x) by {
        if c < k < cc && excess(s, k) < excess(s, x) {
            lemma_fall(s, c, k, excess(s, c) - 1);
            let j = choose|j: int|
                c < j <= k && #[trigger] excess(s, j) == excess(s, c) - 1 && excess(s, j - 1)
                    == excess(s, c) - 1 + 1;
            assert(excess(s, j) != excess(s, c) - 1);
        }
    }
    assert(excess(s, s.len() - 1) == 0);
    assert forall|k: int| c < k <= cc implies !#[trigger] is_child(s, x, k) by {
        if is_child(s, x, k) {
            assert(excess(s, k) == excess(s, k - 1) + step(s[k]));
            if k - 1 > c {
                assert(excess(s, k - 1) != excess(s, c) - 1);
            }
        }
    }
    if s[cc + 1] {
        let y = cc + 1;
        assert(excess(s, y) == excess(s, cc) + step(s[y]));
        assert forall|k: int| x < k < y && s[k] implies #[trigger] excess(s, k) != parent_level(
            s,
            y,
        ) by {
            assert(excess(s, k) == excess(s, k - 1) + step(s[k]));
            if k - 1 > x {
                assert(excess(s, k - 1) >= excess(s, x));
            }
        }
    }
}

/// Past the closing bit `cc` of a child of `x`, where no sibling follows,
/// there is no child of `x`.
proof fn lemma_no_child_after(s: Seq<bool>, x: int, cc: int)
    requires
        valid_parens(s),
        is_node(s, x),
        x < cc < s.len() - 1,
        excess(s, cc) == excess(s, x),
        !s[cc + 1],
    ensures
        forall|k: int| cc < k ==> !#[trigger] is_child(s, x, k),
{
    assert(excess(s, cc + 1) == excess(s, cc) + step(s[cc + 1]));
    assert forall|k: int| cc < k implies !#[trigger] is_child(s, x, k) by {
        if is_child(s, x, k) {
            assert(excess(s, k) == excess(s, x) + 1);
            lemma_climb(s, cc + 1, k, excess(s, x));
            let j = choose|j: int|
                cc + 1 < j <= k && #[trigger] excess(s, j) == excess(s, x) && excess(s, j - 1)
                    == excess(s, x) - 1;
            assert(excess(s, j) == excess(s, j - 1) + step(s[j]));
            assert(x < j < k && s[j]);
        }
    }
}

/// A tree in balanced-parentheses form with labels in pre-order.
#[derive(Debug)]
pub struct BPTree<L> {
    labels: Vec<L>,
    rankselect: RankSelect,
    minmax: MinMax,
}

impl<L> View for BPTree<L> {
    type V = Seq<bool>;

    closed spec fn view(&self) -> Seq<bool> {
        self.minmax.bits_view()
    }
}

impl<L> BPTree<L> {
    /// The labels, in pre-order.
    pub closed spec fn labels_view(&self) -> Seq<L> {
        self.labels@
    }

    /// The tree's invariant: valid bits, with both indices over them.
    pub closed spec fn wf(&self) -> bool {
        &&& self.minmax.wf()
        &&& self.minmax.bits_view().len() <= MAX_BITS
        &&& valid_parens(self.minmax.bits_view())
        &&& indexed_bits(self.rankselect) == self.minmax.bits_view()
    }

    /// Whether `index` is within the bits.
    pub fn is_valid_index(&self, index: u64) -> (r: Result<bool, NodeError>)
        requires
            self.wf(),
        ensures
            match r {
                Ok(b) => b && index < self@.len(),
                Err(e) => index >= self@.len() && e == NodeError::NotANodeError,
            },
    {
        if index >= self.minmax.bits().len() as u64 {
            Err(NodeError::NotANodeError)
        } else {
            Ok(true)
        }
    }

    /// Checks that `index` is a node: the position of an opening bit.
    fn check_node(&self, index: u64) -> (r: Result<(), NodeError>)
        requires
            self.wf(),
        ensures
            match r {
                Ok(_) => is_node(self@, index as int),
                Err(e) => !is_node(self@, index as int) && e == NodeError::NotANodeError,
            },
    {
        let bits = self.minmax.bits();
        if index >= bits.len() as u64 || !bits[index as usize] {
            Err(NodeError::NotANodeError)
        } else {
            Ok(())
        }
    }

    /// Whether node `index` is a leaf: the bit after it closes it.
    pub fn is_leaf(&self, index: u64) -> (r: Result<bool, NodeError>)
        requires
            self.wf(),
        ensures
            match r {
                Ok(b) => is_node(self@, index as int) && b == !self@[index + 1],
                Err(e) => !is_node(self@, index as int) && e == NodeError::NotANodeError,
            },
    {
        self.check_node(index)?;
        proof {
            lemma_node_facts(self@, index as int);
        }
        let bits = self.minmax.bits();
        assert(index + 1 < bits.len());
        Ok(!bits[(index + 1) as usize])
    }

    /// The parent of node `index`: the opening bit that encloses it.
    pub fn parent(&self, index: u64) -> (r: Result<u64, NodeError>)
        requires
            self.wf(),
        ensures
            match r {
                Ok(q) => is_node(self@, index as int) && index > 0 && encloses(
                    self@,
                    index as int,
                    q as int,
                ),
                Err(e) => (!is_node(self@, index as int) && e == NodeError::NotANodeError) || (
                is_node(self@, index as int) && index == 0 && e == NodeError::HasNoParentError),
            },
    {
        self.check_node(index)?;
        if index == 0 {
            return Err(NodeError::HasNoParentError);
        }
        match self.minmax.enclose(index) {
            Ok(q) => Ok(q),
            Err(e) => {
                proof {
                    lemma_parent_exists(self@, index as int);
                }
                Err(e)
            },
        }
    }

    /// The first child of node `index`, the node right after it.
    pub fn first_child(&self, index: u64) -> (r: Result<u64, NodeError>)
        requires
            self.wf(),
        ensures
            match r {
                Ok(c) => is_node(self@, index as int) && self@[index + 1] && c == index + 1,
                Err(e) => (!is_node(self@, index as int) && e == NodeError::NotANodeError) || (
                is_node(self@, index as int) && !self@[index + 1] && e
                    == NodeError::NotAParentError),
            },
    {
        if self.is_leaf(index)? {
            Err(NodeError::NotAParentError)
        } else {
            Ok(index + 1)
        }
    }

    /// The closing bit of node `index`.
    fn close_of(&self, index: u64) -> (c: u64)
        requires
            self.wf(),
            is_node(self@, index as int),
        ensures
            matches(self@, index as int, c as int),
    {
        match self.minmax.find_close(index) {
            Ok(c) => c,
            Err(_) => {
                proof {
                    lemma_close_exists(self@, index as int);
                }
                0
            },
        }
    }

    /// The next sibling of node `index`: the node right after its closing bit.
    pub fn next_sibling(&self, index: u64) -> (r: Result<u64, NodeError>)
        requires
            self.wf(),
        ensures
            match r {
                Ok(y) => is_node(self@, index as int) && matches(self@, index as int, y - 1)
                    && is_node(self@, y as int),
                Err(e) => (!is_node(self@, index as int) && e == NodeError::NotANodeError) || (
                is_node(self@, index as int) && e == NodeError::NoSiblingError && forall|c: int|
                    #[trigger] matches(self@, index as int, c) ==> !is_node(self@, c + 1)),
            },
    {
        self.check_node(index)?;
        let c = self.close_of(index);
        let bits = self.minmax.bits();
        proof {
            assert forall|c2: int| #[trigger] matches(self@, index as int, c2) implies c2 == c by {
                lemma_matches_unique(self@, index as int, c as int, c2);
            }
        }
        if c + 1 < bits.len() as u64 && bits[(c + 1) as usize] {
            Ok(c + 1)
        } else {
            Err(NodeError::NoSiblingError)
        }
    }

    /// The depth of node `index`, counting the root as 1: its excess.
    pub fn depth(&self, index: u64) -> (r: Result<u64, NodeError>)
        requires
            self.wf(),
        ensures
            match r {
                Ok(d) => is_node(self@, index as int) && d == excess(self@, index as int),
                Err(e) => !is_node(self@, index as int) && e == NodeError::NotANodeError,
            },
    {
        self.check_node(index)?;
        proof {
            lemma_node_facts(self@, index as int);
        }
        match self.minmax.excess(index) {
            Ok(e) => Ok(e as u64),
            Err(e) => Err(e),
        }
    }

    /// The number of nodes in the subtree of node `index`: half the bits
    /// from its opening to its closing bit.
    pub fn subtree_size(&self, index: u64) -> (r: Result<u64, NodeError>)
        requires
            self.wf(),
        ensures
            match r {
                Ok(z) => is_node(self@, index as int) && forall|c: int|
                    #[trigger] matches(self@, index as int, c) ==> z == (c - index + 1) / 2,
                Err(e) => !is_node(self@, index as int) && e == NodeError::NotANodeError,
            },
    {
        self.check_node(index)?;
        let c = self.close_of(index);
        proof {
            assert forall|c2: int| #[trigger] matches(self@, index as int, c2) implies c2 == c by {
                lemma_matches_unique(self@, index as int, c as int, c2);
            }
        }
        Ok((c - index + 1) / 2)
    }

    /// Whether node `x` is an ancestor of node `y` (or `y` itself): `y` lies
    /// between the opening and the closing bit of `x`.
    pub fn ancestor(&self, x: u64, y: u64) -> (r: Result<bool, NodeError>)
        requires
            self.wf(),
        ensures
            match r {
                Ok(b) => is_node(self@, x as int) && is_node(self@, y as int) && forall|c: int|
                    #[trigger] matches(self@, x as int, c) ==> b == (x <= y && y <= c),
                Err(e) => !(is_node(self@, x as int) && is_node(self@, y as int)) && e
                    == NodeError::NotANodeError,
            },
    {
        self.check_node(x)?;
        self.check_node(y)?;
        let c = self.close_of(x);
        proof {
            assert forall|c2: int| #[trigger] matches(self@, x as int, c2) implies c2 == c by {
                lemma_matches_unique(self@, x as int, c as int, c2);
            }
        }
        Ok(x <= y && y <= c)
    }

    /// The pre-order number (from 1) of the node at `index`: the number of
    /// opening bits up to it.
    pub fn pre_rank(&self, index: u64) -> (r: Option<u64>)
        requires
            self.wf(),
        ensures
            index < self@.len() ==> r == Some(rank(self@, true, index as int) as u64),
            index >= self@.len() ==> r == None::<u64>,
    {
        rank_1(&self.rankselect, index)
    }

    /// The node with pre-order number `rank` (from 1).
    pub fn pre_select(&self, rank: u64) -> (r: Option<u64>)
        requires
            self.wf(),
        ensures
            select(self@, true, rank as int) >= 0 ==> r == Some(
                select(self@, true, rank as int) as u64,
            ),
            select(self@, true, rank as int) < 0 ==> r == None::<u64>,
    {
        if self.minmax.bits().len() == 0 {
            return None;
        }
        select_1(&self.rankselect, rank)
    }

    /// The label of node `index`, the entry at its pre-order number.
    pub fn child_label(&self, index: u64) -> (r: Result<&L, NodeError>)
        requires
            self.wf(),
        ensures
            match r {
                Ok(l) => is_node(self@, index as int) && rank(self@, true, index as int) - 1
                    < self.labels_view().len() && *l == self.labels_view()[rank(
                    self@,
                    true,
                    index as int,
                ) - 1],
                Err(e) => (!is_node(self@, index as int) && e == NodeError::NotANodeError) || (
                is_node(self@, index as int) && rank(self@, true, index as int) - 1
                    >= self.labels_view().len() && e == NodeError::NoLabelError),
            },
    {
        self.check_node(index)?;
        let k = match rank_1(&self.rankselect, index) {
            Some(k) => k,
            None => 0,
        };
        proof {
            assert(rank(self@, true, index as int) == rank(self@, true, index - 1) + 1);
            crate::bits::lemma_rank_excess(self@, index - 1);
        }
        if k - 1 < self.labels.len() as u64 {
            Ok(&self.labels[(k - 1) as usize])
        } else {
            Err(NodeError::NoLabelError)
        }
    }

    /// The rank/select index over the tree's bits.
    pub fn rank_select(&self) -> (r: &RankSelect)
        requires
            self.wf(),
        ensures
            indexed_bits(*r) == self@,
    {
        &self.rankselect
    }

    /// `BPTree`, then the bits as `bv` shows them.
    pub fn debug_string(&self) -> (r: String)
        requires
            self.wf(),
        ensures
            r@ == "BPTree\n  { bits: "@ + bits_debug_text(self@) + " }"@,
    {
        let shown = bits_debug(&self.rankselect);
        let mut out = String::from_str("BPTree\n  { bits: ");
        out.append(shown.as_str());
        out.append(" }");
        out
    }

    /// The tree's bits.
    pub fn bits(&self) -> (r: &Vec<bool>)
        ensures
            r@ == self@,
    {
        self.minmax.bits()
    }

    /// Builds the tree over `bits` with the given labels, if the bits are valid.
    fn build(bits: Vec<bool>, labels: Vec<L>) -> (r: Result<Self, InvalidBitvecError>)
        requires
            bits@.len() <= MAX_BITS,
        ensures
            match r {
                Ok(t) => valid_parens(bits@) && t.wf() && t@ == bits@ && t.labels_view() == labels@,
                Err(_) => !valid_parens(bits@),
            },
    {
        if !is_valid(&bits) {
            return Err(InvalidBitvecError);
        }
        let k = calc_superblock_size(bits.len() as u64);
        let rankselect = new_rank_select(&bits, k);
        let minmax = MinMax::new(bits, BLOCK_SIZE);
        Ok(BPTree { labels, rankselect, minmax })
    }

    /// A tree without labels over `bitvec`, if it is a valid sequence.
    pub fn from_bitvec(bitvec: Vec<bool>) -> (r: Result<Self, InvalidBitvecError>)
        requires
            bitvec@.len() <= MAX_BITS,
        ensures
            match r {
                Ok(t) => valid_parens(bitvec@) && t.wf() && t@ == bitvec@ && t.labels_view().len()
                    == 0,
                Err(_) => !valid_parens(bitvec@),
            },
    {
        Self::build(bitvec, Vec::new())
    }

    /// The tree of a root alone, without labels.
    pub fn stub_create() -> (r: Self)
        ensures
            r.wf(),
            r@ == seq![true, false],
    {
        let bits = vec![true, false];
        proof {
            let s = bits@;
            assert(excess(s, 0) == excess(s, -1) + step(s[0]));
            assert(excess(s, 1) == excess(s, 0) + step(s[1]));
        }
        let rankselect = new_rank_select(&bits, 1);
        let minmax = MinMax::new(bits, BLOCK_SIZE);
        BPTree { labels: Vec::new(), rankselect, minmax }
    }

    /// The tree whose nodes have the pre-order depths `depths` and the
    /// labels `labels` (in pre-order); an error where there is no node or
    /// the depths are not a tree's.
    pub fn from_preorder(depths: &Vec<u64>, labels: Vec<L>) -> (r: Result<Self, InvalidBitvecError>)
        requires
            depths@.len() <= MAX_BITS / 2,
        ensures
            match r {
                Ok(t) => depths@.len() > 0 && preorder_depths_ok(depths@) && valid_parens(
                    bp_encoding(depths@),
                ) && t.wf() && t@ == bp_encoding(depths@) && t.labels_view() == labels@,
                Err(_) => depths@.len() == 0 || !preorder_depths_ok(depths@) || !valid_parens(
                    bp_encoding(depths@),
                ),
            },
    {
        if depths.len() == 0 || !check_preorder(depths) {
            return Err(InvalidBitvecError);
        }
        let bits = preorder_bits(depths);
        Self::build(bits, labels)
    }
}


/// The enclosing node of a bracket is unique.
pub proof fn lemma_encloses_unique(s: Seq<bool>, i: int, q1: int, q2: int)
    requires
        encloses(s, i, q1),
        encloses(s, i, q2),
    ensures
        q1 == q2,
{
    if q1 < q2 {
        assert(excess(s, q2) != parent_level(s, i));
    } else if q2 < q1 {
        assert(excess(s, q1) != parent_level(s, i));
    }
}

impl<L> SuccinctTree<L> for BPTree<L> {
    open spec fn inv(&self) -> bool {
        self.wf()
    }

    open spec fn node(&self, i: int) -> bool {
        is_node(self@, i)
    }

    open spec fn leaf(&self, i: int) -> bool {
        !self@[i + 1]
    }

    open spec fn root(&self, i: int) -> bool {
        i == 0
    }

    open spec fn parent_at(&self, i: int) -> int {
        choose|q: int| encloses(self@, i, q)
    }

    open spec fn first_child_at(&self, i: int) -> int {
        i + 1
    }

    open spec fn has_next_sibling(&self, i: int) -> bool {
        exists|c: int| #[trigger] matches(self@, i, c) && is_node(self@, c + 1)
    }

    open spec fn next_sibling_at(&self, i: int) -> int {
        (choose|c: int| matches(self@, i, c)) + 1
    }

    open spec fn labels(&self) -> Seq<L> {
        self.labels_view()
    }

    open spec fn label_index(&self, i: int) -> int {
        rank(self@, true, i) - 1
    }

    fn is_leaf(&self, index: u64) -> (r: Result<bool, NodeError>) {
        BPTree::is_leaf(self, index)
    }

    fn parent(&self, index: u64) -> (r: Result<u64, NodeError>) {
        let r = BPTree::parent(self, index);
        if let Ok(q) = r {
            proof {
                let q2 = choose|q2: int| encloses(self@, index as int, q2);
                lemma_encloses_unique(self@, index as int, q as int, q2);
            }
        }
        r
    }

    fn first_child(&self, index: u64) -> (r: Result<u64, NodeError>) {
        BPTree::first_child(self, index)
    }

    fn next_sibling(&self, index: u64) -> (r: Result<u64, NodeError>) {
        let r = BPTree::next_sibling(self, index);
        if let Ok(y) = r {
            proof {
                assert(matches(self@, index as int, y - 1));
                let c2 = choose|c2: int| matches(self@, index as int, c2);
                lemma_matches_unique(self@, index as int, y - 1, c2);
            }
        }
        r
    }

    fn child_label(&self, index: u64) -> (r: Result<&L, NodeError>) {
        BPTree::child_label(self, index)
    }
}

impl<L> PartialEq for BPTree<L> {
    /// Two trees are equal when their bits are; labels are not compared.
    fn eq(&self, other: &Self) -> (r: bool) {
        same_bits(self.minmax.bits(), other.minmax.bits())
    }
}

impl<L> vstd::std_specs::cmp::PartialEqSpecImpl for BPTree<L> {
    open spec fn obeys_eq_spec() -> bool {
        true
    }

    open spec fn eq_spec(&self, other: &Self) -> bool {
        self@ == other@
    }
}

impl<L: PartialEq> BPTree<L> {
    /// The first child of node `index`, in order, whose label equals `label`.
    pub fn labeled_child(&self, index: u64, label: L) -> (r: Result<u64, NodeError>)
        requires
            self.wf(),
        ensures
            match r {
                Ok(c) => is_child(self@, index as int, c as int) && (L::obeys_eq_spec()
                    ==> self.labels_view()[rank(self@, true, c as int) - 1].eq_spec(&label)) && (
                L::obeys_eq_spec() ==> forall|k: int|
                    index < k < c && #[trigger] is_child(self@, index as int, k)
                        ==> !self.labels_view()[rank(self@, true, k) - 1].eq_spec(&label)),
                Err(e) => (!is_node(self@, index as int) && e == NodeError::NotANodeError) || (
                is_node(self@, index as int) && !self@[index + 1] && e
                    == NodeError::NotAParentError) || (is_node(self@, index as int) && e
                    == NodeError::NoLabelError && exists|c: int|
                    #[trigger] is_child(self@, index as int, c) && rank(self@, true, c) - 1
                        >= self.labels_view().len() && (L::obeys_eq_spec() ==> forall|k: int|
                        index < k < c && #[trigger] is_child(self@, index as int, k)
                            ==> !self.labels_view()[rank(self@, true, k) - 1].eq_spec(&label)))
                    || (is_node(self@, index as int) && e == NodeError::NoSuchChildError && (
                L::obeys_eq_spec() ==> forall|c: int|
                    #[trigger] is_child(self@, index as int, c) ==> !self.labels_view()[rank(
                        self@,
                        true,
                        c,
                    ) - 1].eq_spec(&label))),
            },
    {
        let ghost sq = self@;
        let ghost x = index as int;
        let first = self.first_child(index)?;
        proof {
            lemma_node_facts(sq, x);
            assert(excess(sq, x + 1) == excess(sq, x) + step(sq[x + 1]));
        }
        let mut c = first;
        loop
            invariant
                self.wf(),
                sq == self@,
                x == index,
                is_node(sq, x),
                x < c < sq.len(),
                is_child(sq, x, c as int),
                excess(sq, c as int) == excess(sq, x) + 1,
                forall|k: int| x < k < c ==> #[trigger] excess(sq, k) >= excess(sq, x),
                L::obeys_eq_spec() ==> forall|k: int|
                    x < k < c && #[trigger] is_child(sq, x, k) ==> !self.labels_view()[rank(
                        sq,
                        true,
                        k,
                    ) - 1].eq_spec(&label),
            decreases sq.len() - c,
        {
            let here = match self.child_label(c) {
                Ok(l) => l,
                Err(e) => {
                    assert(is_child(sq, x, c as int));
                    return Err(e);
                },
            };
            let same = *here == label;
            if same {
                return Ok(c);
            }
            let cc = self.close_of(c);
            proof {
                lemma_sibling_step(sq, x, c as int, cc as int);
            }
            match self.next_sibling(c) {
                Ok(y) => {
                    proof {
                        lemma_matches_unique(sq, c as int, cc as int, y - 1);
                    }
                    c = y;
                },
                Err(_) => {
                    proof {
                        lemma_no_child_after(sq, x, cc as int);
                    }
                    return Err(NodeError::NoSuchChildError);
                },
            }
        }
    }
}

/// Whether `depths` are the pre-order depths of a tree.
fn check_preorder(depths: &Vec<u64>) -> (r: bool)
    ensures
        r == preorder_depths_ok(depths@),
{
    let ghost ds = depths@;
    let m = depths.len();
    let mut k: usize = 0;
    while k < m
        invariant
            m == ds.len(),
            ds == depths@,
            k <= m,
            k > 0 ==> ds[0] == 0,
            forall|j: int| 1 <= j < k ==> 1 <= #[trigger] ds[j] <= ds[j - 1] + 1,
        decreases m - k,
    {
        let d = depths[k];
        if k == 0 {
            if d != 0 {
                return false;
            }
        } else {
            if d < 1 || d - 1 > depths[k - 1] {
                assert(!(1 <= ds[k as int] <= ds[k - 1] + 1));
                return false;
            }
        }
        k = k + 1;
    }
    true
}

/// The balanced-parentheses bits of the tree with pre-order depths `depths`.
#[verifier::rlimit(40)]
pub fn preorder_bits(depths: &Vec<u64>) -> (r: Vec<bool>)
    requires
        preorder_depths_ok(depths@),
        depths@.len() <= MAX_BITS / 2,
    ensures
        r@ == bp_encoding(depths@),
        r@.len() == 2 * depths@.len(),
{
    let ghost ds = depths@;
    let m = depths.len();
    let mut bits: Vec<bool> = Vec::new();
    if m == 0 {
        return bits;
    }
    let mut k: usize = 0;
    while k < m
        invariant
            m == ds.len(),
            ds == depths@,
            preorder_depths_ok(ds),
            m <= MAX_BITS / 2,
            k <= m,
            bits@ == preorder_prefix(ds.take(k as int)),
            k > 0 ==> bits@.len() == 2 * k - 1 - ds[k - 1],
            k > 0 ==> ds[k - 1] <= k - 1,
        decreases m - k,
    {
        let ghost tk = ds.take(k + 1);
        if k > 0 {
            assert(1 <= ds[k as int] <= ds[k - 1] + 1);
        }
        let closes: u64 = if k == 0 {
            0
        } else {
            depths[k - 1] + 1 - depths[k]
        };
        assert(tk.drop_last() == ds.take(k as int));
        assert(tk.len() == k + 1 && tk[k as int] == ds[k as int]);
        assert(k > 0 ==> tk[k - 1] == ds[k - 1]);
        assert(preorder_prefix(tk) == preorder_prefix(ds.take(k as int)) + repeat(
            false,
            closes as nat,
        ) + seq![true]);
        let mut j: u64 = 0;
        while j < closes
            invariant
                j <= closes,
                bits@ == preorder_prefix(ds.take(k as int)) + repeat(false, j as nat),
            decreases closes - j,
        {
            bits.push(false);
            assert(repeat(false, (j + 1) as nat) == repeat(false, j as nat).push(false));
            j = j + 1;
        }
        bits.push(true);
        assert(bits@ == preorder_prefix(tk));
        k = k + 1;
    }
    assert(ds.take(m as int) == ds);
    let last = depths[m - 1];
    let mut j: u64 = 0;
    while j <= last
        invariant
            j <= last + 1,
            last == ds.last(),
            bits@ == preorder_prefix(ds) + repeat(false, j as nat),
            bits@.len() == 2 * m - 1 - last + j,
            last <= m - 1,
            m <= MAX_BITS / 2,
        decreases last + 1 - j,
    {
        bits.push(false);
        assert(repeat(false, (j + 1) as nat) == repeat(false, j as nat).push(false));
        j = j + 1;
    }
    bits
}

} // verus!
