//! The level-order unary degree sequence: a leading 1-bit for a super-root,
//! then, for each node in level order, one 1-bit per child and a 0-bit. A
//! node is named by the position where its run starts; the root is at 1.
//! The `k`-th 1-bit (from 1) refers to the `k`-th node in level order.

use bio::data_structures::rank_select::RankSelect;
use crate::bits::{
    excess, is_valid, lemma_excess_concat, lemma_excess_repeat, lemma_select_unique, total, lemma_rank_excess, lemma_rank_mono, lemma_select, rank, repeat, select, step,
    valid_parens,
};
use crate::errors::{InvalidBitvecError, NodeError};
use crate::succinct_tree::SuccinctTree;
use crate::min_max::MAX_BITS;
use crate::rank_select::{
    bit_count, bits_debug, bits_debug_text, calc_superblock_size, get, indexed_bits, new_rank_select, rank_0,
    rank_1, select_0, select_1,
};
use vstd::prelude::*;
use vstd::std_specs::cmp::PartialEqSpec;
use vstd::string::*;

verus! {

/// `x` is a node: the root at 1, or a position right after a 0-bit.
pub open spec fn is_louds_node(s: Seq<bool>, x: int) -> bool {
    1 <= x < s.len() && (x == 1 || !s[x - 1])
}

/// The level-order number (from 1) of node `x`: one more than the 0-bits before it.
pub open spec fn node_number(s: Seq<bool>, x: int) -> int {
    rank(s, false, x - 1) + 1
}

/// The start of the run that holds position `p`.
pub open spec fn run_start(s: Seq<bool>, p: int) -> int {
    if rank(s, false, p) == 0 {
        1
    } else {
        select(s, false, rank(s, false, p)) + 1
    }
}

/// The 1-bit that refers to node `x`.
pub open spec fn pointer_of(s: Seq<bool>, x: int) -> int {
    select(s, true, node_number(s, x))
}

/// The parent of node `x`: the node whose run holds the 1-bit referring to `x`.
pub open spec fn parent_of(s: Seq<bool>, x: int) -> int {
    run_start(s, pointer_of(s, x))
}

/// The position of the `k`-th child of `x`: the start of the run of the
/// node that the `k`-th 1-bit of `x`'s run refers to.
pub open spec fn child_of(s: Seq<bool>, x: int, k: int) -> int {
    select(s, false, rank(s, true, x) + k - 2) + 1
}

/// Where the next sibling of node `x` would start: after the 0-bit that
/// ends `x`'s run.
pub open spec fn sibling_candidate(s: Seq<bool>, x: int) -> int {
    select(s, false, rank(s, false, x - 1) + 1) + 1
}

/// The number of children of node `x`: the length of its run of 1-bits.
pub open spec fn degree_of(s: Seq<bool>, x: int) -> int {
    if !s[x] {
        0
    } else {
        select(s, false, rank(s, false, x) + 1) - x
    }
}

/// The LOUDS bits of a tree whose nodes, in level order, have the given
/// numbers of children.
pub open spec fn louds_encoding(degrees: Seq<u64>) -> Seq<bool>
    decreases degrees.len(),
{
    if degrees.len() == 0 {
        seq![true]
    } else {
        louds_encoding(degrees.drop_last()) + repeat(true, degrees.last() as nat) + seq![false]
    }
}

/// The sum of `degrees`.
pub open spec fn degree_sum(degrees: Seq<u64>) -> int
    decreases degrees.len(),
{
    if degrees.len() == 0 {
        0
    } else {
        degree_sum(degrees.drop_last()) + degrees.last()
    }
}

/// The LOUDS bits of `degrees` hold one 1-bit more than the degrees add up
/// to, and one 0-bit per node.
proof fn lemma_louds_total(ds: Seq<u64>)
    ensures
        louds_encoding(ds).len() == 1 + degree_sum(ds) + ds.len(),
        total(louds_encoding(ds)) == 1 + degree_sum(ds) - ds.len(),
    decreases ds.len(),
{
    if ds.len() == 0 {
        assert(excess(seq![true], 0) == excess(seq![true], -1) + step(seq![true][0]));
    } else {
        let a = louds_encoding(ds.drop_last());
        let ones = repeat(true, ds.last() as nat);
        let b = ones + seq![false];
        lemma_louds_total(ds.drop_last());
        assert(louds_encoding(ds) == a + b);
        lemma_excess_repeat(true, ds.last() as nat, ds.last() - 1);
        lemma_excess_concat(ones, seq![false], 0);
        assert(excess(seq![false], 0) == excess(seq![false], -1) + step(seq![false][0]));
        lemma_excess_concat(a, b, b.len() - 1);
    }
}

/// A prefix of the degrees adds up to no more than all of them.
proof fn lemma_sum_prefix(ds: Seq<u64>, k: int)
    requires
        0 <= k <= ds.len(),
    ensures
        degree_sum(ds.take(k)) <= degree_sum(ds),
        k < ds.len() ==> degree_sum(ds.take(k + 1)) == degree_sum(ds.take(k)) + ds[k],
    decreases ds.len() - k,
{
    if k < ds.len() {
        assert(ds.take(k + 1).drop_last() == ds.take(k));
        lemma_sum_prefix(ds, k + 1);
    } else {
        assert(ds.take(k) == ds);
    }
}

/// In a valid sequence, a node other than the root is referred to by a
/// 1-bit before it, and every position lies in a run.
proof fn lemma_pointer(s: Seq<bool>, x: int)
    requires
        valid_parens(s),
        is_louds_node(s, x),
        x >= 2,
    ensures
        0 <= pointer_of(s, x) < x,
        s[pointer_of(s, x)],
        rank(s, true, pointer_of(s, x)) == node_number(s, x),
{
    assert(excess(s, x - 1) >= 1);
    lemma_rank_excess(s, x - 1);
    lemma_rank_mono(s, true, x - 1, s.len() - 1);
    lemma_select(s, true, node_number(s, x));
    let p = pointer_of(s, x);
    if p >= x {
        lemma_rank_mono(s, true, x - 1, p - 1);
        assert(rank(s, true, p) == rank(s, true, p - 1) + 1);
    }
}

/// The run start of a position exists.
proof fn lemma_run_start(s: Seq<bool>, p: int)
    requires
        0 <= p < s.len(),
    ensures
        rank(s, false, p) > 0 ==> {
            let z = select(s, false, rank(s, false, p));
            0 <= z <= p && !s[z]
        },
{
    if rank(s, false, p) > 0 {
        lemma_rank_mono(s, false, p, s.len() - 1);
        lemma_select(s, false, rank(s, false, p));
        let z = select(s, false, rank(s, false, p));
        if z > p {
            lemma_rank_mono(s, false, p, z - 1);
            assert(rank(s, false, z) == rank(s, false, z - 1) + 1);
        }
    }
}

/// The bits from an inner node `x` up to its `k`-th child's 1-bit are all
/// 1-bits.
proof fn lemma_run_ones(s: Seq<bool>, x: int, k: int)
    requires
        0 <= x < s.len(),
        s[x],
        1 <= k <= degree_of(s, x),
    ensures
        x + k - 1 < s.len(),
        s[x + k - 1],
        rank(s, false, x + k - 1) == rank(s, false, x),
        rank(s, true, x + k - 1) == rank(s, true, x) + k - 1,
    decreases k,
{
    let z = select(s, false, rank(s, false, x) + 1);
    lemma_select(s, false, rank(s, false, x) + 1);
    assert(z >= x + 1);
    assert(rank(s, false, z) == rank(s, false, z - 1) + 1);
    lemma_rank_mono(s, false, x + k - 1, z - 1);
    lemma_rank_mono(s, false, x, x + k - 1);
    lemma_rank_excess(s, x + k - 1);
    lemma_rank_excess(s, x);
    if k > 1 {
        lemma_run_ones(s, x, k - 1);
        lemma_rank_excess(s, x + k - 2);
        assert(rank(s, false, x + k - 1) == rank(s, false, x + k - 2) + if s[x + k - 1] {
            0int
        } else {
            1int
        });
    }
}

/// The parent of the `k`-th child of an inner node `x` is `x`.
pub proof fn lemma_parent_of_child(s: Seq<bool>, x: int, k: int)
    requires
        valid_parens(s),
        is_louds_node(s, x),
        s[x],
        1 <= k <= degree_of(s, x),
    ensures
        is_louds_node(s, child_of(s, x, k)),
        child_of(s, x, k) >= 2,
        parent_of(s, child_of(s, x, k)) == x,
{
    let n = s.len() as int;
    assert(excess(s, 0) == excess(s, -1) + step(s[0]));
    assert(excess(s, 0) >= 1);
    assert(s[0]);
    assert(rank(s, true, 0) == rank(s, true, -1) + 1);
    lemma_rank_mono(s, true, 0, x - 1);
    assert(rank(s, true, x) == rank(s, true, x - 1) + 1);
    lemma_run_ones(s, x, k);
    let j = rank(s, true, x) + k - 2;
    // as many 1-bits as 0-bits in all
    lemma_rank_excess(s, n - 1);
    lemma_rank_mono(s, true, x + k - 1, n - 1);
    lemma_select(s, false, j);
    lemma_select(s, false, j + 1);
    let q = select(s, false, j);
    let q2 = select(s, false, j + 1);
    if q2 <= q {
        lemma_rank_mono(s, false, q2, q);
    }
    let c = q + 1;
    assert(c == child_of(s, x, k));
    assert(rank(s, false, c - 1) == j);
    lemma_select_unique(s, true, j + 1, x + k - 1);
    assert(pointer_of(s, c) == x + k - 1);
    if x == 1 {
        assert(rank(s, false, 0) == rank(s, false, -1) + 0);
        assert(rank(s, false, 1) == rank(s, false, 0) + 0);
    } else {
        assert(rank(s, false, x) == rank(s, false, x - 1));
        lemma_rank_excess(s, x - 2);
        assert(rank(s, false, x - 1) == rank(s, false, x - 2) + 1);
        lemma_select_unique(s, false, rank(s, false, x - 1), x - 1);
    }
}

/// A tree in LOUDS form with labels in level order.
#[derive(Debug)]
pub struct LOUDSTree<L> {
    rankselect: RankSelect,
    labels: Vec<L>,
    bits_len: u64,
}

impl<L> View for LOUDSTree<L> {
    type V = Seq<bool>;

    closed spec fn view(&self) -> Seq<bool> {
        indexed_bits(self.rankselect)
    }
}

impl<L> LOUDSTree<L> {
    /// The labels, in level order.
    pub closed spec fn labels_view(&self) -> Seq<L> {
        self.labels@
    }

    /// The tree's invariant: valid bits of a known length.
    pub closed spec fn wf(&self) -> bool {
        &&& valid_parens(self@)
        &&& self.bits_len == self@.len()
        &&& self@.len() <= MAX_BITS
    }

    fn build(bits: &Vec<bool>, labels: Vec<L>) -> (r: Result<Self, InvalidBitvecError>)
        requires
            bits@.len() <= MAX_BITS,
        ensures
            match r {
                Ok(t) => valid_parens(bits@) && t.wf() && t@ == bits@ && t.labels_view() == labels@,
                Err(_) => !valid_parens(bits@),
            },
    {
        if !is_valid(bits) {
            return Err(InvalidBitvecError);
        }
        let k = calc_superblock_size(bits.len() as u64);
        let rankselect = new_rank_select(bits, k);
        Ok(LOUDSTree { rankselect, labels, bits_len: bits.len() as u64 })
    }

    /// A tree without labels over `bitvec`, if it is a valid sequence.
    pub fn from_bitvec(bitvec: Vec<bool>) -> (r: Result<Self, InvalidBitvecError>)
        requires
            bitvec@.len() <= MAX_BITS,
        ensures
            match r {
                Ok(t) => valid_parens(bitvec@) && t.wf() && t@ == bitvec@ && t.labels_view().len()
                    == 0,
                Err(_) => !valid_parens(bitvec@),
            },
    {
        Self::build(&bitvec, Vec::new())
    }

    /// The tree whose nodes, in level order, have `degrees` children and
    /// the labels `labels`; an error where the degrees are not a tree's.
    pub fn from_level_order(degrees: &Vec<u64>, labels: Vec<L>) -> (r: Result<
        Self,
        InvalidBitvecError,
    >)
        requires
            degrees@.len() < MAX_BITS / 2,
        ensures
            match r {
                Ok(t) => valid_parens(louds_encoding(degrees@)) && t.wf() && t@ == louds_encoding(
                    degrees@,
                ) && t.labels_view() == labels@,
                Err(_) => !valid_parens(louds_encoding(degrees@)),
            },
    {
        match louds_bits(degrees) {
            Some(bits) => Self::build(&bits, labels),
            None => Err(InvalidBitvecError),
        }
    }

    /// Checks that `index` is a node.
    fn check_node(&self, index: u64) -> (r: Result<(), NodeError>)
        requires
            self.wf(),
        ensures
            match r {
                Ok(_) => is_louds_node(self@, index as int),
                Err(e) => !is_louds_node(self@, index as int) && e == NodeError::NotANodeError,
            },
    {
        if index >= self.bits_len || index == 0 {
            return Err(NodeError::NotANodeError);
        }
        if index > 1 && get(&self.rankselect, index - 1) {
            return Err(NodeError::NotANodeError);
        }
        Ok(())
    }

    /// Whether node `index` is a leaf: its run holds no 1-bit.
    pub fn is_leaf(&self, index: u64) -> (r: Result<bool, NodeError>)
        requires
            self.wf(),
        ensures
            match r {
                Ok(b) => is_louds_node(self@, index as int) && b == !self@[index as int],
                Err(e) => !is_louds_node(self@, index as int) && e == NodeError::NotANodeError,
            },
    {
        self.check_node(index)?;
        Ok(!get(&self.rankselect, index))
    }

    /// The parent of node `index`.
    pub fn parent(&self, index: u64) -> (r: Result<u64, NodeError>)
        requires
            self.wf(),
        ensures
            match r {
                Ok(p) => is_louds_node(self@, index as int) && index >= 2 && p == parent_of(
                    self@,
                    index as int,
                ),
                Err(e) => (!is_louds_node(self@, index as int) && e == NodeError::NotANodeError) || (
                index == 1 && is_louds_node(self@, 1) && e == NodeError::RootNodeError),
            },
    {
        self.check_node(index)?;
        if index == 1 {
            return Err(NodeError::RootNodeError);
        }
        let ghost s = self@;
        proof {
            lemma_pointer(s, index as int);
            lemma_rank_excess(s, index - 1);
        }
        let z = rank_0(&self.rankselect, index - 1).unwrap();
        assert(z == rank(s, false, index - 1));
        let p1 = select_1(&self.rankselect, z + 1).unwrap();
        assert(p1 == pointer_of(s, index as int));
        proof {
            lemma_run_start(s, p1 as int);
            lemma_rank_excess(s, p1 as int);
            if p1 == 0 {
                assert(rank(s, true, 0) == rank(s, true, -1) + if s[0] {
                    1int
                } else {
                    0int
                });
            }
        }
        match self.prev_0(p1) {
            Some(q) => Ok(q + 1),
            None => Ok(1),
        }
    }

    /// The last 0-bit at or before `index`, if any.
    fn prev_0(&self, index: u64) -> (r: Option<u64>)
        requires
            self.wf(),
            index < self@.len(),
        ensures
            rank(self@, false, index as int) == 0 ==> r == None::<u64>,
            rank(self@, false, index as int) > 0 ==> r == Some(
                select(self@, false, rank(self@, false, index as int)) as u64,
            ),
    {
        proof {
            lemma_run_start(self@, index as int);
            lemma_select(self@, false, 0);
            lemma_rank_excess(self@, index as int);
        }
        let k = rank_0(&self.rankselect, index).unwrap();
        select_0(&self.rankselect, k)
    }

    /// The first 0-bit after the 0-bits up to `index`, if any.
    fn next_0(&self, index: u64) -> (r: Option<u64>)
        requires
            self.wf(),
            index < self@.len(),
        ensures
            select(self@, false, rank(self@, false, index as int) + 1) >= 0 ==> r == Some(
                select(self@, false, rank(self@, false, index as int) + 1) as u64,
            ),
            select(self@, false, rank(self@, false, index as int) + 1) < 0 ==> r == None::<u64>,
    {
        proof {
            lemma_rank_excess(self@, index as int);
        }
        let k = rank_0(&self.rankselect, index).unwrap();
        select_0(&self.rankselect, k + 1)
    }

    /// The `n`-th child (from 1) of node `index`, by the rank/select formula;
    /// `None` where the formula has no answer.
    pub fn child(&self, index: u64, n: u64) -> (r: Option<u64>)
        requires
            self.wf(),
        ensures
            (index < self@.len() && rank(self@, true, index as int) + n >= 2 && select(
                self@,
                false,
                rank(self@, true, index as int) + n - 2,
            ) >= 0) ==> r == Some(child_of(self@, index as int, n as int) as u64),
            !(index < self@.len() && rank(self@, true, index as int) + n >= 2 && select(
                self@,
                false,
                rank(self@, true, index as int) + n - 2,
            ) >= 0) ==> r == None::<u64>,
    {
        let ones = match rank_1(&self.rankselect, index) {
            Some(c) => c,
            None => return None,
        };
        proof {
            lemma_rank_excess(self@, index as int);
            lemma_rank_excess(self@, self@.len() - 1);
            lemma_select(self@, false, ones + n - 2);
        }
        if n > self.bits_len || ones + n < 2 {
            return None;
        }
        match select_0(&self.rankselect, ones + n - 2) {
            Some(z) => Some(z + 1),
            None => None,
        }
    }

    /// The first child of node `index`.
    pub fn first_child(&self, index: u64) -> (r: Result<u64, NodeError>)
        requires
            self.wf(),
        ensures
            match r {
                Ok(c) => is_louds_node(self@, index as int) && self@[index as int] && c == child_of(
                    self@,
                    index as int,
                    1,
                ),
                Err(e) => (!is_louds_node(self@, index as int) && e == NodeError::NotANodeError) || (
                is_louds_node(self@, index as int) && !self@[index as int] && e
                    == NodeError::NotAParentError),
            },
    {
        if self.is_leaf(index)? {
            return Err(NodeError::NotAParentError);
        }
        let ghost s = self@;
        proof {
            let x = index as int;
            assert(excess(s, 0) == excess(s, -1) + step(s[0]));
            assert(s[0]);
            lemma_rank_mono(s, true, 0, x - 1);
            assert(rank(s, true, x) == rank(s, true, x - 1) + 1);
            lemma_rank_excess(s, x);
            lemma_rank_excess(s, s.len() - 1);
            lemma_rank_mono(s, true, x, s.len() - 1);
            lemma_select(s, false, rank(s, true, x) - 1);
        }
        match self.child(index, 1) {
            Some(c) => Ok(c),
            None => Err(NodeError::NotAParentError),
        }
    }

    /// The number of children of node `index`.
    pub fn degree(&self, index: u64) -> (r: Result<u64, NodeError>)
        requires
            self.wf(),
        ensures
            match r {
                Ok(d) => is_louds_node(self@, index as int) && d == degree_of(self@, index as int),
                Err(e) => !is_louds_node(self@, index as int) && e == NodeError::NotANodeError,
            },
    {
        if self.is_leaf(index)? {
            return Ok(0);
        }
        let ghost s = self@;
        let ghost x = index as int;
        proof {
            // the last bit closes, so a 0-bit follows every 1-bit
            assert(excess(s, s.len() - 1) == excess(s, s.len() - 2) + step(s[s.len() - 1]));
            assert(!s[s.len() - 1]);
            lemma_rank_mono(s, false, x, s.len() - 2);
            assert(rank(s, false, s.len() - 1) == rank(s, false, s.len() - 2) + 1);
            lemma_rank_excess(s, x);
            lemma_select(s, false, rank(s, false, x) + 1);
            let z = select(s, false, rank(s, false, x) + 1);
            if z <= x {
                lemma_rank_mono(s, false, z, x);
            }
        }
        match self.next_0(index) {
            Some(z) => Ok(z - index),
            None => Err(NodeError::NotANodeError),
        }
    }

    /// The position (from 0) of node `index` among its siblings: the offset
    /// of the 1-bit referring to it within its parent's run.
    pub fn child_rank(&self, index: u64) -> (r: Option<u64>)
        requires
            self.wf(),
        ensures
            index <= 1 ==> r == Some(0u64),
            index > 1 && is_louds_node(self@, index as int) ==> r == Some(
                (pointer_of(self@, index as int) - parent_of(self@, index as int)) as u64,
            ),
            index > 1 && !is_louds_node(self@, index as int) ==> r == None::<u64>,
    {
        if index <= 1 {
            return Some(0);
        }
        if self.check_node(index).is_err() {
            return None;
        }
        let ghost s = self@;
        proof {
            lemma_pointer(s, index as int);
            lemma_rank_excess(s, index - 1);
            lemma_rank_excess(s, index - 2);
            assert(rank(s, false, index - 1) == rank(s, false, index - 2) + 1);
        }
        let z = rank_0(&self.rankselect, index - 1).unwrap();
        assert(z == rank(s, false, index - 1));
        let p1 = select_1(&self.rankselect, z + 1).unwrap();
        assert(p1 == pointer_of(s, index as int));
        proof {
            lemma_run_start(s, p1 as int);
            lemma_rank_excess(s, p1 as int);
            if p1 == 0 {
                assert(rank(s, true, 0) == rank(s, true, -1) + if s[0] {
                    1int
                } else {
                    0int
                });
            }
        }
        let start = match self.prev_0(p1) {
            Some(q) => q + 1,
            None => 1,
        };
        Some(p1 - start)
    }

    /// The next sibling of node `index`: the node after it, if it has the
    /// same parent.
    pub fn next_sibling(&self, index: u64) -> (r: Result<u64, NodeError>)
        requires
            self.wf(),
        ensures
            match r {
                Ok(y) => is_louds_node(self@, index as int) && index >= 2 && y == sibling_candidate(
                    self@,
                    index as int,
                ) && is_louds_node(self@, y as int) && y >= 2 && parent_of(self@, y as int)
                    == parent_of(self@, index as int),
                Err(e) => (!is_louds_node(self@, index as int) && e == NodeError::NotANodeError) || (
                index == 1 && is_louds_node(self@, 1) && e == NodeError::RootNodeError) || (
                is_louds_node(self@, index as int) && index >= 2 && e == NodeError::NoSiblingError
                    && !(is_louds_node(self@, sibling_candidate(self@, index as int))
                    && sibling_candidate(self@, index as int) >= 2 && parent_of(
                    self@,
                    sibling_candidate(self@, index as int),
                ) == parent_of(self@, index as int))),
            },
    {
        let pa = self.parent(index)?;
        let ghost s = self@;
        proof {
            lemma_rank_excess(s, index - 1);
            lemma_rank_excess(s, s.len() - 1);
            lemma_rank_mono(s, false, index - 1, s.len() - 1);
            lemma_select(s, false, rank(s, false, index - 1) + 1);
        }
        let z = rank_0(&self.rankselect, index - 1).unwrap();
        let cand = match select_0(&self.rankselect, z + 1) {
            Some(q) => q + 1,
            None => return Err(NodeError::NoSiblingError),
        };
        match self.parent(cand) {
            Ok(pb) => {
                if pb == pa {
                    Ok(cand)
                } else {
                    Err(NodeError::NoSiblingError)
                }
            },
            Err(_) => Err(NodeError::NoSiblingError),
        }
    }

    /// The label of node `index`, the entry at its level-order number.
    pub fn child_label(&self, index: u64) -> (r: Result<&L, NodeError>)
        requires
            self.wf(),
        ensures
            match r {
                Ok(l) => is_louds_node(self@, index as int) && node_number(self@, index as int) - 1
                    < self.labels_view().len() && *l == self.labels_view()[node_number(
                    self@,
                    index as int,
                ) - 1],
                Err(e) => (!is_louds_node(self@, index as int) && e == NodeError::NotANodeError) || (
                is_louds_node(self@, index as int) && node_number(self@, index as int) - 1
                    >= self.labels_view().len() && e == NodeError::NoLabelError),
            },
    {
        self.check_node(index)?;
        proof {
            lemma_rank_excess(self@, index - 1);
        }
        let k = rank_0(&self.rankselect, index - 1).unwrap();
        if k < self.labels.len() as u64 {
            Ok(&self.labels[k as usize])
        } else {
            Err(NodeError::NoLabelError)
        }
    }

    /// The rank/select index over the tree's bits.
    pub fn rank_select(&self) -> (r: &RankSelect)
        requires
            self.wf(),
        ensures
            indexed_bits(*r) == self@,
    {
        &self.rankselect
    }

    /// The tree's bits.
    pub fn bits(&self) -> (r: Vec<bool>)
        requires
            self.wf(),
        ensures
            r@ == self@,
    {
        let mut out: Vec<bool> = Vec::new();
        let mut i: u64 = 0;
        while i < self.bits_len
            invariant
                self.wf(),
                i <= self.bits_len,
                out@ == self@.take(i as int),
            decreases self.bits_len - i,
        {
            out.push(get(&self.rankselect, i));
            assert(self@.take(i + 1) == self@.take(i as int).push(self@[i as int]));
            i = i + 1;
        }
        assert(self@.take(self.bits_len as int) == self@);
        out
    }

    /// `LOUDSTree`, then the bits as `bv` shows them.
    pub fn debug_string(&self) -> (r: String)
        requires
            self.wf(),
        ensures
            r@ == "LOUDSTree\n  { bits: "@ + bits_debug_text(self@) + " }"@,
    {
        let shown = bits_debug(&self.rankselect);
        let mut out = String::from_str("LOUDSTree\n  { bits: ");
        out.append(shown.as_str());
        out.append(" }");
        out
    }
}

impl<L> vstd::std_specs::cmp::PartialEqSpecImpl for LOUDSTree<L> {
    open spec fn obeys_eq_spec() -> bool {
        true
    }

    open spec fn eq_spec(&self, other: &Self) -> bool {
        self@ == other@
    }
}

impl<L> SuccinctTree<L> for LOUDSTree<L> {
    open spec fn inv(&self) -> bool {
        self.wf()
    }

    open spec fn node(&self, i: int) -> bool {
        is_louds_node(self@, i)
    }

    open spec fn leaf(&self, i: int) -> bool {
        !self@[i]
    }

    open spec fn root(&self, i: int) -> bool {
        i == 1
    }

    open spec fn parent_at(&self, i: int) -> int {
        parent_of(self@, i)
    }

    open spec fn first_child_at(&self, i: int) -> int {
        child_of(self@, i, 1)
    }

    open spec fn has_next_sibling(&self, i: int) -> bool {
        let y = sibling_candidate(self@, i);
        i >= 2 && is_louds_node(self@, y) && y >= 2 && parent_of(self@, y) == parent_of(self@, i)
    }

    open spec fn next_sibling_at(&self, i: int) -> int {
        sibling_candidate(self@, i)
    }

    open spec fn labels(&self) -> Seq<L> {
        self.labels_view()
    }

    open spec fn label_index(&self, i: int) -> int {
        node_number(self@, i) - 1
    }

    fn is_leaf(&self, index: u64) -> (r: Result<bool, NodeError>) {
        LOUDSTree::is_leaf(self, index)
    }

    fn parent(&self, index: u64) -> (r: Result<u64, NodeError>) {
        LOUDSTree::parent(self, index)
    }

    fn first_child(&self, index: u64) -> (r: Result<u64, NodeError>) {
        LOUDSTree::first_child(self, index)
    }

    fn next_sibling(&self, index: u64) -> (r: Result<u64, NodeError>) {
        LOUDSTree::next_sibling(self, index)
    }

    fn child_label(&self, index: u64) -> (r: Result<&L, NodeError>) {
        LOUDSTree::child_label(self, index)
    }
}

impl<L> PartialEq for LOUDSTree<L> {
    /// Two trees are equal when their bits are; labels are not compared.
    fn eq(&self, other: &Self) -> (r: bool) {
        let n = bit_count(&self.rankselect);
        if n != bit_count(&other.rankselect) {
            return false;
        }
        let mut i: u64 = 0;
        while i < n
            invariant
                n == self@.len(),
                n == other@.len(),
                i <= n,
                forall|j: int| 0 <= j < i ==> self@[j] == other@[j],
            decreases n - i,
        {
            if get(&self.rankselect, i) != get(&other.rankselect, i) {
                return false;
            }
            i = i + 1;
        }
        assert(self@ =~= other@);
        true
    }
}


impl<L: PartialEq> LOUDSTree<L> {
    /// The first child of node `index`, in order, whose label equals `label`.
    pub fn labeled_child(&self, index: u64, label: L) -> (r: Result<u64, NodeError>)
        requires
            self.wf(),
        ensures
            match r {
                Ok(c) => is_louds_node(self@, index as int) && exists|i: int|
                    1 <= i <= degree_of(self@, index as int) && select(
                        self@,
                        false,
                        rank(self@, true, index as int) + i - 2,
                    ) >= 0 && c == #[trigger] child_of(self@, index as int, i) && (
                    L::obeys_eq_spec() ==> self.labels_view()[node_number(self@, c as int)
                        - 1].eq_spec(&label)) && (L::obeys_eq_spec() ==> forall|j: int|
                        1 <= j < i && select(self@, false, rank(self@, true, index as int) + j - 2)
                            >= 0 ==> !self.labels_view()[node_number(
                            self@,
                            #[trigger] child_of(self@, index as int, j),
                        ) - 1].eq_spec(&label)),
                Err(e) => (!is_louds_node(self@, index as int) && e == NodeError::NotANodeError) || (
                is_louds_node(self@, index as int) && e == NodeError::NoLabelError && exists|i: int|
                    1 <= i <= degree_of(self@, index as int) && select(
                        self@,
                        false,
                        rank(self@, true, index as int) + i - 2,
                    ) >= 0 && node_number(self@, #[trigger] child_of(self@, index as int, i)) - 1
                        >= self.labels_view().len() && (L::obeys_eq_spec() ==> forall|j: int|
                        1 <= j < i && select(self@, false, rank(self@, true, index as int) + j - 2)
                            >= 0 ==> !self.labels_view()[node_number(
                            self@,
                            #[trigger] child_of(self@, index as int, j),
                        ) - 1].eq_spec(&label))) || (is_louds_node(self@, index as int) && e
                    == NodeError::NoSuchChildError && (L::obeys_eq_spec() ==> forall|i: int|
                    1 <= i <= degree_of(self@, index as int) && select(
                        self@,
                        false,
                        rank(self@, true, index as int) + i - 2,
                    ) >= 0 ==> !self.labels_view()[node_number(
                        self@,
                        #[trigger] child_of(self@, index as int, i),
                    ) - 1].eq_spec(&label))),
            },
    {
        let deg = self.degree(index)?;
        let ghost s = self@;
        proof {
            assert(excess(s, 0) == excess(s, -1) + step(s[0]));
            assert(excess(s, 0) >= 1);
            assert(rank(s, true, 0) == rank(s, true, -1) + 1);
            lemma_rank_mono(s, true, 0, index as int);
            lemma_select(s, false, rank(s, false, index as int) + 1);
        }
        let mut i: u64 = 1;
        while i <= deg
            invariant
                self.wf(),
                s == self@,
                is_louds_node(s, index as int),
                deg == degree_of(s, index as int),
                deg <= s.len(),
                rank(s, true, index as int) >= 1,
                1 <= i <= deg + 1,
                L::obeys_eq_spec() ==> forall|j: int|
                    1 <= j < i && select(s, false, rank(s, true, index as int) + j - 2) >= 0
                        ==> !self.labels_view()[node_number(
                        s,
                        #[trigger] child_of(s, index as int, j),
                    ) - 1].eq_spec(&label),
            decreases deg + 1 - i,
        {
            match self.child(index, i) {
                Some(c) => {
                    proof {
                        lemma_select(s, false, rank(s, true, index as int) + i - 2);
                        lemma_rank_excess(s, c - 1);
                    }
                    let k = rank_0(&self.rankselect, c - 1).unwrap();
                    if k >= self.labels.len() as u64 {
                        assert(c == child_of(s, index as int, i as int));
                        return Err(NodeError::NoLabelError);
                    }
                    if self.labels[k as usize] == label {
                        assert(c == child_of(s, index as int, i as int));
                        return Ok(c);
                    }
                },
                None => {},
            }
            i = i + 1;
        }
        Err(NodeError::NoSuchChildError)
    }
}

/// The LOUDS bits for the level-order `degrees`, or `None` where they hold
/// more 1-bits than a tree with that many nodes can (then the bits are not
/// valid).
pub fn louds_bits(degrees: &Vec<u64>) -> (r: Option<Vec<bool>>)
    requires
        degrees@.len() < MAX_BITS / 2,
    ensures
        match r {
            Some(bits) => bits@ == louds_encoding(degrees@) && bits@.len() <= MAX_BITS,
            None => !valid_parens(louds_encoding(degrees@)),
        },
{
    let ghost ds = degrees@;
    let m = degrees.len();
    let mut bits: Vec<bool> = Vec::new();
    bits.push(true);
    let mut sum: u64 = 0;
    let mut k: usize = 0;
    assert(louds_encoding(ds.take(0)) == seq![true]);
    while k < m
        invariant
            m == ds.len(),
            ds == degrees@,
            m < MAX_BITS / 2,
            k <= m,
            sum <= m,
            sum == degree_sum(ds.take(k as int)),
            bits@ == louds_encoding(ds.take(k as int)),
            bits@.len() == 1 + sum + k,
        decreases m - k,
    {
        let d = degrees[k];
        proof {
            lemma_sum_prefix(ds, k as int);
        }
        if d > m as u64 - sum {
            proof {
                lemma_sum_prefix(ds, k + 1);
                lemma_louds_total(ds);
            }
            return None;
        }
        assert(ds.take(k + 1).drop_last() == ds.take(k as int));
        let mut j: u64 = 0;
        while j < d
            invariant
                j <= d,
                bits@ == louds_encoding(ds.take(k as int)) + repeat(true, j as nat),
            decreases d - j,
        {
            bits.push(true);
            assert(repeat(true, (j + 1) as nat) == repeat(true, j as nat).push(true));
            j = j + 1;
        }
        bits.push(false);
        sum = sum + d;
        k = k + 1;
    }
    assert(ds.take(m as int) == ds);
    Some(bits)
}

} // verus!
