//! Range-min-max tree over a parenthesis sequence (Cordova and Navarro).
//!
//! The bits are cut into blocks of `block_size` bits; the leaves of a
//! complete binary tree, stored as a heap, summarise the blocks, and every
//! inner node summarises the union of its children's ranges.

use crate::bits::{
    encloses, excess, first_hit, last_hit, lemma_climb, lemma_excess_lipschitz, lemma_rank_excess,
    lemma_rank_mono, lemma_select, lemma_select_unique, no_hit, parent_level, rank, select, step,
};
use crate::errors::NodeError;
use vstd::arithmetic::div_mod::{lemma_fundamental_div_mod, lemma_mod_multiples_basic, lemma_mod_self_0};
use vstd::arithmetic::mul::{lemma_mul_inequality, lemma_mul_strict_inequality};
use vstd::prelude::*;

verus! {

/// The largest number of bits, and the largest block size, a tree takes.
pub const MAX_BITS: u64 = 0x1000_0000_0000_0000;

/// The summary of a range of bits, relative to the excess just before it.
#[derive(Clone, Copy, Debug)]
pub struct MinMaxNode {
    /// Net change of the excess across the range.
    pub excess: i64,
    /// Least relative excess taken in the range.
    pub min_excess: i64,
    /// How many positions of the range take the least relative excess.
    pub number_min_excess: u64,
    /// Greatest relative excess taken in the range.
    pub max_excess: i64,
    /// Number of bits in the range.
    pub bits_for_node: u64,
}

/// Least of `E(k) - E(a - 1)` over `k` in `[a, b)`; 0 for an empty range.
pub open spec fn range_min(s: Seq<bool>, a: int, b: int) -> int
    decreases b - a,
{
    if b <= a {
        0
    } else if b == a + 1 {
        excess(s, a) - excess(s, a - 1)
    } else {
        let m = range_min(s, a, b - 1);
        let x = excess(s, b - 1) - excess(s, a - 1);
        if x < m {
            x
        } else {
            m
        }
    }
}

/// Greatest of `E(k) - E(a - 1)` over `k` in `[a, b)`; 0 for an empty range.
pub open spec fn range_max(s: Seq<bool>, a: int, b: int) -> int
    decreases b - a,
{
    if b <= a {
        0
    } else if b == a + 1 {
        excess(s, a) - excess(s, a - 1)
    } else {
        let m = range_max(s, a, b - 1);
        let x = excess(s, b - 1) - excess(s, a - 1);
        if x > m {
            x
        } else {
            m
        }
    }
}

/// The number of positions `k` in `[a, b)` with `E(k) == v`.
pub open spec fn count_at(s: Seq<bool>, a: int, b: int, v: int) -> int
    decreases b - a,
{
    if b <= a {
        0
    } else {
        count_at(s, a, b - 1, v) + if excess(s, b - 1) == v {
            1int
        } else {
            0int
        }
    }
}

/// `nd` holds the five fields of the bit range `[a, b)` of `s`.
pub open spec fn summarizes(nd: MinMaxNode, s: Seq<bool>, a: int, b: int) -> bool {
    &&& nd.excess == excess(s, b - 1) - excess(s, a - 1)
    &&& nd.min_excess == range_min(s, a, b)
    &&& nd.max_excess == range_max(s, a, b)
    &&& nd.number_min_excess == count_at(s, a, b, excess(s, a - 1) + range_min(s, a, b))
    &&& nd.bits_for_node == b - a
}

/// The composition law: `p` combines the left child `l` with the right child
/// `r`; an empty right child leaves `l` as it is.
pub open spec fn composes(p: MinMaxNode, l: MinMaxNode, r: MinMaxNode) -> bool {
    if r.bits_for_node == 0 {
        p == l
    } else {
        let rmin = l.excess + r.min_excess;
        let rmax = l.excess + r.max_excess;
        &&& p.excess == l.excess + r.excess
        &&& p.min_excess == if rmin < l.min_excess {
            rmin
        } else {
            l.min_excess as int
        }
        &&& p.max_excess == if rmax > l.max_excess {
            rmax
        } else {
            l.max_excess as int
        }
        &&& p.number_min_excess == if l.min_excess < rmin {
            l.number_min_excess as int
        } else if rmin < l.min_excess {
            r.number_min_excess as int
        } else {
            l.number_min_excess + r.number_min_excess
        }
        &&& p.bits_for_node == l.bits_for_node + r.bits_for_node
    }
}

/// `w` is a power of two.
pub open spec fn is_pow2(w: int) -> bool
    decreases w,
{
    if w <= 1 {
        w == 1
    } else {
        w % 2 == 0 && is_pow2(w / 2)
    }
}

/// The blocks `[lo, hi)` under heap node `v` of a tree with `leaves` leaves:
/// the root holds them all, and each child holds one half of its parent's.
pub open spec fn span(v: int, leaves: int) -> (int, int)
    decreases v,
{
    if v <= 0 {
        (0, leaves)
    } else {
        let p = span((v - 1) / 2, leaves);
        let m = (p.0 + p.1) / 2;
        if v % 2 == 1 {
            (p.0, m)
        } else {
            (m, p.1)
        }
    }
}

/// Every position of a range lies between its least and greatest relative
/// excess, and the range's fields are bounded by its length.
pub proof fn lemma_range_bounds(s: Seq<bool>, a: int, b: int)
    requires
        0 <= a <= b,
    ensures
        forall|k: int|
            a <= k < b ==> range_min(s, a, b) <= #[trigger] excess(s, k) - excess(s, a - 1)
                <= range_max(s, a, b),
        -(b - a) <= range_min(s, a, b) <= range_max(s, a, b) <= b - a,
        -(b - a) <= excess(s, b - 1) - excess(s, a - 1) <= b - a,
        forall|v: int| 0 <= #[trigger] count_at(s, a, b, v) <= b - a,
        forall|v: int|
            (v < excess(s, a - 1) + range_min(s, a, b) || v > excess(s, a - 1) + range_max(s, a, b))
                ==> #[trigger] count_at(s, a, b, v) == 0,
    decreases b - a,
{
    lemma_excess_lipschitz(s, a - 1, b - 1);
    if b > a {
        lemma_range_bounds(s, a, b - 1);
        lemma_excess_lipschitz(s, a - 1, b - 1);
        assert forall|k: int| a <= k < b implies range_min(s, a, b) <= #[trigger] excess(s, k)
            - excess(s, a - 1) <= range_max(s, a, b) by {
            if k < b - 1 {
            }
        }
        assert forall|v: int| 0 <= #[trigger] count_at(s, a, b, v) <= b - a by {
            assert(0 <= count_at(s, a, b - 1, v) <= b - 1 - a);
        }
        assert forall|v: int|
            (v < excess(s, a - 1) + range_min(s, a, b) || v > excess(s, a - 1) + range_max(
                s,
                a,
                b,
            )) implies #[trigger] count_at(s, a, b, v) == 0 by {
            let k = b - 1;
            assert(range_min(s, a, b) <= excess(s, k) - excess(s, a - 1) <= range_max(s, a, b));
            if b - 1 > a {
                assert(range_min(s, a, b) <= range_min(s, a, b - 1));
                assert(range_max(s, a, b) >= range_max(s, a, b - 1));
                assert(count_at(s, a, b - 1, v) == 0);
            } else {
                assert(count_at(s, a, b - 1, v) == 0);
            }
            assert(excess(s, b - 1) != v);
            assert(count_at(s, a, b, v) == count_at(s, a, b - 1, v) + if excess(s, b - 1) == v {
                1int
            } else {
                0int
            });
        }
    }
}

/// Minimum and maximum of a range split in two.
proof fn lemma_range_split(s: Seq<bool>, a: int, m: int, c: int)
    requires
        0 <= a < m < c,
    ensures
        range_min(s, a, c) == {
            let x = (excess(s, m - 1) - excess(s, a - 1)) + range_min(s, m, c);
            if x < range_min(s, a, m) {
                x
            } else {
                range_min(s, a, m)
            }
        },
        range_max(s, a, c) == {
            let x = (excess(s, m - 1) - excess(s, a - 1)) + range_max(s, m, c);
            if x > range_max(s, a, m) {
                x
            } else {
                range_max(s, a, m)
            }
        },
    decreases c - m,
{
    if c > m + 1 {
        lemma_range_split(s, a, m, c - 1);
    }
}

/// Positions at a value, counted over a range split in two.
proof fn lemma_count_split(s: Seq<bool>, a: int, m: int, c: int, v: int)
    requires
        a <= m <= c,
    ensures
        count_at(s, a, c, v) == count_at(s, a, m, v) + count_at(s, m, c, v),
    decreases c - m,
{
    if c > m {
        lemma_count_split(s, a, m, c - 1, v);
    }
}

/// The composition law holds of adjacent ranges: composing the summaries of
/// `[a, m)` and `[m, c)` gives the summary of `[a, c)`.
pub proof fn lemma_compose_ranges(
    s: Seq<bool>,
    a: int,
    m: int,
    c: int,
    p: MinMaxNode,
    l: MinMaxNode,
    r: MinMaxNode,
)
    requires
        0 <= a <= m <= c,
        a == m ==> m == c,
        summarizes(l, s, a, m),
        summarizes(r, s, m, c),
        composes(p, l, r),
    ensures
        summarizes(p, s, a, c),
{
    if m < c {
        lemma_range_split(s, a, m, c);
        lemma_range_bounds(s, a, m);
        lemma_range_bounds(s, m, c);
        let base = excess(s, a - 1);
        let v = base + range_min(s, a, c);
        lemma_count_split(s, a, m, c, v);
    }
}

/// `x`, cut down to `n`.
pub open spec fn clamp(x: int, n: int) -> int {
    if x < n {
        x
    } else {
        n
    }
}

/// The bits `[lo, hi)` under heap node `v`: its blocks, cut down to `n` bits.
pub open spec fn node_range(v: int, leaves: int, block_size: int, n: int) -> (int, int) {
    let sp = span(v, leaves);
    (clamp(sp.0 * block_size, n), clamp(sp.1 * block_size, n))
}

/// The shape of the span of heap node `v`: its width `w` is a power of two
/// that divides the number of leaves, and the span starts at
/// `(v + 1) * w - leaves`.
proof fn lemma_span(v: int, leaves: int)
    requires
        is_pow2(leaves),
        0 <= v < 2 * leaves - 1,
    ensures
        ({
            let sp = span(v, leaves);
            let w = sp.1 - sp.0;
            &&& is_pow2(w)
            &&& w >= 1
            &&& leaves % w == 0
            &&& leaves <= (v + 1) * w < 2 * leaves
            &&& sp.0 == (v + 1) * w - leaves
            &&& sp.1 <= leaves
        }),
    decreases v,
{
    lemma_span_shape(v, leaves);
    let sp = span(v, leaves);
    let w = sp.1 - sp.0;
    let q = leaves / w;
    lemma_fundamental_div_mod(leaves, w);
    assert(v + 1 < 2 * q) by (nonlinear_arith)
        requires
            (v + 1) * w < 2 * leaves,
            leaves == w * q,
            w > 0,
    ;
    assert((v + 1) * w + w <= 2 * leaves) by (nonlinear_arith)
        requires
            v + 1 <= 2 * q - 1,
            leaves == w * q,
            w > 0,
    ;
}

proof fn lemma_span_shape(v: int, leaves: int)
    requires
        is_pow2(leaves),
        0 <= v < 2 * leaves - 1,
    ensures
        ({
            let sp = span(v, leaves);
            let w = sp.1 - sp.0;
            &&& is_pow2(w)
            &&& w >= 1
            &&& leaves % w == 0
            &&& leaves <= (v + 1) * w < 2 * leaves
            &&& sp.0 == (v + 1) * w - leaves
        }),
    decreases v,
{
    if v == 0 {
        lemma_mod_self_0(leaves);
        assert(is_pow2(leaves) ==> leaves >= 1);
    } else {
        let u = (v - 1) / 2;
        lemma_span_shape(u, leaves);
        let sp = span(u, leaves);
        let w = sp.1 - sp.0;
        assert(u + 1 < leaves);
        assert(w >= 2) by (nonlinear_arith)
            requires
                (u + 1) * w >= leaves,
                u + 1 < leaves,
                w >= 1,
        ;
        let h = w / 2;
        assert(w == 2 * h);
        assert(is_pow2(h));
        assert(h >= 1) by {
            if h < 1 {
                assert(!is_pow2(h));
            }
        }
        let q = leaves / w;
        lemma_fundamental_div_mod(leaves, w);
        assert(leaves == w * q);
        assert(leaves == (2 * q) * h) by (nonlinear_arith)
            requires
                leaves == w * q,
                w == 2 * h,
        ;
        lemma_mod_multiples_basic(2 * q, h);
        if v % 2 == 1 {
            assert(v == 2 * u + 1);
            assert((v + 1) * h == (u + 1) * w) by (nonlinear_arith)
                requires
                    v == 2 * u + 1,
                    w == 2 * h,
            ;
        } else {
            assert(v == 2 * u + 2);
            assert((v + 1) * h == (u + 1) * w + h) by (nonlinear_arith)
                requires
                    v == 2 * u + 2,
                    w == 2 * h,
            ;
            assert(u + 1 < 2 * q) by (nonlinear_arith)
                requires
                    (u + 1) * w < 2 * leaves,
                    leaves == w * q,
                    w > 0,
            ;
            assert((u + 1) * w + w <= 2 * leaves) by (nonlinear_arith)
                requires
                    u + 1 <= 2 * q - 1,
                    leaves == w * q,
                    w > 0,
            ;
        }
    }
}

/// A leaf, at heap index `leaves - 1 + b`, spans block `b` alone.
proof fn lemma_leaf_span(v: int, leaves: int)
    requires
        is_pow2(leaves),
        leaves - 1 <= v < 2 * leaves - 1,
    ensures
        span(v, leaves) == (v - (leaves - 1), v - (leaves - 1) + 1),
{
    lemma_span(v, leaves);
    let sp = span(v, leaves);
    let w = sp.1 - sp.0;
    if w >= 2 {
        lemma_mul_inequality(2, w, v + 1);
        assert(w * (v + 1) == (v + 1) * w) by (nonlinear_arith);
        assert(false);
    }
    assert(w == 1);
    assert((v + 1) * w == v + 1) by (nonlinear_arith)
        requires
            w == 1,
    ;
}

/// An inner node splits its span in two non-empty halves between its children.
proof fn lemma_inner_span(v: int, leaves: int)
    requires
        is_pow2(leaves),
        0 <= v < leaves - 1,
    ensures
        span(v, leaves).0 < (span(v, leaves).0 + span(v, leaves).1) / 2 < span(v, leaves).1,
        span(2 * v + 1, leaves) == (span(v, leaves).0, (span(v, leaves).0 + span(v, leaves).1) / 2),
        span(2 * v + 2, leaves) == ((span(v, leaves).0 + span(v, leaves).1) / 2, span(v, leaves).1),
        0 <= span(v, leaves).0,
        span(v, leaves).1 <= leaves,
{
    lemma_span(v, leaves);
    let sp = span(v, leaves);
    let w = sp.1 - sp.0;
    assert(w >= 2) by (nonlinear_arith)
        requires
            (v + 1) * w >= leaves,
            v + 1 < leaves,
            w >= 1,
    ;
    assert((2 * v + 1 - 1) / 2 == v);
    assert((2 * v + 2 - 1) / 2 == v);
}

/// The bit ranges of the two children of an inner node are adjacent, cover
/// the parent's range, and the left one is empty only if the right one is.
proof fn lemma_children_ranges(v: int, leaves: int, block_size: int, n: int)
    requires
        is_pow2(leaves),
        0 <= v < leaves - 1,
        block_size >= 1,
        n >= 0,
    ensures
        ({
            let p = node_range(v, leaves, block_size, n);
            let l = node_range(2 * v + 1, leaves, block_size, n);
            let r = node_range(2 * v + 2, leaves, block_size, n);
            &&& l.0 == p.0
            &&& l.1 == r.0
            &&& r.1 == p.1
            &&& 0 <= l.0 <= l.1 <= r.1 <= n
            &&& (l.0 == l.1 ==> r.0 == r.1)
        }),
{
    lemma_inner_span(v, leaves);
    let sp = span(v, leaves);
    let m = (sp.0 + sp.1) / 2;
    lemma_mul_strict_inequality(sp.0, m, block_size);
    lemma_mul_strict_inequality(m, sp.1, block_size);
    lemma_mul_inequality(0, sp.0, block_size);
}

/// A node summary whose fields are bounded by its length.
pub open spec fn bounded(nd: MinMaxNode) -> bool {
    &&& nd.bits_for_node <= MAX_BITS
    &&& -nd.bits_for_node <= nd.min_excess <= nd.bits_for_node
    &&& -nd.bits_for_node <= nd.max_excess <= nd.bits_for_node
    &&& -nd.bits_for_node <= nd.excess <= nd.bits_for_node
    &&& nd.number_min_excess <= nd.bits_for_node
}

proof fn lemma_summary_bounded(nd: MinMaxNode, s: Seq<bool>, a: int, b: int)
    requires
        0 <= a <= b,
        b - a <= MAX_BITS,
        summarizes(nd, s, a, b),
    ensures
        bounded(nd),
{
    lemma_range_bounds(s, a, b);
    assert(0 <= count_at(s, a, b, excess(s, a - 1) + range_min(s, a, b)) <= b - a);
}

/// The summary of the bits `[a, b)`, by one scan.
fn block_summary(bits: &Vec<bool>, a: usize, b: usize) -> (nd: MinMaxNode)
    requires
        a <= b <= bits@.len() <= MAX_BITS,
    ensures
        summarizes(nd, bits@, a as int, b as int),
{
    let ghost s = bits@;
    let ghost base = excess(s, a - 1);
    let mut ex: i64 = 0;
    let mut mn: i64 = 0;
    let mut cnt: u64 = 0;
    let mut mx: i64 = 0;
    let mut k = a;
    while k < b
        invariant
            a <= k <= b <= bits@.len() <= MAX_BITS,
            s == bits@,
            base == excess(s, a - 1),
            ex == excess(s, k - 1) - base,
            mn == range_min(s, a as int, k as int),
            mx == range_max(s, a as int, k as int),
            cnt == count_at(s, a as int, k as int, base + range_min(s, a as int, k as int)),
        decreases b - k,
    {
        proof {
            lemma_range_bounds(s, a as int, k as int);
            lemma_excess_lipschitz(s, a - 1, k as int);
        }
        assert(excess(s, k as int) == excess(s, k - 1) + step(s[k as int]));
        if bits[k] {
            ex = ex + 1;
        } else {
            ex = ex - 1;
        }
        assert(ex == excess(s, k as int) - base);
        let ghost old_min = range_min(s, a as int, k as int);
        assert(range_min(s, a as int, k + 1) == if k == a {
            ex as int
        } else if ex < old_min {
            ex as int
        } else {
            old_min
        });
        let ghost v_new = base + range_min(s, a as int, k + 1);
        assert(count_at(s, a as int, k + 1, v_new) == count_at(s, a as int, k as int, v_new)
            + if excess(s, k as int) == v_new {
            1int
        } else {
            0int
        });
        if k == a {
            mn = ex;
            mx = ex;
            cnt = 1;
        } else {
            if ex < mn {
                assert(count_at(s, a as int, k as int, v_new) == 0);
                mn = ex;
                cnt = 1;
            } else if ex == mn {
                cnt = cnt + 1;
            }
            if ex > mx {
                mx = ex;
            }
        }
        k = k + 1;
    }
    MinMaxNode {
        excess: ex,
        min_excess: mn,
        number_min_excess: cnt,
        max_excess: mx,
        bits_for_node: (b - a) as u64,
    }
}

/// The parent of `l` and `r` under the composition law.
fn compose_nodes(l: &MinMaxNode, r: &MinMaxNode) -> (p: MinMaxNode)
    requires
        bounded(*l),
        bounded(*r),
        l.bits_for_node + r.bits_for_node <= MAX_BITS,
    ensures
        composes(p, *l, *r),
{
    if r.bits_for_node == 0 {
        *l
    } else {
        let rmin = l.excess + r.min_excess;
        let rmax = l.excess + r.max_excess;
        let mn = if rmin < l.min_excess {
            rmin
        } else {
            l.min_excess
        };
        let mx = if rmax > l.max_excess {
            rmax
        } else {
            l.max_excess
        };
        let cnt = if l.min_excess < rmin {
            l.number_min_excess
        } else if rmin < l.min_excess {
            r.number_min_excess
        } else {
            l.number_min_excess + r.number_min_excess
        };
        MinMaxNode {
            excess: l.excess + r.excess,
            min_excess: mn,
            number_min_excess: cnt,
            max_excess: mx,
            bits_for_node: l.bits_for_node + r.bits_for_node,
        }
    }
}

impl MinMaxNode {
    /// Overwrites all five fields.
    pub fn set_values(
        &mut self,
        excess: &i64,
        min_excess: &i64,
        number_min_excess: &u64,
        max_excess: &i64,
        no_of_bits_for_node: &u64,
    )
        ensures
            final(self).excess == *excess,
            final(self).min_excess == *min_excess,
            final(self).number_min_excess == *number_min_excess,
            final(self).max_excess == *max_excess,
            final(self).bits_for_node == *no_of_bits_for_node,
    {
        self.excess = *excess;
        self.min_excess = *min_excess;
        self.number_min_excess = *number_min_excess;
        self.max_excess = *max_excess;
        self.bits_for_node = *no_of_bits_for_node;
    }
}

/// A range-min-max tree over a bit sequence.
#[derive(Debug)]
pub struct MinMax {
    bits_len: u64,
    bits: Vec<bool>,
    block_size: u64,
    heap: Vec<MinMaxNode>,
}

impl MinMax {
    /// The bits the tree is built over.
    pub closed spec fn bits_view(&self) -> Seq<bool> {
        self.bits@
    }

    /// The heap of node summaries; the children of node `v` are `2v + 1`
    /// and `2v + 2`.
    pub closed spec fn nodes(&self) -> Seq<MinMaxNode> {
        self.heap@
    }

    /// The block size.
    pub closed spec fn block(&self) -> int {
        self.block_size as int
    }

    /// The number of leaves, a power of two.
    pub closed spec fn leaves(&self) -> int {
        (self.heap@.len() + 1) as int / 2
    }

    /// The bits `[lo, hi)` under heap node `v`.
    pub closed spec fn range_of(&self, v: int) -> (int, int) {
        node_range(v, self.leaves(), self.block(), self.bits@.len() as int)
    }

    /// The tree's invariant: every node summarises its range of bits, and
    /// every inner node is the composition of its children.
    pub closed spec fn wf(&self) -> bool {
        let n = self.bits@.len() as int;
        let p = self.leaves();
        &&& self.bits_len == n
        &&& n <= MAX_BITS
        &&& 1 <= self.block_size <= MAX_BITS
        &&& self.heap@.len() == 2 * p - 1
        &&& is_pow2(p)
        &&& n <= p * self.block_size
        &&& p * self.block_size <= 4 * MAX_BITS
        &&& p <= 2 * MAX_BITS
        &&& self.bits@.len() <= usize::MAX
        &&& self.heap@.len() <= usize::MAX
        &&& forall|v: int|
            0 <= v < 2 * p - 1 ==> summarizes(
                #[trigger] self.heap@[v],
                self.bits@,
                self.range_of(v).0,
                self.range_of(v).1,
            )
        &&& forall|v: int|
            0 <= v < p - 1 ==> composes(
                #[trigger] self.heap@[v],
                self.heap@[2 * v + 1],
                self.heap@[2 * v + 2],
            )
    }

    /// Builds the tree over `bits` with blocks of `block_size` bits.
    pub fn new(bits: Vec<bool>, block_size: u64) -> (r: Self)
        requires
            bits@.len() <= MAX_BITS,
            1 <= block_size <= MAX_BITS,
        ensures
            r.wf(),
            r.bits_view() == bits@,
            r.block() == block_size,
            r.leaves() * block_size >= bits@.len(),
            r.leaves() == 1 || (r.leaves() / 2) * block_size < bits@.len(),
    {
        let len = bits.len();
        let n = len as u64;
        let s = block_size;
        let nb: u64 = if n % s != 0 {
            n / s + 1
        } else {
            n / s
        };
        proof {
            lemma_fundamental_div_mod(n as int, s as int);
            assert(nb * s >= n) by (nonlinear_arith)
                requires
                    n == s * (n / s) + n % s,
                    0 <= n % s < s,
                    n % s != 0 ==> nb == n / s + 1,
                    n % s == 0 ==> nb == n / s,
            ;
            assert(nb == 0 || (nb - 1) * s < n) by (nonlinear_arith)
                requires
                    n == s * (n / s) + n % s,
                    0 <= n % s < s,
                    n % s != 0 ==> nb == n / s + 1,
                    n % s == 0 ==> nb == n / s,
            ;
            if nb >= 1 {
                lemma_mul_inequality(1, s as int, nb - 1);
            }
            assert(nb <= n);
        }
        let mut p: u64 = 1;
        while p < nb
            invariant
                is_pow2(p as int),
                1 <= p,
                p == 1 || p / 2 < nb,
                nb <= MAX_BITS,
            decreases 2 * nb - p,
        {
            assert((p * 2) / 2 == p);
            p = p * 2;
        }
        proof {
            if p > 1 {
                lemma_mul_inequality(p as int / 2, nb - 1, s as int);
            }
            lemma_mul_inequality(nb as int, p as int, s as int);
            if p > 1 {
                assert(p % 2 == 0);
                assert(p <= 2 * (nb - 1));
                lemma_mul_inequality(p as int, 2 * (nb - 1), s as int);
                assert(2 * (nb - 1) * s == 2 * ((nb - 1) * s)) by (nonlinear_arith);
            } else {
                assert(p * s == s) by (nonlinear_arith)
                    requires
                        p == 1,
                ;
            }
        }
        let zero = MinMaxNode {
            excess: 0,
            min_excess: 0,
            number_min_excess: 0,
            max_excess: 0,
            bits_for_node: 0,
        };
        let mut heap: Vec<MinMaxNode> = Vec::new();
        let mut i: u64 = 0;
        while i < p - 1
            invariant
                i <= p - 1,
                heap@.len() == i,
            decreases p - 1 - i,
        {
            heap.push(zero);
            i = i + 1;
        }
        let ghost sq = bits@;
        let mut b: u64 = 0;
        while b < p
            invariant
                b <= p,
                p <= 2 * MAX_BITS,
                len == n,
                sq == bits@,
                n == sq.len(),
                n <= MAX_BITS,
                1 <= s <= MAX_BITS,
                is_pow2(p as int),
                p * s <= 4 * MAX_BITS,
                heap@.len() == p - 1 + b,
                forall|v: int|
                    p - 1 <= v < p - 1 + b ==> summarizes(
                        #[trigger] heap@[v],
                        sq,
                        node_range(v, p as int, s as int, n as int).0,
                        node_range(v, p as int, s as int, n as int).1,
                    ),
            decreases p - b,
        {
            proof {
                lemma_leaf_span(p - 1 + b, p as int);
                lemma_mul_inequality((b + 1) as int, p as int, s as int);
                lemma_mul_inequality(b as int, (b + 1) as int, s as int);
            }
            let lo = if b * s < n {
                b * s
            } else {
                n
            };
            let hi = if (b + 1) * s < n {
                (b + 1) * s
            } else {
                n
            };
            let nd = block_summary(&bits, lo as usize, hi as usize);
            heap.push(nd);
            b = b + 1;
        }
        assert(p <= 2 * MAX_BITS);
        let mut v: usize = heap.len() / 2;
        while v > 0
            invariant
                v <= p - 1,
                p <= 2 * MAX_BITS,
                sq == bits@,
                n == sq.len(),
                n <= MAX_BITS,
                1 <= s <= MAX_BITS,
                is_pow2(p as int),
                heap@.len() == 2 * p - 1,
                forall|u: int|
                    v <= u < 2 * p - 1 ==> summarizes(
                        #[trigger] heap@[u],
                        sq,
                        node_range(u, p as int, s as int, n as int).0,
                        node_range(u, p as int, s as int, n as int).1,
                    ),
                forall|u: int|
                    v <= u < p - 1 ==> composes(
                        #[trigger] heap@[u],
                        heap@[2 * u + 1],
                        heap@[2 * u + 2],
                    ),
            decreases v,
        {
            v = v - 1;
            let hl = heap.len();
            assert(2 * v + 2 < hl);
            let l = heap[2 * v + 1];
            let r = heap[2 * v + 2];
            let ghost pr = node_range(v as int, p as int, s as int, n as int);
            let ghost lr = node_range(2 * v + 1, p as int, s as int, n as int);
            let ghost rr = node_range(2 * v + 2, p as int, s as int, n as int);
            proof {
                lemma_children_ranges(v as int, p as int, s as int, n as int);
                lemma_summary_bounded(l, sq, lr.0, lr.1);
                lemma_summary_bounded(r, sq, rr.0, rr.1);
            }
            let nd = compose_nodes(&l, &r);
            proof {
                lemma_compose_ranges(sq, lr.0, lr.1, rr.1, nd, l, r);
            }
            heap.set(v, nd);
        }
        assert(heap@.len() == heap.len());
        MinMax { bits_len: n, bits, block_size, heap }
    }

    /// The bits `[lo, hi)` under a node that spans the blocks `[l, r)`.
    fn bit_range(&self, l: u64, r: u64) -> (res: (u64, u64))
        requires
            self.wf(),
            l <= r <= self.leaves(),
        ensures
            res.0 == clamp(l * self.block(), self.bits_view().len() as int),
            res.1 == clamp(r * self.block(), self.bits_view().len() as int),
            res.0 <= res.1 <= self.bits_view().len(),
    {
        proof {
            lemma_mul_inequality(r as int, self.leaves(), self.block());
            lemma_mul_inequality(l as int, r as int, self.block());
        }
        let s = self.block_size;
        let n = self.bits_len;
        let lo = if l * s < n {
            l * s
        } else {
            n
        };
        let hi = if r * s < n {
            r * s
        } else {
            n
        };
        (lo, hi)
    }

    proof fn lemma_root(&self)
        requires
            self.wf(),
        ensures
            self.range_of(0) == (0int, self.bits_view().len() as int),
    {
        assert(span(0, self.leaves()) == (0int, self.leaves()));
        assert(0 * self.block() == 0);
    }

    proof fn lemma_node(&self, v: int)
        requires
            self.wf(),
            0 <= v < 2 * self.leaves() - 1,
        ensures
            summarizes(self.nodes()[v], self.bits_view(), self.range_of(v).0, self.range_of(v).1),
            bounded(self.nodes()[v]),
            0 <= self.range_of(v).0 <= self.range_of(v).1 <= self.bits_view().len(),
            forall|k: int|
                self.range_of(v).0 <= k < self.range_of(v).1 ==> self.nodes()[v].min_excess
                    <= #[trigger] excess(self.bits_view(), k) - excess(
                    self.bits_view(),
                    self.range_of(v).0 - 1,
                ) <= self.nodes()[v].max_excess,
    {
        let sp = span(v, self.leaves());
        lemma_span(v, self.leaves());
        lemma_mul_inequality(sp.0, sp.1, self.block());
        lemma_mul_inequality(0, sp.0, self.block());
        let rg = self.range_of(v);
        lemma_summary_bounded(self.heap@[v], self.bits@, rg.0, rg.1);
        lemma_range_bounds(self.bits@, rg.0, rg.1);
    }

    /// `E(index)`, found by one walk from the root to the block of `index`
    /// and a scan of that block.
    pub fn excess(&self, index: u64) -> (r: Result<i64, NodeError>)
        requires
            self.wf(),
        ensures
            match r {
                Ok(e) => index < self.bits_view().len() && e == excess(self.bits_view(), index as int),
                Err(err) => index >= self.bits_view().len() && err == NodeError::NotANodeError,
            },
    {
        if index >= self.bits_len {
            return Err(NodeError::NotANodeError);
        }
        let ghost sq = self.bits@;
        let ghost p = self.leaves();
        let ghost n = sq.len() as int;
        let s = self.block_size;
        let b = index / s;
        proof {
            lemma_fundamental_div_mod(index as int, s as int);
            assert(b * s <= index) by (nonlinear_arith)
                requires
                    index == s * (index / s) + index % s,
                    index % s >= 0,
                    b == index / s,
            ;
            assert(b < p) by {
                if b >= p {
                    lemma_mul_inequality(p, b as int, s as int);
                }
            }
        }
        let half = self.heap.len() / 2;
        proof {
            self.lemma_root();
        }
        let mut v: usize = 0;
        let mut l: u64 = 0;
        let mut r: u64 = (half + 1) as u64;
        let mut pre: i64 = 0;
        while v < half
            invariant
                self.wf(),
                sq == self.bits_view(),
                p == self.leaves(),
                n == sq.len(),
                half == p - 1,
                0 <= v < 2 * p - 1,
                p <= 2 * MAX_BITS,
                self.nodes().len() == 2 * p - 1,
                span(v as int, p) == (l as int, r as int),
                l <= b < r <= p,
                b * s <= index < n,
                pre == excess(sq, self.range_of(v as int).0 - 1),
                s == self.block(),
            decreases r - l,
        {
            proof {
                lemma_inner_span(v as int, p);
                lemma_children_ranges(v as int, p, s as int, n);
                self.lemma_node(2 * v + 1);
            }
            let m = (l + r) / 2;
            assert(2 * v + 2 < self.heap.len());
            if b < m {
                v = 2 * v + 1;
                r = m;
            } else {
                proof {
                    lemma_mul_inequality(m as int, b as int, s as int);
                    lemma_excess_lipschitz(sq, -1, m * s - 1);
                }
                pre = pre + self.heap[2 * v + 1].excess;
                v = 2 * v + 2;
                l = m;
            }
        }
        proof {
            lemma_leaf_span(v as int, p);
        }
        let mut e: i64 = pre;
        let mut k: u64 = b * s;
        while k <= index
            invariant
                self.wf(),
                sq == self.bits_view(),
                n == sq.len(),
                b * s <= k <= index + 1,
                index < n,
                n <= MAX_BITS,
                e == excess(sq, k - 1),
            decreases index + 1 - k,
        {
            proof {
                lemma_excess_lipschitz(sq, -1, k as int);
            }
            assert(excess(sq, k as int) == excess(sq, k - 1) + step(sq[k as int]));
            let bit = self.bits[k as usize];
            assert(bit == sq[k as int]);
            if bit {
                e = e + 1;
            } else {
                e = e - 1;
            }
            k = k + 1;
        }
        Ok(e)
    }

    /// The number of 1-bits among `bits[0..=index]`.
    pub fn rank_1(&self, index: u64) -> (r: Result<u64, NodeError>)
        requires
            self.wf(),
        ensures
            match r {
                Ok(c) => index < self.bits_view().len() && c == rank(self.bits_view(), true, index as int),
                Err(err) => index >= self.bits_view().len() && err == NodeError::NotANodeError,
            },
    {
        let e = self.excess(index)?;
        proof {
            lemma_rank_excess(self.bits@, index as int);
        }
        Ok(((index as i64 + 1 + e) / 2) as u64)
    }

    /// The number of 0-bits among `bits[0..=index]`.
    pub fn rank_0(&self, index: u64) -> (r: Result<u64, NodeError>)
        requires
            self.wf(),
        ensures
            match r {
                Ok(c) => index < self.bits_view().len() && c == rank(self.bits_view(), false, index as int),
                Err(err) => index >= self.bits_view().len() && err == NodeError::NotANodeError,
            },
    {
        let ones = self.rank_1(index)?;
        proof {
            lemma_rank_excess(self.bits@, index as int);
        }
        Ok(index + 1 - ones)
    }

    /// The number of bits equal to `bit` under node `v`.
    fn count_in_node(&self, v: usize, bit: bool) -> (c: u64)
        requires
            self.wf(),
            v < 2 * self.leaves() - 1,
        ensures
            c == rank(self.bits_view(), bit, self.range_of(v as int).1 - 1) - rank(
                self.bits_view(),
                bit,
                self.range_of(v as int).0 - 1,
            ),
    {
        proof {
            self.lemma_node(v as int);
            let rg = self.range_of(v as int);
            lemma_rank_excess(self.bits@, rg.0 - 1);
            lemma_rank_excess(self.bits@, rg.1 - 1);
        }
        let nd = self.heap[v];
        if bit {
            ((nd.bits_for_node as i64 + nd.excess) / 2) as u64
        } else {
            ((nd.bits_for_node as i64 - nd.excess) / 2) as u64
        }
    }

    /// The index of the `k`-th bit equal to `bit`, found by one walk from the
    /// root and a scan of one block.
    fn select_bit(&self, k: u64, bit: bool) -> (r: Result<u64, NodeError>)
        requires
            self.wf(),
        ensures
            match r {
                Ok(j) => select(self.bits_view(), bit, k as int) == j,
                Err(err) => select(self.bits_view(), bit, k as int) == -1 && err
                    == NodeError::NotANodeError,
            },
    {
        let ghost sq = self.bits@;
        let ghost p = self.leaves();
        let ghost n = sq.len() as int;
        proof {
            lemma_select(sq, bit, k as int);
            self.lemma_root();
        }
        let total = self.count_in_node(0, bit);
        if k == 0 || k > total {
            return Err(NodeError::NotANodeError);
        }
        let half = self.heap.len() / 2;
        let mut v: usize = 0;
        let mut l: u64 = 0;
        let mut r: u64 = (half + 1) as u64;
        let mut rem: u64 = k;
        while v < half
            invariant
                self.wf(),
                sq == self.bits_view(),
                p == self.leaves(),
                n == sq.len(),
                half == p - 1,
                0 <= v < 2 * p - 1,
                p <= 2 * MAX_BITS,
                self.nodes().len() == 2 * p - 1,
                span(v as int, p) == (l as int, r as int),
                l < r <= p,
                1 <= rem,
                rem <= rank(sq, bit, self.range_of(v as int).1 - 1) - rank(sq, bit, self.range_of(v as int).0 - 1),
                rank(sq, bit, self.range_of(v as int).0 - 1) + rem == k,
            decreases r - l,
        {
            proof {
                lemma_inner_span(v as int, p);
                lemma_children_ranges(v as int, p, self.block(), n);
            }
            let m = (l + r) / 2;
            assert(2 * v + 2 < self.heap.len());
            let in_left = self.count_in_node(2 * v + 1, bit);
            if rem <= in_left {
                v = 2 * v + 1;
                r = m;
            } else {
                rem = rem - in_left;
                v = 2 * v + 2;
                l = m;
            }
        }
        proof {
            lemma_leaf_span(v as int, p);
        }
        let (lo, hi) = self.bit_range(l, r);
        let mut c: u64 = 0;
        let mut j: u64 = lo;
        while j < hi
            invariant
                self.wf(),
                sq == self.bits_view(),
                n == sq.len(),
                lo <= j <= hi <= n,
                lo == self.range_of(v as int).0,
                hi == self.range_of(v as int).1,
                c == rank(sq, bit, j - 1) - rank(sq, bit, lo - 1),
                c < rem,
                rem <= rank(sq, bit, hi - 1) - rank(sq, bit, lo - 1),
                rank(sq, bit, lo - 1) + rem == k,
            decreases hi - j,
        {
            let here = self.bits[j as usize];
            assert(here == sq[j as int]);
            assert(rank(sq, bit, j as int) == rank(sq, bit, j - 1) + if sq[j as int] == bit {
                1int
            } else {
                0int
            });
            if here == bit {
                c = c + 1;
                if c == rem {
                    proof {
                        lemma_select_unique(sq, bit, k as int, j as int);
                    }
                    return Ok(j);
                }
            }
            j = j + 1;
        }
        Err(NodeError::NotANodeError)
    }

    /// The index of the `k`-th 1-bit (counting from 1).
    pub fn select_1(&self, k: u64) -> (r: Result<u64, NodeError>)
        requires
            self.wf(),
        ensures
            match r {
                Ok(j) => select(self.bits_view(), true, k as int) == j,
                Err(err) => select(self.bits_view(), true, k as int) == -1 && err
                    == NodeError::NotANodeError,
            },
    {
        self.select_bit(k, true)
    }

    /// The index of the `k`-th 0-bit (counting from 1).
    pub fn select_0(&self, k: u64) -> (r: Result<u64, NodeError>)
        requires
            self.wf(),
        ensures
            match r {
                Ok(j) => select(self.bits_view(), false, k as int) == j,
                Err(err) => select(self.bits_view(), false, k as int) == -1 && err
                    == NodeError::NotANodeError,
            },
    {
        self.select_bit(k, false)
    }

    /// The first position `j` of `[max(lo, from), hi)` under node `v` with
    /// `E(j) == target`; `base` is the excess just before the node.
    fn fwd_in_node(&self, v: usize, l: u64, r: u64, from: u64, target: i128, base: i128) -> (res:
        Option<u64>)
        requires
            self.wf(),
            0 <= v < 2 * self.leaves() - 1,
            span(v as int, self.leaves()) == (l as int, r as int),
            base == excess(self.bits_view(), self.range_of(v as int).0 - 1),
        ensures
            ({
                let lo = self.range_of(v as int).0;
                let hi = self.range_of(v as int).1;
                let start = if lo < from {
                    from as int
                } else {
                    lo
                };
                match res {
                    Some(j) => start <= j < hi && excess(self.bits_view(), j as int) == target
                        && no_hit(self.bits_view(), start, j as int, target as int),
                    None => no_hit(self.bits_view(), start, hi, target as int),
                }
            }),
        decreases r - l,
    {
        let ghost sq = self.bits@;
        let ghost p = self.leaves();
        proof {
            lemma_span(v as int, p);
            self.lemma_node(v as int);
            lemma_excess_lipschitz(sq, -1, self.range_of(v as int).0 - 1);
        }
        let (lo, hi) = self.bit_range(l, r);
        if hi <= from {
            return None;
        }
        let nd = self.heap[v];
        if lo >= from && (target < base + nd.min_excess as i128 || target > base
            + nd.max_excess as i128) {
            return None;
        }
        if self.is_leaf(v) {
            let start = if lo < from {
                from
            } else {
                lo
            };
            let mut e: i128 = base;
            let mut k: u64 = lo;
            while k < hi
                invariant
                    self.wf(),
                    sq == self.bits_view(),
                    lo <= k <= hi <= sq.len(),
                    sq.len() <= MAX_BITS,
                    lo == self.range_of(v as int).0,
                    hi == self.range_of(v as int).1,
                    start == if lo < from {
                        from
                    } else {
                        lo
                    },
                    e == excess(sq, k - 1),
                    no_hit(sq, start as int, k as int, target as int),
                decreases hi - k,
            {
                proof {
                    lemma_excess_lipschitz(sq, -1, k as int);
                }
                assert(excess(sq, k as int) == excess(sq, k - 1) + step(sq[k as int]));
                let bit = self.bits[k as usize];
                assert(bit == sq[k as int]);
                if bit {
                    e = e + 1;
                } else {
                    e = e - 1;
                }
                assert(e == excess(sq, k as int));
                if k >= start && e == target {
                    return Some(k);
                }
                k = k + 1;
            }
            None
        } else {
            proof {
                lemma_inner_span(v as int, p);
                lemma_children_ranges(v as int, p, self.block(), sq.len() as int);
                self.lemma_node(2 * v + 1);
            }
            assert(2 * v + 2 < self.heap.len());
            let m = (l + r) / 2;
            let left = self.left_child(v);
            match self.fwd_in_node(left, l, m, from, target, base) {
                Some(j) => Some(j),
                None => self.fwd_in_node(
                    self.right_child(v),
                    m,
                    r,
                    from,
                    target,
                    base + self.heap[left].excess as i128,
                ),
            }
        }
    }

    /// The last position `j` of `[lo, min(hi, upto))` under node `v` with
    /// `E(j) == target`; `base` is the excess just before the node.
    fn bwd_in_node(&self, v: usize, l: u64, r: u64, upto: u64, target: i128, base: i128) -> (res:
        Option<u64>)
        requires
            self.wf(),
            0 <= v < 2 * self.leaves() - 1,
            span(v as int, self.leaves()) == (l as int, r as int),
            base == excess(self.bits_view(), self.range_of(v as int).0 - 1),
        ensures
            ({
                let lo = self.range_of(v as int).0;
                let hi = self.range_of(v as int).1;
                let end = if hi < upto {
                    hi
                } else {
                    upto as int
                };
                match res {
                    Some(j) => lo <= j < end && excess(self.bits_view(), j as int) == target
                        && no_hit(self.bits_view(), j + 1, end, target as int),
                    None => no_hit(self.bits_view(), lo, end, target as int),
                }
            }),
        decreases r - l,
    {
        let ghost sq = self.bits@;
        let ghost p = self.leaves();
        proof {
            lemma_span(v as int, p);
            self.lemma_node(v as int);
            lemma_excess_lipschitz(sq, -1, self.range_of(v as int).0 - 1);
        }
        let (lo, hi) = self.bit_range(l, r);
        if lo >= upto {
            return None;
        }
        let nd = self.heap[v];
        if hi <= upto && (target < base + nd.min_excess as i128 || target > base
            + nd.max_excess as i128) {
            return None;
        }
        if self.is_leaf(v) {
            let end = if hi < upto {
                hi
            } else {
                upto
            };
            let mut e: i128 = base;
            let mut k: u64 = lo;
            let mut found: Option<u64> = None;
            while k < end
                invariant
                    self.wf(),
                    sq == self.bits_view(),
                    lo <= k <= end <= hi <= sq.len(),
                    sq.len() <= MAX_BITS,
                    lo == self.range_of(v as int).0,
                    hi == self.range_of(v as int).1,
                    end == if hi < upto {
                        hi
                    } else {
                        upto
                    },
                    e == excess(sq, k - 1),
                    match found {
                        Some(j) => lo <= j < k && excess(sq, j as int) == target && no_hit(
                            sq,
                            j + 1,
                            k as int,
                            target as int,
                        ),
                        None => no_hit(sq, lo as int, k as int, target as int),
                    },
                decreases end - k,
            {
                proof {
                    lemma_excess_lipschitz(sq, -1, k as int);
                }
                assert(excess(sq, k as int) == excess(sq, k - 1) + step(sq[k as int]));
                let bit = self.bits[k as usize];
                assert(bit == sq[k as int]);
                if bit {
                    e = e + 1;
                } else {
                    e = e - 1;
                }
                assert(e == excess(sq, k as int));
                if e == target {
                    found = Some(k);
                }
                k = k + 1;
            }
            found
        } else {
            proof {
                lemma_inner_span(v as int, p);
                lemma_children_ranges(v as int, p, self.block(), sq.len() as int);
                self.lemma_node(2 * v + 1);
            }
            assert(2 * v + 2 < self.heap.len());
            let m = (l + r) / 2;
            let left = self.left_child(v);
            match self.bwd_in_node(
                self.right_child(v),
                m,
                r,
                upto,
                target,
                base + self.heap[left].excess as i128,
            ) {
                Some(j) => Some(j),
                None => self.bwd_in_node(left, l, m, upto, target, base),
            }
        }
    }

    /// The smallest `j > index` with `E(j) == E(index) + diff - 1`.
    pub fn fwd_search(&self, index: u64, diff: i64) -> (r: Result<u64, NodeError>)
        requires
            self.wf(),
        ensures
            index >= self.bits_view().len() ==> r == Err::<u64, NodeError>(NodeError::NotANodeError),
            index < self.bits_view().len() ==> {
                let t = excess(self.bits_view(), index as int) + diff - 1;
                match r {
                    Ok(j) => first_hit(self.bits_view(), index + 1, t, j as int),
                    Err(err) => err == NodeError::NotFoundError && no_hit(
                        self.bits_view(),
                        index + 1,
                        self.bits_view().len() as int,
                        t,
                    ),
                }
            },
    {
        let e = self.excess(index)?;
        let target = e as i128 + diff as i128 - 1;
        proof {
            self.lemma_root();
        }
        let top = (self.heap.len() / 2 + 1) as u64;
        match self.fwd_in_node(0, 0, top, index + 1, target, 0) {
            Some(j) => Ok(j),
            None => Err(NodeError::NotFoundError),
        }
    }

    /// The largest `j < index` with `E(j) == E(index) + diff`.
    pub fn bwd_search(&self, index: u64, diff: i64) -> (r: Result<u64, NodeError>)
        requires
            self.wf(),
        ensures
            index >= self.bits_view().len() ==> r == Err::<u64, NodeError>(NodeError::NotANodeError),
            index < self.bits_view().len() ==> {
                let t = excess(self.bits_view(), index as int) + diff;
                match r {
                    Ok(j) => last_hit(self.bits_view(), index as int, t, j as int),
                    Err(err) => err == NodeError::NotFoundError && no_hit(
                        self.bits_view(),
                        0,
                        index as int,
                        t,
                    ),
                }
            },
    {
        let e = self.excess(index)?;
        let target = e as i128 + diff as i128;
        proof {
            self.lemma_root();
        }
        let top = (self.heap.len() / 2 + 1) as u64;
        match self.bwd_in_node(0, 0, top, index, target, 0) {
            Some(j) => Ok(j),
            None => Err(NodeError::NotFoundError),
        }
    }

    /// The matching closing bracket of the bracket at `index`: the first
    /// position after it where the excess drops to `E(index) - 1`.
    pub fn find_close(&self, index: u64) -> (r: Result<u64, NodeError>)
        requires
            self.wf(),
        ensures
            index >= self.bits_view().len() ==> r == Err::<u64, NodeError>(NodeError::NotANodeError),
            index < self.bits_view().len() ==> {
                let t = excess(self.bits_view(), index as int) - 1;
                match r {
                    Ok(j) => first_hit(self.bits_view(), index + 1, t, j as int),
                    Err(err) => err == NodeError::NotFoundError && no_hit(
                        self.bits_view(),
                        index + 1,
                        self.bits_view().len() as int,
                        t,
                    ),
                }
            },
    {
        self.fwd_search(index, 0)
    }

    /// The opening bracket that most closely encloses the bracket at `index`.
    pub fn enclose(&self, index: u64) -> (r: Result<u64, NodeError>)
        requires
            self.wf(),
        ensures
            index >= self.bits_view().len() ==> r == Err::<u64, NodeError>(NodeError::NotANodeError),
            index < self.bits_view().len() ==> match r {
                Ok(q) => encloses(self.bits_view(), index as int, q as int),
                Err(err) => err == NodeError::NotFoundError && forall|q: int|
                    0 <= q < index && self.bits_view()[q] ==> #[trigger] excess(self.bits_view(), q)
                        != parent_level(self.bits_view(), index as int),
            },
    {
        let ghost sq = self.bits@;
        let e = self.excess(index)?;
        proof {
            lemma_excess_lipschitz(sq, -1, index as int);
        }
        let open = self.bits[index as usize];
        let level: i64 = if open {
            e - 1
        } else {
            e
        };
        proof {
            self.lemma_root();
            lemma_excess_lipschitz(sq, -1, index as int);
            assert(excess(sq, index as int) == excess(sq, index - 1) + step(sq[index as int]));
        }
        let top = (self.heap.len() / 2 + 1) as u64;
        let t = level as i128 - 1;
        match self.bwd_in_node(0, 0, top, index, t, 0) {
            Some(j) => {
                proof {
                    // E(index - 1) is at least the level, so j + 1 < index
                    assert(excess(sq, j + 1) == excess(sq, j as int) + step(sq[j + 1]));
                    if !sq[j + 1] {
                        lemma_climb(sq, j + 1, index - 1, t as int);
                    }
                    assert forall|k: int| j + 1 < k < index && sq[k] implies #[trigger] excess(
                        sq,
                        k,
                    ) != parent_level(sq, index as int) by {
                        assert(excess(sq, k) == excess(sq, k - 1) + step(sq[k]));
                    }
                }
                Ok(j + 1)
            },
            None => {
                if t == 0 && index > 0 {
                    proof {
                        assert(excess(sq, 0) == excess(sq, -1) + step(sq[0]));
                        if !sq[0] && index > 1 {
                            lemma_climb(sq, 0, index - 1, 0);
                        }
                        assert forall|k: int| 0 < k < index && sq[k] implies #[trigger] excess(
                            sq,
                            k,
                        ) != parent_level(sq, index as int) by {
                            assert(excess(sq, k) == excess(sq, k - 1) + step(sq[k]));
                        }
                    }
                    Ok(0)
                } else {
                    proof {
                        assert forall|q: int| 0 <= q < index && sq[q] implies #[trigger] excess(
                            sq,
                            q,
                        ) != parent_level(sq, index as int) by {
                            assert(excess(sq, q) == excess(sq, q - 1) + step(sq[q]));
                        }
                    }
                    Err(NodeError::NotFoundError)
                }
            },
        }
    }

    /// The heap index of the parent of node `index`.
    pub fn parent(&self, index: usize) -> (r: usize)
        requires
            index >= 1,
        ensures
            r == (index - 1) / 2,
    {
        (index - 1) / 2
    }

    /// The heap index of the left child of node `index`.
    pub fn left_child(&self, index: usize) -> (r: usize)
        requires
            2 * index + 1 <= usize::MAX,
        ensures
            r == 2 * index + 1,
    {
        2 * index + 1
    }

    /// The heap index of the right child of node `index`.
    pub fn right_child(&self, index: usize) -> (r: usize)
        requires
            2 * index + 2 <= usize::MAX,
        ensures
            r == 2 * index + 2,
    {
        2 * index + 2
    }

    /// Whether heap node `index` is a leaf: it lies in the last level.
    pub fn is_leaf(&self, index: usize) -> (r: bool)
        ensures
            r == (index >= self.nodes().len() / 2),
    {
        index >= self.heap.len() / 2
    }

    /// The number of 1-bits under heap node `heap_index`.
    pub fn ones_for_node(&self, heap_index: usize) -> (r: i64)
        requires
            self.wf(),
            heap_index < self.nodes().len(),
        ensures
            r == rank(self.bits_view(), true, self.range_of(heap_index as int).1 - 1) - rank(
                self.bits_view(),
                true,
                self.range_of(heap_index as int).0 - 1,
            ),
    {
        proof {
            self.lemma_node(heap_index as int);
            lemma_rank_excess(self.bits@, self.range_of(heap_index as int).1 - 1);
            lemma_rank_excess(self.bits@, self.range_of(heap_index as int).0 - 1);
        }
        self.count_in_node(heap_index, true) as i64
    }

    /// The layout of the heap: `2P - 1` nodes for `P` leaves, a power of two
    /// whose blocks cover the bits, and node `v` summarises the bits of its
    /// blocks.
    pub proof fn lemma_layout(&self, v: int)
        requires
            self.wf(),
            0 <= v < self.nodes().len(),
        ensures
            is_pow2(self.leaves()),
            self.nodes().len() == 2 * self.leaves() - 1,
            self.bits_view().len() <= self.leaves() * self.block(),
            ({
                let rg = node_range(v, self.leaves(), self.block(), self.bits_view().len() as int);
                summarizes(self.nodes()[v], self.bits_view(), rg.0, rg.1)
            }),
    {
    }

    /// The composition law: every inner node's five fields are the
    /// composition of its children's.
    pub proof fn lemma_composition_law(&self, v: int)
        requires
            self.wf(),
            0 <= v < self.leaves() - 1,
        ensures
            composes(self.nodes()[v], self.nodes()[2 * v + 1], self.nodes()[2 * v + 2]),
    {
    }

    /// The bits the tree is built over.
    pub fn bits(&self) -> (r: &Vec<bool>)
        ensures
            r@ == self.bits_view(),
    {
        &self.bits
    }

    /// The heap of node summaries.
    pub fn heap(&self) -> (r: &Vec<MinMaxNode>)
        ensures
            r@ == self.nodes(),
    {
        &self.heap
    }
}

} // verus!
