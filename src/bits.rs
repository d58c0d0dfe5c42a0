//! The bit sequence model: excess, rank and select over `Seq<bool>`, the
//! validity of a parenthesis sequence.

use vstd::prelude::*;

verus! {

/// +1 for an opening bit, -1 for a closing one.
pub open spec fn step(b: bool) -> int {
    if b {
        1
    } else {
        -1
    }
}

/// `E(i)`: opening minus closing bits among `s[0..=i]`, with `E(-1) = 0`.
pub open spec fn excess(s: Seq<bool>, i: int) -> int
    decreases i + 1,
{
    if i < 0 {
        0
    } else {
        excess(s, i - 1) + step(s[i])
    }
}

/// The number of bits equal to `b` among `s[0..=i]`.
pub open spec fn rank(s: Seq<bool>, b: bool, i: int) -> int
    decreases i + 1,
{
    if i < 0 {
        0
    } else {
        rank(s, b, i - 1) + if s[i] == b {
            1int
        } else {
            0int
        }
    }
}

/// The index of the `k`-th bit equal to `b` (counting from 1), or -1 where
/// there are fewer than `k` such bits or `k < 1`.
pub open spec fn select(s: Seq<bool>, b: bool, k: int) -> int
    decreases s.len(),
{
    if k <= 0 || s.len() == 0 || rank(s, b, s.len() - 1) < k {
        -1
    } else if s.last() == b && rank(s, b, s.len() - 1) == k {
        s.len() - 1
    } else {
        select(s.drop_last(), b, k)
    }
}

/// A valid balanced-parenthesis sequence: the excess ends at 0 and stays at
/// least 1 before the last bit.
pub open spec fn valid_parens(s: Seq<bool>) -> bool {
    &&& excess(s, s.len() - 1) == 0
    &&& forall|i: int| 0 <= i < s.len() - 1 ==> excess(s, i) >= 1
}

/// `j` is the first position at or after `from` where the excess is `t`.
pub open spec fn first_hit(s: Seq<bool>, from: int, t: int, j: int) -> bool {
    &&& from <= j < s.len()
    &&& excess(s, j) == t
    &&& forall|k: int| from <= k < j ==> #[trigger] excess(s, k) != t
}

/// No position of `[from, to)` has excess `t`.
pub open spec fn no_hit(s: Seq<bool>, from: int, to: int, t: int) -> bool {
    forall|k: int| from <= k < to ==> #[trigger] excess(s, k) != t
}

/// `j` is the last position before `to` where the excess is `t`.
pub open spec fn last_hit(s: Seq<bool>, to: int, t: int, j: int) -> bool {
    &&& 0 <= j < to
    &&& excess(s, j) == t
    &&& forall|k: int| j < k < to ==> #[trigger] excess(s, k) != t
}

/// The excess of the opening bracket that encloses the bracket at `i`.
pub open spec fn parent_level(s: Seq<bool>, i: int) -> int {
    if s[i] {
        excess(s, i) - 1
    } else {
        excess(s, i)
    }
}

/// `q` is the opening bracket that most closely encloses the bracket at `i`:
/// the last opening bracket before `i` at the enclosing level.
pub open spec fn encloses(s: Seq<bool>, i: int, q: int) -> bool {
    &&& 0 <= q < i
    &&& s[q]
    &&& excess(s, q) == parent_level(s, i)
    &&& forall|k: int| q < k < i && s[k] ==> #[trigger] excess(s, k) != parent_level(s, i)
}

/// The excess at the end of `s`.
pub open spec fn total(s: Seq<bool>) -> int {
    excess(s, s.len() - 1)
}

/// `k` bits equal to `b`.
pub open spec fn repeat(b: bool, k: nat) -> Seq<bool> {
    Seq::new(k, |i: int| b)
}

/// The excess inside `a + b` continues from the end of `a`.
pub proof fn lemma_excess_concat(a: Seq<bool>, b: Seq<bool>, i: int)
    requires
        -1 <= i < b.len(),
    ensures
        excess(a + b, a.len() + i) == total(a) + excess(b, i),
    decreases i + 1,
{
    if i >= 0 {
        lemma_excess_concat(a, b, i - 1);
        assert((a + b)[a.len() + i] == b[i]);
    } else {
        if a.len() > 0 {
            lemma_prefix_agree(a + b, a, a.len() - 1);
        }
    }
}

/// Within a run of equal bits the excess moves by one per bit.
pub proof fn lemma_excess_repeat(b: bool, k: nat, i: int)
    requires
        -1 <= i < k,
    ensures
        b ==> excess(repeat(b, k), i) == i + 1,
        !b ==> excess(repeat(b, k), i) == -(i + 1),
    decreases i + 1,
{
    if i >= 0 {
        lemma_excess_repeat(b, k, i - 1);
        assert(repeat(b, k)[i] == b);
    }
}

/// Excess and rank at `i` depend on `s[0..=i]` alone.
pub proof fn lemma_prefix_agree(s: Seq<bool>, t: Seq<bool>, i: int)
    requires
        i < s.len(),
        i < t.len(),
        forall|j: int| 0 <= j <= i ==> s[j] == t[j],
    ensures
        excess(s, i) == excess(t, i),
        rank(s, true, i) == rank(t, true, i),
        rank(s, false, i) == rank(t, false, i),
    decreases i + 1,
{
    if i >= 0 {
        lemma_prefix_agree(s, t, i - 1);
    }
}

/// Ones and zeros up to `i` add up to `i + 1`, and differ by `E(i)`.
pub proof fn lemma_rank_excess(s: Seq<bool>, i: int)
    requires
        -1 <= i < s.len(),
    ensures
        rank(s, true, i) + rank(s, false, i) == i + 1,
        rank(s, true, i) - rank(s, false, i) == excess(s, i),
        0 <= rank(s, true, i) <= i + 1,
        0 <= rank(s, false, i) <= i + 1,
    decreases i + 1,
{
    if i >= 0 {
        lemma_rank_excess(s, i - 1);
    }
}

/// Rank does not decrease along the sequence.
pub proof fn lemma_rank_mono(s: Seq<bool>, b: bool, i: int, j: int)
    requires
        -1 <= i <= j,
    ensures
        rank(s, b, i) <= rank(s, b, j),
    decreases j - i,
{
    if i < j {
        lemma_rank_mono(s, b, i, j - 1);
    }
}

/// What `select` returns: the `k`-th bit equal to `b` where it exists.
pub proof fn lemma_select(s: Seq<bool>, b: bool, k: int)
    ensures
        select(s, b, k) == -1 <==> (k < 1 || k > rank(s, b, s.len() - 1)),
        select(s, b, k) != -1 ==> {
            let j = select(s, b, k);
            &&& 0 <= j < s.len()
            &&& s[j] == b
            &&& rank(s, b, j) == k
        },
    decreases s.len(),
{
    if k >= 1 && s.len() > 0 && rank(s, b, s.len() - 1) >= k {
        if !(s.last() == b && rank(s, b, s.len() - 1) == k) {
            let t = s.drop_last();
            let n = s.len() - 1;
            assert(rank(s, b, n) == rank(s, b, n - 1) + if s[n] == b {
                1int
            } else {
                0int
            });
            if n > 0 {
                lemma_prefix_agree(s, t, n - 1);
            }
            assert(rank(t, b, t.len() - 1) >= k);
            lemma_select(t, b, k);
            let j = select(t, b, k);
            if j != -1 {
                lemma_prefix_agree(s, t, j);
            }
        }
    }
}

/// A bit equal to `b` at which the rank reaches `k` is the `k`-th such bit.
pub proof fn lemma_select_unique(s: Seq<bool>, b: bool, k: int, x: int)
    requires
        0 <= x < s.len(),
        s[x] == b,
        rank(s, b, x) == k,
    ensures
        select(s, b, k) == x,
{
    lemma_rank_excess(s, x);
    lemma_rank_mono(s, b, x, s.len() - 1);
    lemma_select(s, b, k);
    let j = select(s, b, k);
    if j < x {
        lemma_rank_mono(s, b, j, x - 1);
    } else if j > x {
        lemma_rank_mono(s, b, x, j - 1);
    }
}

/// Two steps of the excess differ by at most their distance.
pub proof fn lemma_excess_lipschitz(s: Seq<bool>, i: int, j: int)
    requires
        -1 <= i <= j,
    ensures
        excess(s, j) - excess(s, i) <= j - i,
        excess(s, i) - excess(s, j) <= j - i,
    decreases j - i,
{
    if i < j {
        lemma_excess_lipschitz(s, i, j - 1);
    }
}

/// The excess cannot climb past a value without taking it, on an opening bit.
pub proof fn lemma_climb(s: Seq<bool>, a: int, b: int, v: int)
    requires
        -1 <= a < b,
        excess(s, a) < v <= excess(s, b),
    ensures
        exists|k: int| a < k <= b && #[trigger] excess(s, k) == v && excess(s, k - 1) == v - 1,
    decreases b - a,
{
    if excess(s, b - 1) >= v {
        lemma_climb(s, a, b - 1, v);
        let k = choose|k: int| a < k <= b - 1 && #[trigger] excess(s, k) == v && excess(s, k - 1) == v - 1;
        assert(a < k <= b);
    } else {
        assert(excess(s, b) == v && excess(s, b - 1) == v - 1);
    }
}

/// The excess cannot fall past a value without taking it, on a closing bit.
pub proof fn lemma_fall(s: Seq<bool>, a: int, b: int, v: int)
    requires
        -1 <= a < b,
        excess(s, a) > v >= excess(s, b),
    ensures
        exists|k: int| a < k <= b && #[trigger] excess(s, k) == v && excess(s, k - 1) == v + 1,
    decreases b - a,
{
    if excess(s, b - 1) <= v {
        lemma_fall(s, a, b - 1, v);
        let k = choose|k: int| a < k <= b - 1 && #[trigger] excess(s, k) == v && excess(s, k - 1) == v + 1;
        assert(a < k <= b);
    } else {
        assert(excess(s, b) == v && excess(s, b - 1) == v + 1);
    }
}

/// Whether two bit sequences are equal.
pub fn same_bits(a: &Vec<bool>, b: &Vec<bool>) -> (r: bool)
    ensures
        r == (a@ == b@),
{
    if a.len() != b.len() {
        return false;
    }
    let mut i: usize = 0;
    while i < a.len()
        invariant
            a@.len() == b@.len(),
            i <= a@.len(),
            forall|j: int| 0 <= j < i ==> a@[j] == b@[j],
        decreases a@.len() - i,
    {
        if a[i] != b[i] {
            return false;
        }
        i = i + 1;
    }
    assert(a@ =~= b@);
    true
}

/// Whether `bitvec` is a valid balanced-parenthesis sequence.
pub fn is_valid(bitvec: &Vec<bool>) -> (r: bool)
    ensures
        r == valid_parens(bitvec@),
{
    let ghost s = bitvec@;
    let n = bitvec.len();
    let mut e: usize = 0;
    let mut i: usize = 0;
    while i < n
        invariant
            n == s.len(),
            s == bitvec@,
            i <= n,
            e as int == excess(s, i - 1),
            e <= i,
            0 < i < n ==> e >= 1,
            forall|j: int| 0 <= j < i && j < n - 1 ==> excess(s, j) >= 1,
        decreases n - i,
    {
        let bit = bitvec[i];
        assert(bit == s[i as int]);
        assert(excess(s, i as int) == excess(s, i - 1) + step(s[i as int]));
        if bit {
            e = e + 1;
        } else {
            if e <= 1 && i + 1 < n {
                // E(i) would drop below 1 before the last bit
                assert(excess(s, i as int) < 1);
                return false;
            }
            if e == 0 {
                // here i is the last bit, and E(i) = -1
                assert(excess(s, s.len() - 1) == -1);
                return false;
            }
            e = e - 1;
        }
        i = i + 1;
    }
    e == 0
}

} // verus!
