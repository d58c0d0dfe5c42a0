//! Rank and select over a bit sequence, from `bio`'s `RankSelect`.

use bio::data_structures::rank_select::RankSelect;
use bv::BitVec;
use crate::bits::{rank, select};
use vstd::prelude::*;

verus! {

#[verifier::external_type_specification]
#[verifier::external_body]
pub struct ExRankSelect(RankSelect);

/// The bits a rank/select index is built over.
pub uninterp spec fn indexed_bits(rs: RankSelect) -> Seq<bool>;

/// `2^l`.
pub open spec fn pow2(l: nat) -> nat
    decreases l,
{
    if l == 0 {
        1
    } else {
        2 * pow2((l - 1) as nat)
    }
}

/// `ceil(log2(n))`, with 0 for `n <= 1`.
pub open spec fn ceil_log2(n: nat) -> nat
    decreases n,
{
    if n <= 1 {
        0
    } else {
        1 + ceil_log2(((n + 1) / 2) as nat)
    }
}

proof fn lemma_ceil_log2_le(n: nat, t: nat)
    requires
        n <= pow2(t),
    ensures
        ceil_log2(n) <= t,
    decreases n,
{
    if n > 1 {
        if t == 0 {
            assert(pow2(0) == 1);
        } else {
            let h = (t - 1) as nat;
            assert(pow2(t) == 2 * pow2(h));
            lemma_ceil_log2_le(((n + 1) / 2) as nat, h);
        }
    }
}

/// The superblock size (in 32-bit words) for `length` bits:
/// `max(1, ceil(ceil(log2(length))^2 / 32))`.
pub fn calc_superblock_size(length: u64) -> (k: usize)
    ensures
        k == ({
            let l = ceil_log2(length as nat);
            let q = (l * l + 31) / 32;
            if q < 1 {
                1
            } else {
                q
            }
        }),
        1 <= k <= 128,
{
    proof {
        reveal_with_fuel(pow2, 65);
        assert(pow2(64) == 0x1_0000_0000_0000_0000);
        lemma_ceil_log2_le(length as nat, 64);
    }
    let mut l: u64 = 0;
    let mut m: u64 = length;
    while m > 1
        invariant
            l + ceil_log2(m as nat) == ceil_log2(length as nat),
            ceil_log2(length as nat) <= 64,
        decreases m,
    {
        m = m / 2 + m % 2;
        l = l + 1;
    }
    assert(l * l <= 64 * 64) by (nonlinear_arith)
        requires
            l <= 64,
    ;
    let q = ((l * l + 31) / 32) as usize;
    if q < 1 {
        1
    } else {
        q
    }
}

/// Relies on `RankSelect::new` (with `BitVec::from_bits` to pack the bits):
/// the index holds the given bits; superblocks of `k * 32` bits need `k >= 1`.
#[verifier::external_body]
pub(crate) fn new_rank_select(bits: &Vec<bool>, k: usize) -> (r: RankSelect)
    requires
        1 <= k <= 128,
    ensures
        indexed_bits(r) == bits@,
{
    RankSelect::new(BitVec::from_bits(bits.as_slice()), k)
}

/// Relies on `RankSelect::bits` and `bv::BitVec::len`: the number of bits held.
#[verifier::external_body]
pub(crate) fn bit_count(rs: &RankSelect) -> (r: u64)
    ensures
        r == indexed_bits(*rs).len(),
{
    rs.bits().len()
}

/// Relies on `RankSelect::get`: the bit at a position within the length.
#[verifier::external_body]
pub(crate) fn get(rs: &RankSelect, i: u64) -> (r: bool)
    requires
        i < indexed_bits(*rs).len(),
    ensures
        r == indexed_bits(*rs)[i as int],
{
    rs.get(i)
}

/// Relies on `RankSelect::rank_1`: the number of 1-bits up to `i` inclusive,
/// `None` past the end.
#[verifier::external_body]
pub(crate) fn rank_1(rs: &RankSelect, i: u64) -> (r: Option<u64>)
    ensures
        i < indexed_bits(*rs).len() ==> r == Some(rank(indexed_bits(*rs), true, i as int) as u64),
        i >= indexed_bits(*rs).len() ==> r == None::<u64>,
{
    rs.rank_1(i)
}

/// Relies on `RankSelect::rank_0`: the number of 0-bits up to `i` inclusive,
/// `None` past the end.
#[verifier::external_body]
pub(crate) fn rank_0(rs: &RankSelect, i: u64) -> (r: Option<u64>)
    ensures
        i < indexed_bits(*rs).len() ==> r == Some(rank(indexed_bits(*rs), false, i as int) as u64),
        i >= indexed_bits(*rs).len() ==> r == None::<u64>,
{
    rs.rank_0(i)
}

/// Relies on `RankSelect::select_1`: the index of the `j`-th 1-bit, `None`
/// for `j = 0` or past the last one; for `j >= 1` it reads the first
/// superblock, which an empty index lacks.
#[verifier::external_body]
pub(crate) fn select_1(rs: &RankSelect, j: u64) -> (r: Option<u64>)
    requires
        indexed_bits(*rs).len() > 0 || j == 0,
    ensures
        select(indexed_bits(*rs), true, j as int) >= 0 ==> r == Some(
            select(indexed_bits(*rs), true, j as int) as u64,
        ),
        select(indexed_bits(*rs), true, j as int) < 0 ==> r == None::<u64>,
{
    rs.select_1(j)
}

/// Relies on `RankSelect::select_0`: the index of the `j`-th 0-bit, `None`
/// for `j = 0` or past the last one; for `j >= 1` it reads the first
/// superblock, which an empty index lacks.
#[verifier::external_body]
pub(crate) fn select_0(rs: &RankSelect, j: u64) -> (r: Option<u64>)
    requires
        indexed_bits(*rs).len() > 0 || j == 0,
    ensures
        select(indexed_bits(*rs), false, j as int) >= 0 ==> r == Some(
            select(indexed_bits(*rs), false, j as int) as u64,
        ),
        select(indexed_bits(*rs), false, j as int) < 0 ==> r == None::<u64>,
{
    rs.select_0(j)
}

/// The word `{:?}` gives for one bit.
pub open spec fn bit_word(b: bool) -> Seq<char> {
    if b {
        "true"@
    } else {
        "false"@
    }
}

/// The words of `bits`, joined by `, `.
pub open spec fn bit_words(bits: Seq<bool>) -> Seq<char>
    decreases bits.len(),
{
    if bits.len() == 0 {
        Seq::empty()
    } else if bits.len() == 1 {
        bit_word(bits[0])
    } else {
        bit_words(bits.drop_last()) + ", "@ + bit_word(bits.last())
    }
}

/// The text that `{:?}` gives for a `bv::BitVec` holding `bits`:
/// `bit_vec![`, the words of the bits joined by `, `, and `]`.
pub open spec fn bits_debug_text(bits: Seq<bool>) -> Seq<char> {
    "bit_vec!["@ + bit_words(bits) + "]"@
}

/// Relies on `RankSelect::bits` and the `Debug` of `bv::BitVec`, which
/// writes the bits as a `BitSlice` does: `bit_vec![`, each bit's word with
/// `, ` between them, then `]`.
#[verifier::external_body]
pub(crate) fn bits_debug(rs: &RankSelect) -> (r: String)
    ensures
        r@ == bits_debug_text(indexed_bits(*rs)),
{
    format!("{:?}", rs.bits())
}

} // verus!
