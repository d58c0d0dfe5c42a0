//! Random bit sequences whose excess ends at 0: candidates for a valid
//! encoding, kept or dropped by the caller.

use crate::bits::{excess, lemma_excess_concat, lemma_excess_repeat, repeat, step, total};
use vstd::prelude::*;

verus! {

/// How many random bits a candidate starts with.
pub const RANDOM_BITS: u64 = 10000;

/// Relies on `rand::random::<bool>`: some bit, nothing more is known.
#[verifier::external_body]
fn random_bit() -> bool {
    rand::random::<bool>()
}

/// Appends to `bits` the bits that bring its excess back to 0: closing bits
/// where it is positive, opening bits where it is negative.
pub fn balance(bits: &mut Vec<bool>)
    requires
        old(bits)@.len() <= 0x1000_0000_0000_0000,
    ensures
        total(old(bits)@) >= 0 ==> final(bits)@ == old(bits)@ + repeat(
            false,
            total(old(bits)@) as nat,
        ),
        total(old(bits)@) < 0 ==> final(bits)@ == old(bits)@ + repeat(
            true,
            (-total(old(bits)@)) as nat,
        ),
        total(final(bits)@) == 0,
{
    let ghost start = bits@;
    let mut e: i64 = 0;
    let mut i: usize = 0;
    let n = bits.len();
    while i < n
        invariant
            n == start.len(),
            bits@ == start,
            n <= 0x1000_0000_0000_0000,
            i <= n,
            e == excess(start, i - 1),
            -i <= e <= i,
        decreases n - i,
    {
        assert(excess(start, i as int) == excess(start, i - 1) + step(start[i as int]));
        if bits[i] {
            e = e + 1;
        } else {
            e = e - 1;
        }
        i = i + 1;
    }
    let fill = e <= 0;
    let count: u64 = if e >= 0 {
        e as u64
    } else {
        (-e) as u64
    };
    let mut j: u64 = 0;
    while j < count
        invariant
            j <= count,
            count <= 0x1000_0000_0000_0000,
            bits@ == start + repeat(fill, j as nat),
        decreases count - j,
    {
        bits.push(fill);
        assert(start + repeat(fill, (j + 1) as nat) == (start + repeat(fill, j as nat)).push(fill));
        j = j + 1;
    }
    proof {
        if count > 0 {
            lemma_excess_concat(start, repeat(fill, count as nat), count - 1);
            lemma_excess_repeat(fill, count as nat, count - 1);
        } else {
            assert(bits@ == start);
        }
    }
}

/// `RANDOM_BITS` random bits, then the bits that bring the excess back to 0.
pub fn generate_bits() -> (r: Vec<bool>)
    ensures
        r@.len() >= RANDOM_BITS,
        total(r@) == 0,
{
    let mut bits: Vec<bool> = Vec::new();
    let mut i: u64 = 0;
    while i < RANDOM_BITS
        invariant
            i <= RANDOM_BITS,
            bits@.len() == i,
        decreases RANDOM_BITS - i,
    {
        bits.push(random_bit());
        i = i + 1;
    }
    balance(&mut bits);
    bits
}

} // verus!
