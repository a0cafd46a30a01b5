//! The bit-width estimators.
//!
//! The width of a block is the width of the OR of all its values: the rows
//! are OR-ed lane-parallel, the four lanes are collapsed, and the position
//! of the highest set bit is counted.  The sorted estimator applies the
//! same fold to the block's wrapping deltas.

use vstd::prelude::*;
use vstd::arithmetic::power2::{pow2, lemma_pow2_pos, lemma2_to64};
use vstd::arithmetic::div_mod::{
    lemma_basic_div, lemma_div_denominator, lemma_fundamental_div_mod,
};
use crate::lanes::{op_or, or_collapse_to_u32, set1};
use crate::layout::{lane_seq, lemma_shl1_is_pow2};

verus! {

/// All values of `x` fit in `n` bits.
pub open spec fn fits(x: Seq<u32>, n: nat) -> bool {
    forall|i: int| 0 <= i < x.len() ==> (x[i] as nat) < pow2(n)
}

/// `n` is the least width in which every value of `x` fits.
pub open spec fn is_min_width(x: Seq<u32>, n: nat) -> bool {
    &&& fits(x, n)
    &&& n == 0 || !fits(x, (n - 1) as nat)
}

/// OR of all values of a sequence.
pub open spec fn or_fold(x: Seq<u32>) -> u32
    decreases x.len(),
{
    if x.len() == 0 {
        0u32
    } else {
        or_fold(x.drop_last()) | x.last()
    }
}

/// Each value is bounded by the OR of them all.
proof fn lemma_or_fold_le(x: Seq<u32>, i: int)
    requires
        0 <= i < x.len(),
    ensures
        x[i] as nat <= or_fold(x) as nat,
    decreases x.len(),
{
    let a = or_fold(x.drop_last());
    let b = x.last();
    assert(a as u64 <= (a | b) as u64 && b as u64 <= (a | b) as u64) by (bit_vector);
    if i < x.len() - 1 {
        lemma_or_fold_le(x.drop_last(), i);
    }
}

/// The OR of values that all fit in `n` bits fits in `n` bits.
proof fn lemma_or_fold_bound(x: Seq<u32>, n: nat)
    requires
        n <= 32,
        fits(x, n),
    ensures
        (or_fold(x) as nat) < pow2(n),
    decreases x.len(),
{
    lemma_pow2_pos(n);
    lemma_shl1_is_pow2(n as u32);
    if x.len() > 0 {
        assert(fits(x.drop_last(), n));
        lemma_or_fold_bound(x.drop_last(), n);
        let a = or_fold(x.drop_last());
        let b = x.last();
        let e = n as u32;
        assert(((a | b) as u64) < (1u64 << e)) by (bit_vector)
            requires
                e <= 32,
                (a as u64) < (1u64 << e),
                (b as u64) < (1u64 << e),
        ;
    }
}

/// The smallest width that holds `m`: the position one past its top bit.
fn bit_width_u32(m: u32) -> (n: u8)
    ensures
        n <= 32,
        (m as nat) < pow2(n as nat),
        n > 0 ==> (m as nat) >= pow2((n - 1) as nat),
{
    let mut t = m;
    let mut c: u8 = 0;
    proof {
        lemma2_to64();
    }
    while t > 0
        invariant
            c <= 32,
            t as nat == (m as nat) / pow2(c as nat),
            c > 0 ==> (m as nat) >= pow2((c - 1) as nat),
        decreases t,
    {
        proof {
            lemma2_to64();
            lemma_pow2_pos(c as nat);
            // t > 0 forces m >= 2^c, so c stays below 32
            if (m as nat) < pow2(c as nat) {
                lemma_basic_div(m as int, pow2(c as nat) as int);
                assert(false);
            }
            if c >= 32 {
                lemma2_to64();
                assert(false);
            }
            lemma_div_denominator(m as int, pow2(c as nat) as int, 2);
            vstd::arithmetic::power2::lemma_pow2_adds(c as nat, 1);
        }
        t = t / 2;
        c = c + 1;
    }
    proof {
        lemma_pow2_pos(c as nat);
        lemma_fundamental_div_mod(m as int, pow2(c as nat) as int);
        vstd::arithmetic::div_mod::lemma_mod_division_less_than_divisor(m as int,
            pow2(c as nat) as int);
    }
    c
}

/// The least width that holds every value of a block: OR the rows over the
/// four lanes, collapse the lanes, and measure the result.
pub fn num_bits_block(block: &Vec<u32>) -> (n: u8)
    requires
        block@.len() == 128,
    ensures
        n <= 32,
        is_min_width(block@, n as nat),
{
    let mut acc: [u32; 4] = set1(0);
    let mut r: usize = 0;
    while r < 32
        invariant
            block@.len() == 128,
            r <= 32,
            forall|l: int| 0 <= l < 4 ==> acc[l] == or_fold(lane_seq(block@, l).take(r as int)),
        decreases 32 - r,
    {
        let row: [u32; 4] = [block[4 * r], block[4 * r + 1], block[4 * r + 2], block[4 * r + 3]];
        let acc2 = op_or(acc, row);
        proof {
            assert forall|l: int| 0 <= l < 4 implies acc2[l] == or_fold(
                lane_seq(block@, l).take(r + 1),
            ) by {
                let s = lane_seq(block@, l);
                assert(s.take(r + 1).drop_last() =~= s.take(r as int));
                assert(s.take(r + 1).last() == s[r as int]);
                assert(s[r as int] == block@[4 * r + l]);
            }
        }
        acc = acc2;
        r = r + 1;
    }
    let folded = or_collapse_to_u32(acc);
    let n = bit_width_u32(folded);
    proof {
        let x = block@;
        assert forall|l: int| 0 <= l < 4 implies acc[l] == or_fold(lane_seq(x, l)) by {
            assert(lane_seq(x, l).take(32) =~= lane_seq(x, l));
        }
        // every value is bounded by the collapsed OR
        assert forall|i: int| 0 <= i < 128 implies (x[i] as nat) < pow2(n as nat) by {
            let l = i % 4;
            let r0 = i / 4;
            vstd::arithmetic::div_mod::lemma_fundamental_div_mod(i, 4);
            assert(lane_seq(x, l)[r0] == x[i]);
            lemma_or_fold_le(lane_seq(x, l), r0);
            let a0 = acc[0];
            let a1 = acc[1];
            let a2 = acc[2];
            let a3 = acc[3];
            assert(a0 as u64 <= ((a0 | a1) | (a2 | a3)) as u64 && a1 as u64 <= ((a0 | a1) | (a2
                | a3)) as u64 && a2 as u64 <= ((a0 | a1) | (a2 | a3)) as u64 && a3 as u64 <= ((a0
                | a1) | (a2 | a3)) as u64) by (bit_vector);
        }
        // and the collapsed OR cannot fit in fewer bits
        if n > 0 {
            if fits(x, (n - 1) as nat) {
                assert forall|l: int| 0 <= l < 4 implies (acc[l] as nat) < pow2((n - 1) as nat) by {
                    assert(fits(lane_seq(x, l), (n - 1) as nat));
                    lemma_or_fold_bound(lane_seq(x, l), (n - 1) as nat);
                }
                let a0 = acc[0];
                let a1 = acc[1];
                let a2 = acc[2];
                let a3 = acc[3];
                let e = (n - 1) as u32;
                lemma_shl1_is_pow2(e);
                assert((((a0 | a1) | (a2 | a3)) as u64) < (1u64 << e)) by (bit_vector)
                    requires
                        e <= 32,
                        (a0 as u64) < (1u64 << e),
                        (a1 as u64) < (1u64 << e),
                        (a2 as u64) < (1u64 << e),
                        (a3 as u64) < (1u64 << e),
                ;
                assert(false);
            }
        }
    }
    n
}

/// The least width that holds every wrapping delta of a block.
pub fn num_bits_sorted_block(initial: u32, block: &Vec<u32>) -> (n: u8)
    requires
        block@.len() == 128,
    ensures
        n <= 32,
        is_min_width(crate::delta::deltas(initial, block@), n as nat),
{
    let d = crate::delta::delta_block(initial, block);
    num_bits_block(&d)
}

} // verus!
