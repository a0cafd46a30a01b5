//! The delta transform for sorted blocks, and its inverse.
//!
//! In sorted mode the packer stores, for each value, its wrapping
//! difference from the previous value in block order, seeded by a caller-
//! supplied initial value; the unpacker rebuilds the values by wrapping
//! prefix sums.  Both sides walk rows of four lanes, as the kernels do.

use vstd::prelude::*;
use crate::lanes::{compute_delta, integrate_delta, set1};

verus! {

/// The wrapping difference stream of a block: value `i` minus its
/// predecessor in block order, the initial value standing before value 0.
pub open spec fn deltas(initial: u32, x: Seq<u32>) -> Seq<u32> {
    Seq::new(
        x.len(),
        |i: int|
            x[i].wrapping_sub(
                if i == 0 {
                    initial
                } else {
                    x[i - 1]
                },
            ),
    )
}

/// Value `i` rebuilt from a delta stream by wrapping prefix sums.
pub open spec fn integrated(initial: u32, d: Seq<u32>, i: int) -> u32
    decreases i,
{
    if i <= 0 {
        initial.wrapping_add(d[0])
    } else {
        integrated(initial, d, i - 1).wrapping_add(d[i])
    }
}

/// Integration undoes the delta transform exactly, for every block and
/// every initial value: the differences wrap, and so do the sums.
pub proof fn lemma_integrate_deltas(initial: u32, x: Seq<u32>, i: int)
    requires
        0 <= i < x.len(),
    ensures
        integrated(initial, deltas(initial, x), i) == x[i],
    decreases i,
{
    let d = deltas(initial, x);
    if i == 0 {
        assert(initial.wrapping_add(x[0].wrapping_sub(initial)) == x[0]);
    } else {
        lemma_integrate_deltas(initial, x, i - 1);
        assert(x[i - 1].wrapping_add(x[i].wrapping_sub(x[i - 1])) == x[i]);
    }
}

/// Compute the 128 wrapping deltas of a block, row by row.
pub fn delta_block(initial: u32, block: &Vec<u32>) -> (d: Vec<u32>)
    requires
        block@.len() == 128,
    ensures
        d@.len() == 128,
        d@ == deltas(initial, block@),
{
    let mut d: Vec<u32> = Vec::new();
    let mut prev: [u32; 4] = set1(initial);
    let mut r: usize = 0;
    while r < 32
        invariant
            block@.len() == 128,
            r <= 32,
            d@.len() == 4 * r,
            forall|i: int| 0 <= i < 4 * r ==> d@[i] == deltas(initial, block@)[i],
            prev[3] == (if r == 0 {
                initial
            } else {
                block@[4 * r - 1]
            }),
        decreases 32 - r,
    {
        let curr: [u32; 4] = [block[4 * r], block[4 * r + 1], block[4 * r + 2], block[4 * r + 3]];
        let row = compute_delta(curr, prev);
        d.push(row[0]);
        d.push(row[1]);
        d.push(row[2]);
        d.push(row[3]);
        prev = curr;
        r = r + 1;
    }
    proof {
        assert(d@ =~= deltas(initial, block@));
    }
    d
}

/// Rebuild a block from 128 deltas by wrapping prefix sums, row by row.
pub fn integrate_block(initial: u32, d: &Vec<u32>) -> (out: Vec<u32>)
    requires
        d@.len() == 128,
    ensures
        out@.len() == 128,
        forall|i: int| 0 <= i < 128 ==> out@[i] == integrated(initial, d@, i),
{
    let mut out: Vec<u32> = Vec::new();
    let mut offset: [u32; 4] = set1(initial);
    let mut r: usize = 0;
    while r < 32
        invariant
            d@.len() == 128,
            r <= 32,
            out@.len() == 4 * r,
            forall|i: int| 0 <= i < 4 * r ==> out@[i] == integrated(initial, d@, i),
            offset[3] == (if r == 0 {
                initial
            } else {
                integrated(initial, d@, 4 * r - 1)
            }),
        decreases 32 - r,
    {
        let row: [u32; 4] = [d[4 * r], d[4 * r + 1], d[4 * r + 2], d[4 * r + 3]];
        let v = integrate_delta(offset, row);
        proof {
            assert(v[0] == integrated(initial, d@, 4 * r));
            assert(v[1] == integrated(initial, d@, 4 * r + 1));
            assert(v[2] == integrated(initial, d@, 4 * r + 2));
            assert(v[3] == integrated(initial, d@, 4 * r + 3));
        }
        let ghost out_before: Seq<u32> = out@;
        out.push(v[0]);
        out.push(v[1]);
        out.push(v[2]);
        out.push(v[3]);
        proof {
            assert forall|i: int| 0 <= i < 4 * (r + 1) implies out@[i] == integrated(
                initial,
                d@,
                i,
            ) by {
                if i < 4 * r {
                    assert(out@[i] == out_before[i]);
                } else {
                    assert(out@[i] == v[i - 4 * r]);
                }
            }
        }
        offset = v;
        r = r + 1;
    }
    out
}

} // verus!
