//! The four-lane word algebra the kernels are built from.
//!
//! A 128-bit SIMD word is modelled as `[u32; 4]`; every operation acts on
//! all four lanes at once, with wrapping arithmetic where the lanes wrap.

use vstd::prelude::*;

verus! {

/// Broadcast one value into all four lanes.
pub fn set1(el: u32) -> (r: [u32; 4])
    ensures
        forall|i: int| 0 <= i < 4 ==> r[i] == el,
{
    [el, el, el, el]
}

/// Logical right shift of each lane.
pub fn right_shift_32(el: [u32; 4], shift: u32) -> (r: [u32; 4])
    requires
        shift < 32,
    ensures
        forall|i: int| 0 <= i < 4 ==> r[i] == el[i] >> shift,
{
    [el[0] >> shift, el[1] >> shift, el[2] >> shift, el[3] >> shift]
}

/// Logical left shift of each lane; bits shifted past the top are dropped.
pub fn left_shift_32(el: [u32; 4], shift: u32) -> (r: [u32; 4])
    requires
        shift < 32,
    ensures
        forall|i: int| 0 <= i < 4 ==> r[i] == el[i] << shift,
{
    [el[0] << shift, el[1] << shift, el[2] << shift, el[3] << shift]
}

/// Bitwise OR, lane by lane.
pub fn op_or(left: [u32; 4], right: [u32; 4]) -> (r: [u32; 4])
    ensures
        forall|i: int| 0 <= i < 4 ==> r[i] == (left[i] | right[i]),
{
    [left[0] | right[0], left[1] | right[1], left[2] | right[2], left[3] | right[3]]
}

/// Bitwise AND, lane by lane.
pub fn op_and(left: [u32; 4], right: [u32; 4]) -> (r: [u32; 4])
    ensures
        forall|i: int| 0 <= i < 4 ==> r[i] == (left[i] & right[i]),
{
    [left[0] & right[0], left[1] & right[1], left[2] & right[2], left[3] & right[3]]
}

/// Fold the four lanes into one value by OR.
pub fn or_collapse_to_u32(accumulator: [u32; 4]) -> (r: u32)
    ensures
        r == (accumulator[0] | accumulator[1]) | (accumulator[2] | accumulator[3]),
{
    (accumulator[0] | accumulator[1]) | (accumulator[2] | accumulator[3])
}

/// Per-lane difference from the previous value in block order: lane 0
/// subtracts the last lane of the previous row, each later lane subtracts
/// its left neighbour.  All subtractions wrap.
pub fn compute_delta(curr: [u32; 4], prev: [u32; 4]) -> (r: [u32; 4])
    ensures
        r[0] == curr[0].wrapping_sub(prev[3]),
        r[1] == curr[1].wrapping_sub(curr[0]),
        r[2] == curr[2].wrapping_sub(curr[1]),
        r[3] == curr[3].wrapping_sub(curr[2]),
{
    [
        curr[0].wrapping_sub(prev[3]),
        curr[1].wrapping_sub(curr[0]),
        curr[2].wrapping_sub(curr[1]),
        curr[3].wrapping_sub(curr[2]),
    ]
}

/// Prefix sum of a row of deltas, seeded by the last lane of the previous
/// row of values.  All additions wrap.
pub fn integrate_delta(offset: [u32; 4], delta: [u32; 4]) -> (r: [u32; 4])
    ensures
        r[0] == offset[3].wrapping_add(delta[0]),
        r[1] == r[0].wrapping_add(delta[1]),
        r[2] == r[1].wrapping_add(delta[2]),
        r[3] == r[2].wrapping_add(delta[3]),
{
    let el0 = offset[3].wrapping_add(delta[0]);
    let el1 = el0.wrapping_add(delta[1]);
    let el2 = el1.wrapping_add(delta[2]);
    let el3 = el2.wrapping_add(delta[3]);
    [el0, el1, el2, el3]
}

} // verus!
