//! The codec's laws, stated over the layout model and proved once for all
//! blocks and widths.

use vstd::prelude::*;
use vstd::arithmetic::power2::{pow2, lemma_pow2_pos, lemma_pow2_strictly_increases, lemma2_to64};
use vstd::arithmetic::div_mod::{
    lemma_basic_div, lemma_fundamental_div_mod, lemma_mod_division_less_than_divisor,
    lemma_small_mod,
};
use crate::delta::{deltas, integrated, lemma_integrate_deltas};
use crate::estimate::{fits, is_min_width};
use crate::layout::{
    lane_nat, lane_seq, lane_nat_at, lemma_lane_nat_at_packed, lemma_lane_nat_bound,
    lemma_lane_nat_extract, low_bits, packed_seq, unpacked_seq, unpacked_value,
};

verus! {

/// Decoding value `i` of a packed block recovers the low `n` bits of value
/// `i`, whatever the value held beyond them.
pub proof fn lemma_truncated_round_trip(x: Seq<u32>, n: nat, i: int)
    requires
        x.len() == 128,
        n <= 32,
        0 <= i < 128,
    ensures
        unpacked_value(packed_seq(x, n), n, i) as nat == low_bits(x[i], n),
{
    let l = i % 4;
    let r = i / 4;
    let vals = lane_seq(x, l);
    let big = lane_nat(vals, n, 32);
    lemma_fundamental_div_mod(i, 4);
    lemma_lane_nat_at_packed(x, n, l, n);
    lemma_lane_nat_bound(vals, n, 32);
    assert(32 * n == n * 32) by (nonlinear_arith);
    lemma_small_mod(big, pow2(32 * n));
    assert(lane_nat_at(packed_seq(x, n), l, n) == big);
    lemma_lane_nat_extract(vals, n, r as nat, 32);
    assert(r >= 0);
    assert((r as nat) * n == (r * n) as nat) by (nonlinear_arith)
        requires r >= 0;
    assert(vals[r] == x[i]);
    lemma_pow2_pos(n);
    lemma_mod_division_less_than_divisor((big / pow2((r * n) as nat)) as int, pow2(n) as int);
    lemma2_to64();
    if n < 32 {
        lemma_pow2_strictly_increases(n, 32);
    }
}

/// Round trip: a block whose values fit in `n` bits is recovered exactly
/// from its packed bytes.
pub proof fn lemma_round_trip(x: Seq<u32>, n: nat)
    requires
        x.len() == 128,
        n <= 32,
        fits(x, n),
    ensures
        unpacked_seq(packed_seq(x, n), n) == x,
{
    assert forall|i: int| 0 <= i < 128 implies unpacked_seq(packed_seq(x, n), n)[i] == x[i] by {
        lemma_truncated_round_trip(x, n, i);
        lemma_small_mod(x[i] as nat, pow2(n));
    }
    assert(unpacked_seq(packed_seq(x, n), n) =~= x);
}

/// Sorted round trip: a block whose wrapping deltas from `initial` fit in
/// `n` bits is recovered exactly by unpacking and integrating.
pub proof fn lemma_sorted_round_trip(initial: u32, x: Seq<u32>, n: nat)
    requires
        x.len() == 128,
        n <= 32,
        fits(deltas(initial, x), n),
    ensures
        forall|i: int|
            0 <= i < 128 ==> integrated(
                initial,
                unpacked_seq(packed_seq(deltas(initial, x), n), n),
                i,
            ) == x[i],
{
    let d = deltas(initial, x);
    lemma_round_trip(d, n);
    assert forall|i: int|
        0 <= i < 128 implies integrated(initial, unpacked_seq(packed_seq(d, n), n), i)
        == x[i] by {
        lemma_integrate_deltas(initial, x, i);
    }
}

/// A width too small for value `i` changes the block: packing drops the
/// value's top bits and cannot give it back.
proof fn lemma_truncation_loses(x: Seq<u32>, m: nat, i: int)
    requires
        x.len() == 128,
        m < 32,
        0 <= i < 128,
        pow2(m) <= x[i] as nat,
    ensures
        unpacked_seq(packed_seq(x, m), m) != x,
{
    lemma_truncated_round_trip(x, m, i);
    lemma_pow2_pos(m);
    lemma_mod_division_less_than_divisor(x[i] as int, pow2(m) as int);
    assert(unpacked_seq(packed_seq(x, m), m)[i] != x[i]);
}

/// A sequence that does not fit in `w` bits has a value of `w` bits or
/// more.
proof fn lemma_unfit_witness(x: Seq<u32>, w: nat)
    requires
        x.len() == 128,
        !fits(x, w),
    ensures
        exists|i: int| 0 <= i < 128 && (x[i] as nat) >= pow2(w),
{
    if forall|i: int| 0 <= i < 128 ==> (x[i] as nat) < pow2(w) {
        assert(fits(x, w));
        assert(false);
    }
}

/// No width below `n` round-trips a block holding a value of `n - 1` bits
/// or more.
proof fn lemma_no_round_trip_below(x: Seq<u32>, n: nat, m: nat, i: int)
    requires
        x.len() == 128,
        m < n <= 32,
        0 <= i < 128,
        pow2((n - 1) as nat) <= x[i] as nat,
    ensures
        unpacked_seq(packed_seq(x, m), m) != x,
{
    if m < (n - 1) as nat {
        lemma_pow2_strictly_increases(m, (n - 1) as nat);
    }
    lemma_truncation_loses(x, m, i);
}

/// The estimated width is tight: the block round-trips at its estimated
/// width `n` and at no smaller width `m`.
pub proof fn lemma_min_width_tight(x: Seq<u32>, n: nat, m: nat)
    requires
        x.len() == 128,
        n <= 32,
        is_min_width(x, n),
        m < n,
    ensures
        unpacked_seq(packed_seq(x, n), n) == x,
        unpacked_seq(packed_seq(x, m), m) != x,
{
    lemma_round_trip(x, n);
    lemma_unfit_witness(x, (n - 1) as nat);
    let i = choose|i: int| 0 <= i < 128 && (x[i] as nat) >= pow2((n - 1) as nat);
    lemma_no_round_trip_below(x, n, m, i);
}

/// A stream of zero deltas integrates to the initial value everywhere.
proof fn lemma_integrated_constant(initial: u32, d: Seq<u32>, i: int)
    requires
        0 <= i < d.len(),
        forall|j: int| 0 <= j < d.len() ==> d[j] == 0u32,
    ensures
        integrated(initial, d, i) == initial,
    decreases i,
{
    if i > 0 {
        lemma_integrated_constant(initial, d, i - 1);
    }
    assert(initial.wrapping_add(0u32) == initial);
}

/// Width zero: the packed stream is empty, decoding yields all zeros, and
/// sorted decoding yields the initial value everywhere.
pub proof fn lemma_zero_width(bytes: Seq<u8>, initial: u32, i: int)
    requires
        0 <= i < 128,
    ensures
        packed_seq(Seq::<u32>::empty(), 0).len() == 0,
        unpacked_value(bytes, 0, i) == 0,
        integrated(initial, unpacked_seq(bytes, 0), i) == initial,
{
    lemma2_to64();
    assert forall|j: int| 0 <= j < 128 implies unpacked_seq(bytes, 0)[j] == 0u32 by {
        lemma_pow2_pos(((j / 4) * 0) as nat);
        lemma_basic_div(0, pow2(((j / 4) * 0) as nat) as int);
        lemma_small_mod(0, pow2(0));
    }
    assert(unpacked_value(bytes, 0, i) == 0u32);
    lemma_integrated_constant(initial, unpacked_seq(bytes, 0), i);
}

} // verus!
