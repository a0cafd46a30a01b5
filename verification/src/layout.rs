//! The packed byte layout, as mathematics.
//!
//! A block of 128 integers is split into four lanes: lane `l` carries the
//! positions `l, l + 4, ..., l + 124`, thirty-two integers in all.  At width
//! `n`, each lane becomes a bitstream: value `r` of the lane contributes its
//! low `n` bits at bit offset `r * n`.  The bitstream is cut into 32-bit
//! words, and word `w` of lane `l` is stored little endian at byte offset
//! `16 * w + 4 * l`, so the four lanes interleave within each 16-byte group.

use vstd::prelude::*;
use vstd::arithmetic::power2::{pow2, lemma_pow2_adds, lemma_pow2_pos, lemma2_to64};
use vstd::arithmetic::div_mod::{
    lemma_div_multiples_vanish_fancy, lemma_mod_multiples_vanish, lemma_small_mod,
    lemma_mod_breakdown, lemma_mod_division_less_than_divisor, lemma_hoist_over_denominator,
    lemma_fundamental_div_mod_converse,
};
use vstd::arithmetic::mul::{lemma_mul_inequality, lemma_mul_is_commutative};

verus! {

/// Number of integers in one block.
pub const BLOCK_LEN: usize = 128;

/// The part of a value that packing at width `n` keeps: its low `n` bits.
pub open spec fn low_bits(v: u32, n: nat) -> nat {
    v as nat % pow2(n)
}

/// The 32 integers that travel through lane `l`.
pub open spec fn lane_seq(block: Seq<u32>, l: int) -> Seq<u32> {
    Seq::new(32, |r: int| block[4 * r + l])
}

/// The first `r` values of a lane as one bitstream, read as a natural
/// number: value `i` contributes its low `n` bits at bit offset `i * n`.
pub open spec fn lane_nat(vals: Seq<u32>, n: nat, r: nat) -> nat
    decreases r,
{
    if r == 0 {
        0
    } else {
        lane_nat(vals, n, (r - 1) as nat) + low_bits(vals[r - 1], n) * pow2(((r - 1) as nat) * n)
    }
}

/// Word `w` of the base-2^32 representation of `v`.
pub open spec fn word_of_nat(v: nat, w: nat) -> u32 {
    ((v / pow2(32 * w)) % pow2(32)) as u32
}

/// The 32-bit word at position `j` of the packed stream, in memory order:
/// lane `j % 4` of the 16-byte group `j / 4`.
pub open spec fn packed_word(block: Seq<u32>, n: nat, j: int) -> u32 {
    word_of_nat(lane_nat(lane_seq(block, j % 4), n, 32), (j / 4) as nat)
}

/// Byte `k` (little endian) of a 32-bit word.
pub open spec fn byte_of_word(w: u32, k: int) -> u8 {
    if k == 0 {
        (w % 0x100) as u8
    } else if k == 1 {
        ((w / 0x100) % 0x100) as u8
    } else if k == 2 {
        ((w / 0x10000) % 0x100) as u8
    } else {
        ((w / 0x1000000) % 0x100) as u8
    }
}

/// Byte `j` of the packed form of `block` at width `n`, for `j < 16 * n`.
pub open spec fn packed_byte(block: Seq<u32>, n: nat, j: int) -> u8 {
    byte_of_word(packed_word(block, n, j / 4), j % 4)
}

/// The whole packed stream: `16 * n` bytes.
pub open spec fn packed_seq(block: Seq<u32>, n: nat) -> Seq<u8> {
    Seq::new(16 * n, |j: int| packed_byte(block, n, j))
}

/// The 32-bit word stored little endian at `base`.
pub open spec fn word_at(bytes: Seq<u8>, base: int) -> u32 {
    (bytes[base] + bytes[base + 1] * 0x100 + bytes[base + 2] * 0x10000 + bytes[base + 3]
        * 0x1000000) as u32
}

/// Lane `l`'s bitstream, read back from the first `w` words of `bytes`.
pub open spec fn lane_nat_at(bytes: Seq<u8>, l: int, w: nat) -> nat
    decreases w,
{
    if w == 0 {
        0
    } else {
        lane_nat_at(bytes, l, (w - 1) as nat) + (word_at(bytes, 16 * (w - 1) + 4 * l) as nat)
            * pow2(32 * ((w - 1) as nat))
    }
}

/// Value `i` of the block decoded from `bytes` at width `n`: the `n` bits at
/// offset `(i / 4) * n` of lane `i % 4`.
pub open spec fn unpacked_value(bytes: Seq<u8>, n: nat, i: int) -> u32 {
    ((lane_nat_at(bytes, i % 4, n) / pow2(((i / 4) * n) as nat)) % pow2(n)) as u32
}

/// The whole decoded block: 128 values.
pub open spec fn unpacked_seq(bytes: Seq<u8>, n: nat) -> Seq<u32> {
    Seq::new(128, |i: int| unpacked_value(bytes, n, i))
}

/// A power of two, as a 64-bit shift: the form the bit-vector solver sees.
pub proof fn lemma_shl1_is_pow2(e: u32)
    requires
        e < 64,
    ensures
        (1u64 << e) as nat == pow2(e as nat),
{
    vstd::bits::lemma_u64_pow2_no_overflow(e as nat);
    vstd::bits::lemma_u64_shl_is_mul(1u64, e as u64);
    assert(1u64 << e == 1u64 << (e as u64)) by (bit_vector);
}

/// A lane's bitstream over `r` values of width `n` fits in `r * n` bits.
pub proof fn lemma_lane_nat_bound(vals: Seq<u32>, n: nat, r: nat)
    ensures
        lane_nat(vals, n, r) < pow2(r * n),
    decreases r,
{
    lemma_pow2_pos(r * n);
    if r > 0 {
        let r1 = (r - 1) as nat;
        lemma_lane_nat_bound(vals, n, r1);
        let p = pow2(r1 * n);
        let t = low_bits(vals[r - 1], n);
        lemma_pow2_pos(n);
        lemma_pow2_pos(r1 * n);
        lemma_mod_division_less_than_divisor(vals[r - 1] as int, pow2(n) as int);
        assert(t <= pow2(n) - 1);
        lemma_mul_inequality(t as int, pow2(n) - 1, p as int);
        assert(lane_nat(vals, n, r) < p + (pow2(n) - 1) * p);
        assert(p + (pow2(n) - 1) * p == pow2(n) * p) by (nonlinear_arith);
        lemma_pow2_adds(n, r1 * n);
        assert(n + r1 * n == r * n) by (nonlinear_arith)
            requires r == r1 + 1;
    }
}

/// Extending a lane's bitstream only adds bits at offset `r * n` and above.
pub proof fn lemma_lane_nat_split(vals: Seq<u32>, n: nat, r: nat, s: nat)
    requires
        r <= s,
    ensures
        exists|k: nat| lane_nat(vals, n, s) == lane_nat(vals, n, r) + #[trigger] (pow2(r * n) * k),
    decreases s - r,
{
    if s == r {
        assert(lane_nat(vals, n, s) == lane_nat(vals, n, r) + pow2(r * n) * 0);
    } else {
        let s1 = (s - 1) as nat;
        lemma_lane_nat_split(vals, n, r, s1);
        let k1 = choose|k: nat| lane_nat(vals, n, s1) == lane_nat(vals, n, r) + #[trigger] (pow2(r * n) * k);
        let t = low_bits(vals[s - 1], n);
        assert(s1 * n == r * n + (s1 - r) * n) by (nonlinear_arith)
            requires r <= s1;
        lemma_pow2_adds(r * n, ((s1 - r) as nat) * n);
        let q = pow2(((s1 - r) as nat) * n);
        assert(t * (pow2(r * n) * q) == pow2(r * n) * (t * q)) by (nonlinear_arith);
        assert(pow2(r * n) * k1 + pow2(r * n) * (t * q) == pow2(r * n) * (k1 + t * q))
            by (nonlinear_arith);
        assert(lane_nat(vals, n, s) == lane_nat(vals, n, r) + pow2(r * n) * (k1 + t * q));
    }
}

/// Reading the `n` bits at offset `r * n` of a lane's bitstream gives back
/// the low `n` bits of value `r`.
pub proof fn lemma_lane_nat_extract(vals: Seq<u32>, n: nat, r: nat, s: nat)
    requires
        r < s,
    ensures
        (lane_nat(vals, n, s) / pow2(r * n)) % pow2(n) == low_bits(vals[r as int], n),
{
    let p = pow2(r * n);
    let t = low_bits(vals[r as int], n);
    lemma_pow2_pos(r * n);
    lemma_pow2_pos(n);
    lemma_lane_nat_split(vals, n, (r + 1) as nat, s);
    let k = choose|k: nat|
        lane_nat(vals, n, s) == lane_nat(vals, n, (r + 1) as nat) + #[trigger] (pow2((r + 1) * n)
            * k);
    assert(lane_nat(vals, n, (r + 1) as nat) == lane_nat(vals, n, r) + t * pow2(r * n));
    assert((r + 1) * n == r * n + n) by (nonlinear_arith);
    lemma_pow2_adds(r * n, n);
    // lane_nat(s) == lane_nat(r) + p * (t + pow2(n) * k)
    assert(t * p + (p * pow2(n)) * k == p * (t + pow2(n) * k)) by (nonlinear_arith);
    assert(lane_nat(vals, n, s) == lane_nat(vals, n, r) + p * (t + pow2(n) * k));
    assert(lane_nat(vals, n, r) < p) by {
        lemma_lane_nat_bound(vals, n, r);
    }
    lemma_div_multiples_vanish_fancy((t + pow2(n) * k) as int, lane_nat(vals, n, r) as int, p as int);
    assert(lane_nat(vals, n, s) as int / p as int == t + pow2(n) * k);
    lemma_mod_multiples_vanish(k as int, t as int, pow2(n) as int);
    lemma_mod_division_less_than_divisor(vals[r as int] as int, pow2(n) as int);
    lemma_small_mod(t, pow2(n));
}

/// A word of the bitstream that is complete after `r` values does not change
/// as further values are appended.
pub proof fn lemma_digit_stable(vals: Seq<u32>, n: nat, r: nat, s: nat, w: nat)
    requires
        r <= s,
        32 * (w + 1) <= r * n,
    ensures
        word_of_nat(lane_nat(vals, n, s), w) == word_of_nat(lane_nat(vals, n, r), w),
{
    let p = pow2(32 * w);
    lemma_pow2_pos(32 * w);
    lemma_pow2_pos(32);
    lemma_lane_nat_split(vals, n, r, s);
    let k = choose|k: nat|
        lane_nat(vals, n, s) == lane_nat(vals, n, r) + #[trigger] (pow2(r * n) * k);
    let e = (r * n - 32 * (w + 1)) as nat;
    lemma_pow2_adds(32 * w, 32);
    lemma_pow2_adds(32 * (w + 1), e);
    let x = pow2(32) * (pow2(e) * k);
    assert(pow2(r * n) * k == p * x) by (nonlinear_arith)
        requires
            pow2(r * n) == pow2(32 * (w + 1)) * pow2(e),
            pow2(32 * (w + 1)) == p * pow2(32),
            x == pow2(32) * (pow2(e) * k),
    ;
    lemma_hoist_over_denominator(lane_nat(vals, n, r) as int, x as int, p);
    assert(lane_nat(vals, n, s) as int / p as int == lane_nat(vals, n, r) as int / p as int + x);
    lemma_mod_multiples_vanish((pow2(e) * k) as int, lane_nat(vals, n, r) as int / p as int,
        pow2(32) as int);
}

/// A 32-bit word is recovered from its four little-endian bytes.
pub proof fn lemma_word_at_of_bytes(bytes: Seq<u8>, base: int, w: u32)
    requires
        forall|k: int| 0 <= k < 4 ==> bytes[base + k] == byte_of_word(w, k),
    ensures
        word_at(bytes, base) == w,
{
    assert(bytes[base] == byte_of_word(w, 0)) by {
        assert(bytes[base + 0] == byte_of_word(w, 0));
    }
    assert(bytes[base + 1] == byte_of_word(w, 1));
    assert(bytes[base + 2] == byte_of_word(w, 2));
    assert(bytes[base + 3] == byte_of_word(w, 3));
    assert((w % 0x100) as u8 + ((w / 0x100) % 0x100) as u8 * 0x100 + ((w / 0x10000) % 0x100) as u8
        * 0x10000 + ((w / 0x1000000) % 0x100) as u8 * 0x1000000 == w) by (bit_vector);
}

/// Reading back the packed bytes of one lane reassembles the lane's
/// bitstream, word by word.
pub proof fn lemma_lane_nat_at_packed(block: Seq<u32>, n: nat, l: int, w: nat)
    requires
        n <= 32,
        0 <= l < 4,
        w <= n,
    ensures
        lane_nat_at(packed_seq(block, n), l, w) == lane_nat(lane_seq(block, l), n, 32) % pow2(
            32 * w,
        ),
    decreases w,
{
    let bytes = packed_seq(block, n);
    let big = lane_nat(lane_seq(block, l), n, 32);
    lemma_pow2_pos(32 * w);
    if w == 0 {
        assert(big % pow2(0) == 0) by {
            lemma2_to64();
            lemma_mod_division_less_than_divisor(big as int, 1);
        }
    } else {
        let w1 = (w - 1) as nat;
        lemma_lane_nat_at_packed(block, n, l, w1);
        let j = 4 * w1 + l;
        let base = 16 * w1 + 4 * l;
        assert forall|k: int| 0 <= k < 4 implies bytes[base + k] == byte_of_word(
            packed_word(block, n, j),
            k,
        ) by {
            let jj = base + k;
            assert(jj == 4 * j + k);
            lemma_fundamental_div_mod_converse(jj, 4, j, k);
            assert(0 <= jj < 16 * n);
            assert(bytes[jj] == packed_byte(block, n, jj));
        }
        lemma_word_at_of_bytes(bytes, base, packed_word(block, n, j));
        lemma_fundamental_div_mod_converse(j, 4, w1 as int, l);
        assert(packed_word(block, n, j) == word_of_nat(big, w1));
        lemma_pow2_pos(32 * w1);
        lemma_pow2_pos(32);
        lemma2_to64();
        lemma_mod_division_less_than_divisor(big as int / pow2(32 * w1) as int, pow2(32) as int);
        lemma_mod_breakdown(big as int, pow2(32 * w1) as int, pow2(32) as int);
        lemma_pow2_adds(32 * w1, 32);
        assert(word_at(bytes, 16 * (w - 1) + 4 * l) == word_of_nat(big, w1));
        assert(lane_nat_at(bytes, l, w) == lane_nat_at(bytes, l, w1) + (word_of_nat(
            big,
            w1,
        ) as nat) * pow2(32 * w1));
        assert(word_of_nat(big, w1) as nat == (big / pow2(32 * w1)) % pow2(32));
        assert(big % (pow2(32 * w1) * pow2(32)) == pow2(32 * w1) * ((big / pow2(32 * w1)) % pow2(
            32,
        )) + big % pow2(32 * w1));
        assert(pow2(32 * w1) * pow2(32) == pow2(32 * w));
        lemma_mul_is_commutative(((big / pow2(32 * w1)) % pow2(32)) as int, pow2(32 * w1) as int);
        assert(lane_nat_at(bytes, l, w) == big % pow2(32 * w));
    }
}

} // verus!
