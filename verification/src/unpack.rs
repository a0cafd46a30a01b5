//! The unpacking kernel: `16 * num_bits` bytes in, 128 integers out.
//!
//! The kernel first reads the stream back as 32-bit words, then walks the 32
//! rows: each row's value on a lane is the `num_bits`-bit slice at the
//! current bit offset of that lane's bitstream, taken from one word or, when
//! the slice straddles a word boundary, from two.

use vstd::prelude::*;
use vstd::arithmetic::power2::{pow2, lemma_pow2_adds, lemma_pow2_pos, lemma2_to64};
use vstd::arithmetic::div_mod::{
    lemma_basic_div, lemma_div_denominator, lemma_fundamental_div_mod,
    lemma_fundamental_div_mod_converse, lemma_hoist_over_denominator,
    lemma_mod_division_less_than_divisor, lemma_mod_breakdown, lemma_mod_multiples_vanish,
    lemma_small_mod,
};
use vstd::arithmetic::mul::lemma_mul_inequality;
use crate::lanes::{left_shift_32, op_and, op_or, right_shift_32, set1};
use crate::layout::{lane_nat, lane_nat_at, low_bits, lemma_lane_nat_extract, unpacked_value, word_at};
use crate::pack::width_mask;

verus! {

/// The words of one lane, as the packed stream stores them.
pub open spec fn lane_words(bytes: Seq<u8>, l: int, n: nat) -> Seq<u32> {
    Seq::new(n, |w: int| word_at(bytes, 16 * w + 4 * l))
}

/// A lane's bitstream read from bytes is the bitstream of its words at
/// width 32.
proof fn lemma_lane_nat_at_as_words(bytes: Seq<u8>, l: int, lw: Seq<u32>, w: nat)
    requires
        forall|i: int| 0 <= i < w ==> lw[i] == word_at(bytes, 16 * i + 4 * l),
    ensures
        lane_nat_at(bytes, l, w) == lane_nat(lw, 32, w),
    decreases w,
{
    if w > 0 {
        let w1 = (w - 1) as nat;
        lemma_lane_nat_at_as_words(bytes, l, lw, w1);
        lemma2_to64();
        lemma_small_mod(lw[w - 1] as nat, pow2(32));
        assert(low_bits(lw[w - 1], 32) == lw[w - 1] as nat);
        assert(32 * w1 == w1 * 32) by (nonlinear_arith);
    }
}

/// Extracting a slice that lies within one word.
proof fn lemma_extract_low(ll: nat, n: nat, k: nat, pos: u32, a: u32)
    requires
        1 <= n <= 32,
        pos < 32,
        pos as nat + n <= 32,
        a as nat == (ll / pow2(32 * k)) % pow2(32),
    ensures
        (ll / pow2(32 * k + pos as nat)) % pow2(n) == ((a as nat) / pow2(pos as nat)) % pow2(n),
{
    let x = ll / pow2(32 * k);
    let q = x / pow2(32);
    lemma_pow2_pos(32 * k);
    lemma_pow2_pos(32);
    lemma_pow2_pos(pos as nat);
    lemma_pow2_pos(n);
    lemma_fundamental_div_mod(x as int, pow2(32) as int);
    assert(x == pow2(32) * q + a as nat);
    // ll / 2^(32k + pos) == x / 2^pos
    lemma_pow2_adds(32 * k, pos as nat);
    lemma_div_denominator(ll as int, pow2(32 * k) as int, pow2(pos as nat) as int);
    // x / 2^pos == a / 2^pos + 2^(32 - pos) * q
    let e = (32 - pos as nat) as nat;
    lemma_pow2_adds(e, pos as nat);
    assert((pow2(e) * q) * pow2(pos as nat) == pow2(32) * q) by (nonlinear_arith)
        requires pow2(e) * pow2(pos as nat) == pow2(32);
    lemma_hoist_over_denominator(a as int, (pow2(e) * q) as int, pow2(pos as nat));
    assert(x / pow2(pos as nat) == a as nat / pow2(pos as nat) + pow2(e) * q);
    // the high part is a multiple of 2^n
    let e2 = (e - n) as nat;
    lemma_pow2_adds(n, e2);
    assert(pow2(e) * q == pow2(n) * (pow2(e2) * q)) by (nonlinear_arith)
        requires pow2(e) == pow2(n) * pow2(e2);
    lemma_mod_multiples_vanish((pow2(e2) * q) as int, (a as nat / pow2(pos as nat)) as int,
        pow2(n) as int);
}

/// Extracting a slice that straddles two words.
proof fn lemma_extract_split(ll: nat, n: nat, k: nat, pos: u32, a: u32, b: u32)
    requires
        1 <= n <= 32,
        0 < pos < 32,
        32 < pos as nat + n,
        a as nat == (ll / pow2(32 * k)) % pow2(32),
        b as nat == (ll / pow2(32 * (k + 1))) % pow2(32),
    ensures
        (ll / pow2(32 * k + pos as nat)) % pow2(n) == ((a as nat + b as nat * pow2(32)) / pow2(
            pos as nat,
        )) % pow2(n),
{
    let x = ll / pow2(32 * k);
    lemma_pow2_pos(32 * k);
    lemma_pow2_pos(32);
    lemma_pow2_pos(64);
    lemma_pow2_pos(pos as nat);
    lemma_pow2_pos(n);
    // b is the next 32-bit digit of x
    lemma_pow2_adds(32 * k, 32);
    lemma_div_denominator(ll as int, pow2(32 * k) as int, pow2(32) as int);
    assert(32 * (k + 1) == 32 * k + 32);
    assert(b as nat == (x / pow2(32)) % pow2(32));
    // the low 64 bits of x are a + b * 2^32
    let c = a as nat + b as nat * pow2(32);
    lemma_pow2_adds(32, 32);
    lemma_mod_breakdown(x as int, pow2(32) as int, pow2(32) as int);
    assert(pow2(32) * ((x / pow2(32)) % pow2(32)) == b as nat * pow2(32)) by (nonlinear_arith)
        requires (x / pow2(32)) % pow2(32) == b as nat;
    assert(x % pow2(64) == c);
    // split x into its low 64 bits and the rest
    let q = x / pow2(64);
    lemma_fundamental_div_mod(x as int, pow2(64) as int);
    assert(x == pow2(64) * q + c);
    // ll / 2^(32k + pos) == x / 2^pos
    lemma_pow2_adds(32 * k, pos as nat);
    lemma_div_denominator(ll as int, pow2(32 * k) as int, pow2(pos as nat) as int);
    // x / 2^pos == c / 2^pos + 2^(64 - pos) * q
    let e = (64 - pos as nat) as nat;
    lemma_pow2_adds(e, pos as nat);
    assert((pow2(e) * q) * pow2(pos as nat) == pow2(64) * q) by (nonlinear_arith)
        requires pow2(e) * pow2(pos as nat) == pow2(64);
    lemma_hoist_over_denominator(c as int, (pow2(e) * q) as int, pow2(pos as nat));
    assert(x / pow2(pos as nat) == c / pow2(pos as nat) + pow2(e) * q);
    // the high part is a multiple of 2^n
    let e2 = (e - n) as nat;
    lemma_pow2_adds(n, e2);
    assert(pow2(e) * q == pow2(n) * (pow2(e2) * q)) by (nonlinear_arith)
        requires pow2(e) == pow2(n) * pow2(e2);
    lemma_mod_multiples_vanish((pow2(e2) * q) as int, (c / pow2(pos as nat)) as int, pow2(n) as int);
}

/// A one-word slice, as the kernel computes it.
proof fn bv_extract_low(a: u32, pos: u32, mask: u32, n: u32)
    by (bit_vector)
    requires
        pos < 32,
        n <= 32,
        pos + n <= 32,
        mask as u64 == (1u64 << n) - 1,
    ensures
        ((a >> pos) & mask) as u64 == ((a as u64) >> (pos as u64)) & (mask as u64),
{
}

/// A two-word slice, as the kernel computes it.
proof fn bv_extract_split(a: u32, b: u32, pos: u32, mask: u32, n: u32)
    by (bit_vector)
    requires
        0 < pos < 32,
        n <= 32,
        32 < pos + n,
        mask as u64 == (1u64 << n) - 1,
    ensures
        (((a >> pos) | (b << ((32 - pos) as u32))) & mask) as u64 == ((a as u64 | ((b as u64)
            << 32u64)) >> (pos as u64)) & (mask as u64),
{
}

/// Read the packed stream back as its 32-bit little-endian words.
fn read_words(bytes: &Vec<u8>, n: u32) -> (words: Vec<u32>)
    requires
        n <= 32,
        bytes@.len() >= 16 * n,
    ensures
        words@.len() == 4 * n,
        forall|j: int| 0 <= j < 4 * n ==> words@[j] == word_at(bytes@, 4 * j),
{
    let mut words: Vec<u32> = Vec::new();
    let end = 4 * n as usize;
    let mut j: usize = 0;
    while j < end
        invariant
            n <= 32,
            end == 4 * n,
            bytes@.len() >= 16 * n,
            j <= end,
            words@.len() == j,
            forall|i: int| 0 <= i < j ==> words@[i] == word_at(bytes@, 4 * i),
        decreases end - j,
    {
        let b0 = bytes[4 * j] as u32;
        let b1 = bytes[4 * j + 1] as u32;
        let b2 = bytes[4 * j + 2] as u32;
        let b3 = bytes[4 * j + 3] as u32;
        let w = b0 | (b1 << 8u32) | (b2 << 16u32) | (b3 << 24u32);
        proof {
            assert(b0 | (b1 << 8u32) | (b2 << 16u32) | (b3 << 24u32) == b0 + b1 * 0x100 + b2
                * 0x10000 + b3 * 0x1000000) by (bit_vector)
                requires b0 < 0x100, b1 < 0x100, b2 < 0x100, b3 < 0x100;
        }
        words.push(w);
        j = j + 1;
    }
    words
}

/// Unpack `16 * num_bits` bytes into the 128 values whose low `num_bits`
/// bits they hold, as [`unpacked_value`] describes.
#[verifier::rlimit(100)]
pub fn unpack(bytes: &Vec<u8>, num_bits: u8) -> (out: Vec<u32>)
    requires
        num_bits <= 32,
        bytes@.len() >= 16 * num_bits as int,
    ensures
        out@.len() == 128,
        forall|i: int| 0 <= i < 128 ==> out@[i] == unpacked_value(bytes@, num_bits as nat, i),
{
    let n: u32 = num_bits as u32;
    let ghost nn: nat = n as nat;
    let mut out: Vec<u32> = Vec::new();
    if n == 0 {
        let mut i: usize = 0;
        while i < 128
            invariant
                i <= 128,
                out@.len() == i,
                forall|j: int| 0 <= j < i ==> out@[j] == 0u32,
            decreases 128 - i,
        {
            out.push(0u32);
            i = i + 1;
        }
        proof {
            lemma2_to64();
            assert forall|i: int| 0 <= i < 128 implies out@[i] == unpacked_value(bytes@, 0, i) by {
                lemma_pow2_pos(((i / 4) * 0) as nat);
                lemma_basic_div(0, pow2(((i / 4) * 0) as nat) as int);
                lemma_small_mod(0, pow2(0));
            }
        }
        return out;
    }
    let words = read_words(bytes, n);
    let mask = width_mask(n);
    let mask4 = set1(mask);
    let mut pos: u32 = 0;
    let mut k: usize = 0;
    let mut r: usize = 0;
    proof {
        crate::layout::lemma_shl1_is_pow2(n);
        assert forall|l: int| 0 <= l < 4 implies lane_nat_at(bytes@, l, nn) == lane_nat(
            lane_words(bytes@, l, nn),
            32,
            nn,
        ) by {
            lemma_lane_nat_at_as_words(bytes@, l, lane_words(bytes@, l, nn), nn);
        }
    }
    while r < 32
        invariant
            1 <= n <= 32,
            nn == n as nat,
            bytes@.len() >= 16 * n,
            mask as nat == pow2(nn) - 1,
            (mask as u64) == (1u64 << n) - 1,
            forall|i: int| 0 <= i < 4 ==> mask4[i] == mask,
            words@.len() == 4 * n,
            forall|j: int| 0 <= j < 4 * n ==> words@[j] == word_at(bytes@, 4 * j),
            forall|l: int|
                0 <= l < 4 ==> lane_nat_at(bytes@, l, nn) == lane_nat(
                    lane_words(bytes@, l, nn),
                    32,
                    nn,
                ),
            r <= 32,
            pos < 32,
            k <= 32,
            32 * k + pos == r * n,
            out@.len() == 4 * r,
            forall|i: int| 0 <= i < 4 * r ==> out@[i] == unpacked_value(bytes@, nn, i),
        decreases 32 - r,
    {
        proof {
            assert(32 * k < 32 * n) by {
                lemma_mul_inequality(r as int, 31, n as int);
            }
        }
        let a: [u32; 4] = [words[4 * k], words[4 * k + 1], words[4 * k + 2], words[4 * k + 3]];
        let v: [u32; 4] = if pos + n <= 32 {
            op_and(right_shift_32(a, pos), mask4)
        } else {
            proof {
                assert(32 * (k + 1) < 32 * n) by {
                    assert((r + 1) * n == r * n + n) by (nonlinear_arith);
                    lemma_mul_inequality((r + 1) as int, 32, n as int);
                }
            }
            let b: [u32; 4] = [
                words[4 * (k + 1)],
                words[4 * (k + 1) + 1],
                words[4 * (k + 1) + 2],
                words[4 * (k + 1) + 3],
            ];
            op_and(op_or(right_shift_32(a, pos), left_shift_32(b, 32 - pos)), mask4)
        };
        proof {
            assert forall|l: int| 0 <= l < 4 implies v[l] as nat == (lane_nat_at(bytes@, l, nn)
                / pow2((r * nn) as nat)) % pow2(nn) by {
                let lw = lane_words(bytes@, l, nn);
                let ll = lane_nat_at(bytes@, l, nn);
                crate::layout::lemma_shl1_is_pow2(pos);
                lemma_pow2_pos(nn);
                lemma_pow2_pos(pos as nat);
                assert(words@[4 * k + l] == word_at(bytes@, 4 * (4 * k + l)));
                assert(lw[k as int] == word_at(bytes@, 16 * (k as int) + 4 * l));
                lemma_lane_nat_extract(lw, 32, k as nat, nn);
                lemma2_to64();
                lemma_small_mod(lw[k as int] as nat, pow2(32));
                assert(a[l] as nat == (ll / pow2(32 * (k as nat))) % pow2(32)) by {
                    assert((k as nat) * 32 == 32 * (k as nat)) by (nonlinear_arith);
                }
                if pos + n <= 32 {
                    lemma_extract_low(ll, nn, k as nat, pos, a[l]);
                    bv_extract_low(a[l], pos, mask, n);
                    vstd::bits::lemma_u64_shr_is_div(a[l] as u64, pos as u64);
                    vstd::bits::lemma_u64_low_bits_mask_is_mod((a[l] as u64) >> (pos as u64), nn);
                    assert(mask as u64 == vstd::bits::low_bits_mask(nn) as u64);
                    assert(((a[l] as u64) >> (pos as u64)) & (mask as u64) == ((a[l] as nat) / pow2(
                        pos as nat,
                    )) % pow2(nn));
                } else {
                    lemma_lane_nat_extract(lw, 32, (k + 1) as nat, nn);
                    lemma_small_mod(lw[k + 1] as nat, pow2(32));
                    assert(words@[4 * (k + 1) + l] == word_at(bytes@, 4 * (4 * (k + 1) + l)));
                    assert(lw[k + 1] == word_at(bytes@, 16 * (k + 1) + 4 * l));
                    let b_l = word_at(bytes@, 16 * (k + 1) + 4 * l);
                    assert(b_l as nat == (ll / pow2(32 * ((k + 1) as nat))) % pow2(32)) by {
                        assert(((k + 1) as nat) * 32 == 32 * ((k + 1) as nat)) by (nonlinear_arith);
                    }
                    lemma_extract_split(ll, nn, k as nat, pos, a[l], b_l);
                    bv_extract_split(a[l], b_l, pos, mask, n);
                    let a_l = a[l];
                    let c: u64 = (a_l as u64) | ((b_l as u64) << 32u64);
                    assert((a_l as u64) | ((b_l as u64) << 32u64) == a_l as u64 + (b_l as u64)
                        * 0x1_0000_0000) by (bit_vector);
                    vstd::bits::lemma_u64_shr_is_div(c, pos as u64);
                    vstd::bits::lemma_u64_low_bits_mask_is_mod(c >> (pos as u64), nn);
                    assert(mask as u64 == vstd::bits::low_bits_mask(nn) as u64);
                    assert(c as nat == a[l] as nat + b_l as nat * pow2(32)) by {
                        lemma2_to64();
                    }
                    assert((c >> (pos as u64)) & (mask as u64) == ((a[l] as nat + b_l as nat
                        * pow2(32)) / pow2(pos as nat)) % pow2(nn));
                }
                assert(32 * (k as nat) + pos as nat == (r * nn) as nat);
            }
        }
        let ghost out_before: Seq<u32> = out@;
        out.push(v[0]);
        out.push(v[1]);
        out.push(v[2]);
        out.push(v[3]);
        proof {
            assert forall|i: int| 0 <= i < 4 * (r + 1) implies out@[i] == unpacked_value(
                bytes@,
                nn,
                i,
            ) by {
                if i < 4 * r {
                    assert(out@[i] == out_before[i]);
                } else {
                    let l = i - 4 * r;
                    assert(out@[i] == v[l]);
                    lemma_fundamental_div_mod_converse(i, 4, r as int, l);
                }
            }
            assert((r + 1) * n == r * n + n) by (nonlinear_arith);
        }
        pos = pos + n;
        if pos >= 32 {
            pos = pos - 32;
            k = k + 1;
        }
        r = r + 1;
    }
    out
}

} // verus!
