//! The packing kernel: 128 integers in, `16 * num_bits` bytes out.
//!
//! The kernel walks the 32 rows of the block, all four lanes at once.  Each
//! row's masked values are shifted into an accumulator word; whenever the
//! accumulator fills, its four lanes are flushed as sixteen little-endian
//! bytes.  The proof tracks, per lane, the bitstream packed so far as a
//! natural number and shows every flushed word is one of its 32-bit digits.

use vstd::prelude::*;
use vstd::arithmetic::power2::{pow2, lemma_pow2_adds, lemma_pow2_pos, lemma2_to64};
use vstd::arithmetic::div_mod::{
    lemma_basic_div, lemma_div_denominator, lemma_hoist_over_denominator,
    lemma_mod_division_less_than_divisor, lemma_multiply_divide_lt, lemma_small_mod,
};
use vstd::arithmetic::mul::lemma_mul_inequality;
use vstd::bits::{lemma_u32_low_bits_mask_is_mod, low_bits_mask};
use crate::lanes::{left_shift_32, op_and, op_or, right_shift_32, set1};
use crate::layout::{
    byte_of_word, lane_nat, lane_seq, lemma_digit_stable, lemma_lane_nat_bound,
    lemma_shl1_is_pow2, low_bits, packed_byte, packed_word, word_of_nat,
};

verus! {

/// The mask that keeps the low `n` bits of a value.
pub fn width_mask(n: u32) -> (m: u32)
    requires
        n <= 32,
    ensures
        m as nat == pow2(n as nat) - 1,
{
    if n == 32 {
        proof {
            lemma2_to64();
        }
        0xffff_ffffu32
    } else {
        let one_shifted = 1u32 << n;
        proof {
            vstd::bits::lemma_u32_pow2_no_overflow(n as nat);
            vstd::bits::lemma_u32_shl_is_mul(1u32, n);
            assert(1u32 << n == 1u32 << (n as u32)) by (bit_vector);
        }
        one_shifted - 1
    }
}

/// Masking with the width mask keeps exactly the low `n` bits.
proof fn lemma_mask_low_bits(v: u32, mask: u32, n: nat)
    requires
        n <= 32,
        mask as nat == pow2(n) - 1,
    ensures
        (v & mask) as nat == low_bits(v, n),
{
    if n < 32 {
        lemma_u32_low_bits_mask_is_mod(v, n);
        vstd::bits::lemma_u32_pow2_no_overflow(n);
        assert(mask == low_bits_mask(n) as u32);
        assert(v % (pow2(n) as u32) == (v as nat % pow2(n)));
    } else {
        lemma2_to64();
        assert(v & 0xffff_ffffu32 == v) by (bit_vector);
        lemma_small_mod(v as nat, pow2(32));
    }
}

/// OR-ing a shifted value into an accumulator whose used bits lie below the
/// shift is addition, when nothing is shifted out.
proof fn lemma_bv_or_shift(acc: u32, m: u32, pos: u32)
    by (bit_vector)
    requires
        pos < 32,
        (acc as u64) < (1u64 << pos),
        (m as u64) * (1u64 << pos) < 0x1_0000_0000u64,
    ensures
        (acc | (m << pos)) as u64 == acc as u64 + (m as u64) * (1u64 << pos),
{
}

/// The same OR, when the shifted value spills past bit 31: the word holds
/// the low 32 bits of the sum, and the right shift recovers the rest.
proof fn lemma_bv_or_shift_split(acc: u32, m: u32, pos: u32)
    by (bit_vector)
    requires
        0 < pos < 32,
        (acc as u64) < (1u64 << pos),
    ensures
        (acc | (m << pos)) as u64 == (acc as u64 + (m as u64) * (1u64 << pos)) % 0x1_0000_0000,
        (m >> ((32 - pos) as u32)) as u64 == (acc as u64 + (m as u64) * (1u64 << pos)) / 0x1_0000_0000,
{
}

/// Shared arithmetic of one packing step on one lane: after absorbing the
/// low bits of value `r`, the accumulator-to-be is the bitstream of `r + 1`
/// values, divided by what has already been flushed.
proof fn lemma_pack_absorb(vals: Seq<u32>, n: nat, r: nat, k: nat, pos: u32, acc: u32, m: u32)
    requires
        1 <= n <= 32,
        r < 32,
        32 * k + pos == r * n,
        pos < 32,
        acc as nat == lane_nat(vals, n, r) / pow2(32 * k),
        m as nat == low_bits(vals[r as int], n),
    ensures
        (acc as nat) < pow2(pos as nat),
        (m as nat) < pow2(n),
        lane_nat(vals, n, (r + 1) as nat) / pow2(32 * k) == acc as nat + m as nat * pow2(
            pos as nat,
        ),
{
    let s = lane_nat(vals, n, r);
    let s1 = lane_nat(vals, n, (r + 1) as nat);
    let p = pow2(32 * k);
    let pw = pow2(pos as nat);
    lemma_pow2_pos(32 * k);
    lemma_pow2_pos(pos as nat);
    lemma_pow2_pos(n);
    assert(s1 == s + m as nat * pow2(r * n));
    lemma_pow2_adds(32 * k, pos as nat);
    assert(pow2(r * n) == p * pw);
    assert(m as nat * (p * pw) == (m as nat * pw) * p) by (nonlinear_arith);
    lemma_hoist_over_denominator(s as int, (m as nat * pw) as int, p);
    assert(s1 as int / p as int == s as int / p as int + m as nat * pw);
    lemma_lane_nat_bound(vals, n, r);
    lemma_multiply_divide_lt(s as int, p as int, pw as int);
    lemma_mod_division_less_than_divisor(vals[r as int] as int, pow2(n) as int);
}

/// A packing step that does not fill the accumulator.
proof fn lemma_pack_step(vals: Seq<u32>, n: nat, r: nat, k: nat, pos: u32, acc: u32, m: u32)
    requires
        1 <= n <= 32,
        r < 32,
        32 * k + pos == r * n,
        pos < 32,
        pos + n < 32,
        acc as nat == lane_nat(vals, n, r) / pow2(32 * k),
        m as nat == low_bits(vals[r as int], n),
    ensures
        (acc | (m << pos)) as nat == lane_nat(vals, n, (r + 1) as nat) / pow2(32 * k),
{
    lemma_pack_absorb(vals, n, r, k, pos, acc, m);
    let pw = pow2(pos as nat);
    lemma_shl1_is_pow2(pos);
    assert(m as nat * pw < pow2(n + pos as nat)) by {
        lemma_pow2_pos(pos as nat);
        lemma_mul_inequality(m as int, pow2(n) - 1, pw as int);
        lemma_pow2_adds(n, pos as nat);
        assert((pow2(n) - 1) * pw < pow2(n) * pw) by (nonlinear_arith)
            requires pw >= 1;
    }
    assert(pow2(n + pos as nat) <= pow2(32)) by {
        if n + (pos as nat) < 32 {
            vstd::arithmetic::power2::lemma_pow2_strictly_increases(n + pos as nat, 32);
        }
    }
    lemma2_to64();
    lemma_bv_or_shift(acc, m, pos);
}

/// A packing step that fills the accumulator: the flushed word is digit `k`
/// of the whole lane bitstream, and the carry seeds the next word.
proof fn lemma_pack_flush(vals: Seq<u32>, n: nat, r: nat, k: nat, pos: u32, acc: u32, m: u32)
    requires
        1 <= n <= 32,
        r < 32,
        32 * k + pos == r * n,
        pos < 32,
        pos + n >= 32,
        acc as nat == lane_nat(vals, n, r) / pow2(32 * k),
        m as nat == low_bits(vals[r as int], n),
    ensures
        (acc | (m << pos)) == word_of_nat(lane_nat(vals, n, 32), k),
        (if pos + n == 32 {
            0u32
        } else {
            m >> ((32 - pos) as u32)
        }) as nat == lane_nat(vals, n, (r + 1) as nat) / pow2(32 * (k + 1)),
{
    lemma_pack_absorb(vals, n, r, k, pos, acc, m);
    assert((r + 1) * n == r * n + n) by (nonlinear_arith);
    let s1 = lane_nat(vals, n, (r + 1) as nat);
    let p = pow2(32 * k);
    let pw = pow2(pos as nat);
    let y = acc as nat + m as nat * pw;
    lemma_shl1_is_pow2(pos);
    lemma2_to64();
    lemma_pow2_pos(32 * k);
    lemma_pow2_pos(32 * (k + 1));
    // The flushed word is the low 32 bits of y, which is digit k of s1.
    let w = acc | (m << pos);
    if pos == 0 {
        // Only possible when n == 32: the accumulator is empty and the
        // value fills the word exactly.
        assert(acc == 0);
        assert(m << 0u32 == m) by (bit_vector);
        assert(acc | m == m) by (bit_vector)
            requires acc == 0u32;
        assert(m as nat * pw == m as nat) by (nonlinear_arith)
            requires pw == 1;
        assert(y == m as nat);
        lemma_small_mod(y, pow2(32));
    } else {
        lemma_bv_or_shift_split(acc, m, pos);
        assert(w as nat == y % pow2(32));
    }
    assert(word_of_nat(s1, k) == ((s1 / p) % pow2(32)) as u32);
    assert(w as nat == (s1 / p) % pow2(32));
    lemma_digit_stable(vals, n, (r + 1) as nat, 32, k);
    // The carry is y with its low 32 bits dropped.
    lemma_div_denominator(s1 as int, p as int, pow2(32) as int);
    lemma_pow2_adds(32 * k, 32);
    assert(s1 / pow2(32 * (k + 1)) == y / pow2(32));
    if pos + n == 32 {
        // y fits in 32 bits, so the carry is zero.
        assert(m as nat * pw <= (pow2(n) - 1) * pw) by {
            lemma_mul_inequality(m as int, pow2(n) - 1, pw as int);
        }
        assert((pow2(n) - 1) * pw == pow2(n) * pw - pw) by (nonlinear_arith);
        lemma_pow2_adds(n, pos as nat);
        assert(y < pow2(32));
        lemma_basic_div(y as int, pow2(32) as int);
    } else {
        lemma_bv_or_shift_split(acc, m, pos);
        assert((m >> ((32 - pos) as u32)) as nat == y / pow2(32));
    }
}

/// Append the four lanes of a word as sixteen little-endian bytes.
fn push_lane_bytes(out: &mut Vec<u8>, v: u32)
    ensures
        final(out)@.len() == old(out)@.len() + 4,
        forall|j: int| 0 <= j < old(out)@.len() ==> final(out)@[j] == old(out)@[j],
        forall|b: int| 0 <= b < 4 ==> final(out)@[old(out)@.len() + b] == byte_of_word(v, b),
{
    out.push((v & 0xff) as u8);
    out.push(((v >> 8u32) & 0xff) as u8);
    out.push(((v >> 16u32) & 0xff) as u8);
    out.push((v >> 24u32) as u8);
    proof {
        assert((v & 0xff) as u8 == (v % 0x100) as u8) by (bit_vector);
        assert(((v >> 8u32) & 0xff) as u8 == ((v / 0x100) % 0x100) as u8) by (bit_vector);
        assert(((v >> 16u32) & 0xff) as u8 == ((v / 0x10000) % 0x100) as u8) by (bit_vector);
        assert((v >> 24u32) as u8 == ((v / 0x1000000) % 0x100) as u8) by (bit_vector);
    }
}

/// Pack a block of 128 values at width `num_bits` into `16 * num_bits`
/// fresh bytes laid out as [`packed_byte`] describes.
pub fn pack(block: &Vec<u32>, num_bits: u8) -> (out: Vec<u8>)
    requires
        block@.len() == 128,
        num_bits <= 32,
    ensures
        out@.len() == 16 * num_bits as int,
        forall|j: int| 0 <= j < out@.len() ==> out@[j] == packed_byte(block@, num_bits as nat, j),
{
    let n: u32 = num_bits as u32;
    let mut out: Vec<u8> = Vec::new();
    if n == 0 {
        return out;
    }
    let ghost nn: nat = n as nat;
    let mask = width_mask(n);
    let mask4 = set1(mask);
    let mut acc: [u32; 4] = set1(0);
    let mut pos: u32 = 0;
    let mut k: usize = 0;
    let mut r: usize = 0;
    proof {
        lemma_pow2_pos(0);
        assert(pow2(0) == 1) by {
            lemma2_to64();
        }
    }
    while r < 32
        invariant
            block@.len() == 128,
            1 <= n <= 32,
            nn == n as nat,
            mask as nat == pow2(nn) - 1,
            forall|i: int| 0 <= i < 4 ==> mask4[i] == mask,
            r <= 32,
            pos < 32,
            k <= 32,
            32 * k + pos == r * n,
            out@.len() == 16 * k,
            forall|j: int| 0 <= j < out@.len() ==> out@[j] == packed_byte(block@, nn, j),
            forall|l: int|
                0 <= l < 4 ==> acc[l] as nat == lane_nat(lane_seq(block@, l), nn, r as nat) / pow2(
                    32 * (k as nat),
                ),
        decreases 32 - r,
    {
        let row: [u32; 4] = [block[4 * r], block[4 * r + 1], block[4 * r + 2], block[4 * r + 3]];
        let m = op_and(row, mask4);
        proof {
            assert forall|l: int| 0 <= l < 4 implies m[l] as nat == low_bits(
                lane_seq(block@, l)[r as int],
                nn,
            ) by {
                assert(lane_seq(block@, l)[r as int] == block@[4 * r + l]);
                lemma_mask_low_bits(row[l], mask, nn);
            }
        }
        if pos + n < 32 {
            let shifted = left_shift_32(m, pos);
            let acc2 = op_or(acc, shifted);
            proof {
                assert forall|l: int| 0 <= l < 4 implies acc2[l] as nat == lane_nat(
                    lane_seq(block@, l),
                    nn,
                    (r + 1) as nat,
                ) / pow2(32 * (k as nat)) by {
                    lemma_pack_step(lane_seq(block@, l), nn, r as nat, k as nat, pos, acc[l], m[l]);
                }
            }
            proof {
                assert((r + 1) * n == r * n + n) by (nonlinear_arith);
            }
            acc = acc2;
            pos = pos + n;
        } else {
            let shifted = left_shift_32(m, pos);
            let flushed = op_or(acc, shifted);
            proof {
                assert forall|l: int| 0 <= l < 4 implies flushed[l] == word_of_nat(
                    lane_nat(lane_seq(block@, l), nn, 32),
                    k as nat,
                ) by {
                    lemma_pack_flush(lane_seq(block@, l), nn, r as nat, k as nat, pos, acc[l], m[l]);
                }
            }
            push_lane_bytes(&mut out, flushed[0]);
            let ghost out1: Seq<u8> = out@;
            push_lane_bytes(&mut out, flushed[1]);
            let ghost out2: Seq<u8> = out@;
            push_lane_bytes(&mut out, flushed[2]);
            let ghost out3: Seq<u8> = out@;
            push_lane_bytes(&mut out, flushed[3]);
            proof {
                assert forall|j: int| 16 * k <= j < 16 * k + 16 implies out@[j] == packed_byte(
                    block@,
                    nn,
                    j,
                ) by {
                    let b = j - 16 * k;
                    let l = b / 4;
                    let c = b % 4;
                    vstd::arithmetic::div_mod::lemma_fundamental_div_mod(b, 4);
                    if l == 0 {
                        assert(out@[j] == out1[j]);
                        assert(out1[j] == byte_of_word(flushed[0], c));
                    } else if l == 1 {
                        assert(out@[j] == out2[j]);
                        assert(out2[j] == byte_of_word(flushed[1], c));
                    } else if l == 2 {
                        assert(out@[j] == out3[j]);
                        assert(out3[j] == byte_of_word(flushed[2], c));
                    } else {
                        assert(out@[j] == byte_of_word(flushed[3], c));
                    }
                    assert(j == 4 * (4 * k + l) + c);
                    vstd::arithmetic::div_mod::lemma_fundamental_div_mod_converse(
                        j,
                        4,
                        4 * k + l,
                        c,
                    );
                    vstd::arithmetic::div_mod::lemma_fundamental_div_mod_converse(
                        4 * k + l,
                        4,
                        k as int,
                        l,
                    );
                    assert(packed_word(block@, nn, 4 * k + l) == word_of_nat(
                        lane_nat(lane_seq(block@, l), nn, 32),
                        k as nat,
                    ));
                }
            }
            let acc2: [u32; 4] = if pos + n == 32 {
                set1(0)
            } else {
                right_shift_32(m, 32 - pos)
            };
            proof {
                assert forall|l: int| 0 <= l < 4 implies acc2[l] as nat == lane_nat(
                    lane_seq(block@, l),
                    nn,
                    (r + 1) as nat,
                ) / pow2(32 * ((k + 1) as nat)) by {
                    lemma_pack_flush(lane_seq(block@, l), nn, r as nat, k as nat, pos, acc[l], m[l]);
                }
            }
            proof {
                assert((r + 1) * n == r * n + n) by (nonlinear_arith);
                assert((r + 1) * n <= 1024) by (nonlinear_arith)
                    requires r < 32, n <= 32;
            }
            acc = acc2;
            pos = pos + n - 32;
            k = k + 1;
        }
        r = r + 1;
    }
    out
}

} // verus!
