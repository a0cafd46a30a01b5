//! The codec front end.
//!
//! `BitPacker4x` carries the backend chosen at construction and routes each
//! operation to it.  The scalar four-lane backend is the only one here:
//! SIMD backends live outside the verified library, and the byte layout the
//! contracts pin down is what makes every conforming backend emit the same
//! stream.

use vstd::prelude::*;
use crate::delta::{delta_block, deltas, integrate_block, integrated};
use crate::estimate::{is_min_width, num_bits_block, num_bits_sorted_block};
use crate::layout::packed_byte;
use crate::layout::unpacked_seq;
use crate::pack::pack;
use crate::unpack::unpack;

verus! {

/// The instruction set a codec instance dispatches to.
#[derive(Clone, Copy)]
enum InstructionSet {
    Scalar,
}

/// A bit packer for blocks of 128 integers, packed four lanes at a time so
/// that a 128-bit SIMD implementation of the same layout emits identical
/// bytes.
#[derive(Clone, Copy)]
pub struct BitPacker4x(InstructionSet);

impl BitPacker4x {
    /// Number of integers in one block.
    pub const BLOCK_LEN: usize = 128;

    /// Returns the best available implementation for the current CPU.
    pub fn new() -> Self {
        BitPacker4x(InstructionSet::Scalar)
    }

    /// Packed size of one block at width `num_bits`: 16 bytes per bit of
    /// width.
    pub fn compressed_block_size(num_bits: u8) -> (r: usize)
        requires
            num_bits <= 32,
        ensures
            r == 16 * num_bits as int,
    {
        16 * num_bits as usize
    }

    /// Pack `decompressed` at width `num_bits` into the front of
    /// `compressed`, leaving the rest of the buffer as it was; returns the
    /// number of bytes written.
    pub fn compress(&self, decompressed: &Vec<u32>, compressed: &mut Vec<u8>, num_bits: u8) -> (r:
        usize)
        requires
            decompressed@.len() == 128,
            num_bits <= 32,
            old(compressed)@.len() >= 16 * num_bits as int,
        ensures
            final(compressed)@.len() == old(compressed)@.len(),
            forall|j: int|
                0 <= j < 16 * num_bits as int ==> final(compressed)@[j] == packed_byte(
                    decompressed@,
                    num_bits as nat,
                    j,
                ),
            forall|j: int|
                16 * num_bits as int <= j < old(compressed)@.len() ==> final(compressed)@[j] == old(
                    compressed,
                )@[j],
            r == 16 * num_bits as int,
    {
        let packed = pack(decompressed, num_bits);
        let r = write_prefix(compressed, &packed);
        proof {
            assert forall|j: int| 0 <= j < 16 * num_bits as int implies compressed@[j]
                == packed_byte(decompressed@, num_bits as nat, j) by {
                assert(compressed@[j] == packed@[j]);
            }
        }
        r
    }

    /// Pack the wrapping deltas of `decompressed`, seeded by `initial`,
    /// into the front of `compressed`; returns the number of bytes written.
    pub fn compress_sorted(
        &self,
        initial: u32,
        decompressed: &Vec<u32>,
        compressed: &mut Vec<u8>,
        num_bits: u8,
    ) -> (r: usize)
        requires
            decompressed@.len() == 128,
            num_bits <= 32,
            old(compressed)@.len() >= 16 * num_bits as int,
        ensures
            final(compressed)@.len() == old(compressed)@.len(),
            forall|j: int|
                0 <= j < 16 * num_bits as int ==> final(compressed)@[j] == packed_byte(
                    deltas(initial, decompressed@),
                    num_bits as nat,
                    j,
                ),
            forall|j: int|
                16 * num_bits as int <= j < old(compressed)@.len() ==> final(compressed)@[j] == old(
                    compressed,
                )@[j],
            r == 16 * num_bits as int,
    {
        let d = delta_block(initial, decompressed);
        let packed = pack(&d, num_bits);
        let r = write_prefix(compressed, &packed);
        proof {
            assert forall|j: int| 0 <= j < 16 * num_bits as int implies compressed@[j]
                == packed_byte(deltas(initial, decompressed@), num_bits as nat, j) by {
                assert(compressed@[j] == packed@[j]);
            }
        }
        r
    }

    /// Unpack `16 * num_bits` bytes into the 128 values whose low
    /// `num_bits` bits they hold; returns the number of bytes read.
    pub fn decompress(&self, compressed: &Vec<u8>, decompressed: &mut Vec<u32>, num_bits: u8) -> (r:
        usize)
        requires
            num_bits <= 32,
            compressed@.len() >= 16 * num_bits as int,
            old(decompressed)@.len() == 128,
        ensures
            final(decompressed)@ == unpacked_seq(compressed@, num_bits as nat),
            final(decompressed)@.len() == 128,
            r == 16 * num_bits as int,
    {
        let values = unpack(compressed, num_bits);
        proof {
            assert(values@ =~= unpacked_seq(compressed@, num_bits as nat));
        }
        *decompressed = values;
        16 * num_bits as usize
    }

    /// Unpack `16 * num_bits` bytes of deltas and integrate them from
    /// `initial` by wrapping prefix sums; returns the number of bytes read.
    pub fn decompress_sorted(
        &self,
        initial: u32,
        compressed: &Vec<u8>,
        decompressed: &mut Vec<u32>,
        num_bits: u8,
    ) -> (r: usize)
        requires
            num_bits <= 32,
            compressed@.len() >= 16 * num_bits as int,
            old(decompressed)@.len() == 128,
        ensures
            final(decompressed)@.len() == 128,
            forall|i: int|
                0 <= i < 128 ==> final(decompressed)@[i] == integrated(
                    initial,
                    unpacked_seq(compressed@, num_bits as nat),
                    i,
                ),
            r == 16 * num_bits as int,
    {
        let d = unpack(compressed, num_bits);
        proof {
            assert(d@ =~= unpacked_seq(compressed@, num_bits as nat));
        }
        let values = integrate_block(initial, &d);
        *decompressed = values;
        16 * num_bits as usize
    }

    /// The least width in which every value of the block fits.
    pub fn num_bits(&self, decompressed: &Vec<u32>) -> (n: u8)
        requires
            decompressed@.len() == 128,
        ensures
            n <= 32,
            is_min_width(decompressed@, n as nat),
    {
        num_bits_block(decompressed)
    }

    /// The least width in which every wrapping delta of the block, seeded
    /// by `initial`, fits.
    pub fn num_bits_sorted(&self, initial: u32, decompressed: &Vec<u32>) -> (n: u8)
        requires
            decompressed@.len() == 128,
        ensures
            n <= 32,
            is_min_width(deltas(initial, decompressed@), n as nat),
    {
        num_bits_sorted_block(initial, decompressed)
    }
}

/// Overwrite the front of `out` with `src`, leaving the rest in place;
/// returns the number of bytes written.
fn write_prefix(out: &mut Vec<u8>, src: &Vec<u8>) -> (r: usize)
    requires
        old(out)@.len() >= src@.len(),
    ensures
        final(out)@.len() == old(out)@.len(),
        forall|j: int| 0 <= j < src@.len() ==> final(out)@[j] == src@[j],
        forall|j: int| src@.len() <= j < old(out)@.len() ==> final(out)@[j] == old(out)@[j],
        r == src@.len(),
{
    let n = src.len();
    let mut j: usize = 0;
    while j < n
        invariant
            n == src@.len(),
            out@.len() == old(out)@.len(),
            old(out)@.len() >= n,
            j <= n,
            forall|i: int| 0 <= i < j ==> out@[i] == src@[i],
            forall|i: int| j <= i < out@.len() ==> out@[i] == old(out)@[i],
        decreases n - j,
    {
        out[j] = src[j];
        j = j + 1;
    }
    n
}

} // verus!
