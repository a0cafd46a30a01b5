//! Block-level tests of the codec facade, including a bit-by-bit reference
//! packer that any conforming backend must agree with byte for byte.

use bitpacking::BitPacker4x;

/// A deterministic pseudo-random block, so failures reproduce.
fn pseudo_random_block(seed: u32, limit: u32) -> Vec<u32> {
    let mut state = seed;
    let mut out = Vec::with_capacity(128);
    for _ in 0..128 {
        state = state.wrapping_mul(1664525).wrapping_add(1013904223);
        out.push(state % limit);
    }
    out
}

/// Pack a block bit by bit, straight from the layout definition: bit `b` of
/// the value at row `r`, lane `l` lands at bit `(r * n + b) % 32` of lane
/// `l` of the 128-bit word `(r * n + b) / 32`, words stored little endian.
fn reference_pack(input: &[u32], n: usize) -> Vec<u8> {
    let mut out = vec![0u8; 16 * n];
    for r in 0..32 {
        for l in 0..4 {
            let v = if n == 32 { input[4 * r + l] } else { input[4 * r + l] & ((1u32 << n) - 1) };
            for b in 0..n {
                if (v >> b) & 1 == 1 {
                    let bitpos = r * n + b;
                    let word = bitpos / 32;
                    let bit = bitpos % 32;
                    out[16 * word + 4 * l + bit / 8] |= 1 << (bit % 8);
                }
            }
        }
    }
    out
}

/// The facade must emit exactly the reference layout and invert it, at
/// every width.
fn check_agreement(values: &Vec<u32>) {
    let bit_packer = BitPacker4x::new();
    for n in 0u8..=32 {
        let expected = reference_pack(values, n as usize);
        let mut block = vec![0u8; BitPacker4x::compressed_block_size(n)];
        let written = bit_packer.compress(values, &mut block, n);
        assert_eq!(written, 16 * n as usize);
        assert_eq!(block, expected);

        if n == 32 {
            let mut decoded = vec![0u32; BitPacker4x::BLOCK_LEN];
            bit_packer.decompress(&block, &mut decoded, n);
            assert_eq!(&decoded, values);
        }
    }
}

#[test]
fn test_compatible_sse3() {
    let values = pseudo_random_block(0x5EED_0001, u32::MAX);
    check_agreement(&values);
}

#[test]
fn test_compatible_neon() {
    let values = pseudo_random_block(0x5EED_0002, u32::MAX);
    check_agreement(&values);
    // the delta path feeds the same packer, so its bytes must agree too
    let bit_packer = BitPacker4x::new();
    let initial = 7u32;
    let n = bit_packer.num_bits_sorted(initial, &values);
    let mut block = vec![0u8; BitPacker4x::compressed_block_size(n)];
    bit_packer.compress_sorted(initial, &values, &mut block, n);
    let mut decoded = vec![0u32; BitPacker4x::BLOCK_LEN];
    bit_packer.decompress_sorted(initial, &block, &mut decoded, n);
    assert_eq!(decoded, values);
}

#[test]
fn test_delta_bit_width_32() {
    let values = vec![i32::max_value() as u32 + 1; BitPacker4x::BLOCK_LEN];
    let bit_packer = BitPacker4x::new();
    let bit_width = bit_packer.num_bits_sorted(0, &values);
    assert_eq!(bit_width, 32);

    let mut block = vec![0u8; BitPacker4x::compressed_block_size(bit_width)];
    bit_packer.compress_sorted(0, &values, &mut block, bit_width);

    let mut decoded_values = vec![0x10101010; BitPacker4x::BLOCK_LEN];
    bit_packer.decompress_sorted(0, &block, &mut decoded_values, bit_width);

    assert_eq!(values, decoded_values);
}

#[test]
fn test_bit_width_32() {
    let mut values = vec![i32::max_value() as u32 + 1; BitPacker4x::BLOCK_LEN];
    values[0] = 0;
    let bit_packer = BitPacker4x::new();
    let bit_width = bit_packer.num_bits(&values);
    assert_eq!(bit_width, 32);

    let mut block = vec![0u8; BitPacker4x::compressed_block_size(bit_width)];
    bit_packer.compress(&values, &mut block, bit_width);

    let mut decoded_values = vec![0x10101010; BitPacker4x::BLOCK_LEN];
    bit_packer.decompress(&block, &mut decoded_values, bit_width);

    assert_eq!(values, decoded_values);
}
