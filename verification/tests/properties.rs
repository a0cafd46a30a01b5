//! Boundary scenarios and concrete instances of the codec's laws.

use bitpacking::BitPacker4x;

fn pseudo_random_block(seed: u32, limit: u32) -> Vec<u32> {
    let mut state = seed;
    let mut out = Vec::with_capacity(128);
    for _ in 0..128 {
        state = state.wrapping_mul(1664525).wrapping_add(1013904223);
        out.push(state % limit);
    }
    out
}

fn round_trip(values: &Vec<u32>, n: u8) -> Vec<u32> {
    let bit_packer = BitPacker4x::new();
    let mut block = vec![0u8; BitPacker4x::compressed_block_size(n)];
    let written = bit_packer.compress(values, &mut block, n);
    assert_eq!(written, 16 * n as usize);
    let mut decoded = vec![0u32; BitPacker4x::BLOCK_LEN];
    let read = bit_packer.decompress(&block, &mut decoded, n);
    assert_eq!(read, 16 * n as usize);
    decoded
}

#[test]
fn all_zeros_plain() {
    let values = vec![0u32; 128];
    let bit_packer = BitPacker4x::new();
    assert_eq!(bit_packer.num_bits(&values), 0);

    let mut block: Vec<u8> = Vec::new();
    let written = bit_packer.compress(&values, &mut block, 0);
    assert_eq!(written, 0);
    assert_eq!(block.len(), 0);

    let mut decoded = vec![0xFFFF_FFFFu32; 128];
    bit_packer.decompress(&block, &mut decoded, 0);
    assert_eq!(decoded, values);
}

#[test]
fn zero_width_sorted_fills_initial() {
    let bit_packer = BitPacker4x::new();
    let block: Vec<u8> = Vec::new();
    let mut decoded = vec![0u32; 128];
    bit_packer.decompress_sorted(42, &block, &mut decoded, 0);
    assert_eq!(decoded, vec![42u32; 128]);
}

#[test]
fn sorted_monotone() {
    let values: Vec<u32> = (11u32..139).collect();
    assert_eq!(values.len(), 128);
    let bit_packer = BitPacker4x::new();
    let bit_width = bit_packer.num_bits_sorted(10, &values);
    assert_eq!(bit_width, 1);

    let mut block = vec![0u8; BitPacker4x::compressed_block_size(bit_width)];
    let written = bit_packer.compress_sorted(10, &values, &mut block, bit_width);
    assert_eq!(written, 16);
    assert_eq!(block.len(), 16);

    let mut decoded = vec![0u32; 128];
    bit_packer.decompress_sorted(10, &block, &mut decoded, bit_width);
    assert_eq!(decoded, values);
}

#[test]
fn lane_boundary() {
    let values: Vec<u32> = (0..128u32).map(|i| i % 4).collect();
    let bit_packer = BitPacker4x::new();
    assert_eq!(bit_packer.num_bits(&values), 2);

    let mut block = vec![0u8; BitPacker4x::compressed_block_size(2)];
    let written = bit_packer.compress(&values, &mut block, 2);
    assert_eq!(written, 32);

    let decoded = round_trip(&values, 2);
    assert_eq!(decoded, values);
}

#[test]
fn width_7_random() {
    let values = pseudo_random_block(0x5EED_0007, 128);
    let bit_packer = BitPacker4x::new();
    assert!(bit_packer.num_bits(&values) <= 7);

    let decoded = round_trip(&values, 7);
    assert_eq!(decoded, values);

    // one bit short: the top bit of each value is silently dropped
    let truncated = round_trip(&values, 6);
    let masked: Vec<u32> = values.iter().map(|v| v & 0x3F).collect();
    assert_eq!(truncated, masked);
}

#[test]
fn round_trip_every_width() {
    for n in 0u8..=32 {
        let limit = if n == 32 { u32::MAX } else { (1u64 << n) as u32 };
        let values = if n == 0 {
            vec![0u32; 128]
        } else {
            pseudo_random_block(0xACE0_0000 | n as u32, limit)
        };
        let decoded = round_trip(&values, n);
        assert_eq!(decoded, values, "round trip failed at width {}", n);
    }
}

#[test]
fn sorted_round_trip_random() {
    // strictly increasing block whose deltas span 1..=9
    let mut state = 0x00C0FFEEu32;
    let mut v = 1000u32;
    let mut values = Vec::with_capacity(128);
    for _ in 0..128 {
        state = state.wrapping_mul(1664525).wrapping_add(1013904223);
        v += 1 + state % 9;
        values.push(v);
    }
    let bit_packer = BitPacker4x::new();
    let initial = 1000u32;
    let bit_width = bit_packer.num_bits_sorted(initial, &values);
    assert_eq!(bit_width, 4);

    let mut block = vec![0u8; BitPacker4x::compressed_block_size(bit_width)];
    bit_packer.compress_sorted(initial, &values, &mut block, bit_width);
    let mut decoded = vec![0u32; 128];
    bit_packer.decompress_sorted(initial, &block, &mut decoded, bit_width);
    assert_eq!(decoded, values);
}

#[test]
fn estimator_is_tight() {
    let bit_packer = BitPacker4x::new();
    for n in 1u8..=31 {
        let mut values = vec![0u32; 128];
        // one value with exactly bit n-1 set forces width n
        values[77] = 1u32 << (n - 1);
        assert_eq!(bit_packer.num_bits(&values), n);
        // one bit fewer loses that value
        let decoded = round_trip(&values, n - 1);
        assert_eq!(decoded[77], 0);
    }
}

#[test]
fn compressed_block_size_formula() {
    for n in 0u8..=32 {
        assert_eq!(BitPacker4x::compressed_block_size(n), 16 * n as usize);
    }
}

#[test]
fn lane_layout_exact_bytes() {
    // row 0 is 1, 2, 3, 0 at width 2: it fills bits 0..2 of each lane's word 0
    let mut values = vec![0u32; 128];
    values[0] = 1;
    values[1] = 2;
    values[2] = 3;
    values[3] = 0;
    let bit_packer = BitPacker4x::new();
    let mut block = vec![0u8; 32];
    bit_packer.compress(&values, &mut block, 2);
    // word 0 of each lane sits at byte offset 4 * lane, little endian
    assert_eq!(&block[0..4], &[1, 0, 0, 0]);
    assert_eq!(&block[4..8], &[2, 0, 0, 0]);
    assert_eq!(&block[8..12], &[3, 0, 0, 0]);
    assert_eq!(&block[12..32], &[0u8; 20]);
}
