use ca_he_core::coding::{decode_repetition, encode_repetition};

#[test]
fn test_repetition_coding() {
    let val = 0b10101100u64; // 8-bit value
    let k = 8;
    let n = 64;
    let encoded = encode_repetition(val, k, n);

    // Verify encoding repetition
    // bit 0 is 0 -> cells 0..8 should be 0
    // bit 1 is 0 -> cells 8..16 should be 0
    // bit 2 is 1 -> cells 16..24 should be 1
    for i in 0..8 {
        assert!(!encoded.get_bit(i));
    }
    for i in 16..24 {
        assert!(encoded.get_bit(i));
    }

    let decoded = decode_repetition(&encoded, k);
    assert_eq!(decoded, val);

    // Add some noise (e.g. flip 3 bits in each 8-bit block)
    let mut noisy = encoded.clone();
    for bit_idx in 0..k {
        noisy.set_bit(bit_idx * 8 + 0, !noisy.get_bit(bit_idx * 8 + 0));
        noisy.set_bit(bit_idx * 8 + 1, !noisy.get_bit(bit_idx * 8 + 1));
        noisy.set_bit(bit_idx * 8 + 2, !noisy.get_bit(bit_idx * 8 + 2));
    }

    // Majority vote should still correctly decode
    let decoded_noisy = decode_repetition(&noisy, k);
    assert_eq!(decoded_noisy, val, "Majority voting failed under noise");
}

#[test]
fn encode_leaves_remainder_clear() {
    // n = 10, k = 3: r = 3, cells 9 stays clear.
    let g = encode_repetition(0b111, 3, 10);
    assert_eq!(g.to_u64(), 0b01_1111_1111);
    let g = encode_repetition(0b101, 3, 10);
    assert_eq!(g.to_u64(), 0b01_1100_0111);
}

#[test]
fn decode_uses_last_block_to_the_end() {
    // n = 10, k = 4: r = 2, the last block is cells 6..10 (4 cells).
    let g = encode_repetition(0b1000, 4, 10);
    // Bit 3 fills cells 6, 7 only: 2 of 4 cells is no majority.
    assert_eq!(decode_repetition(&g, 4), 0);
    // With n % k < n / k the round trip holds.
    let g = encode_repetition(0b1011, 4, 13);
    assert_eq!(decode_repetition(&g, 4), 0b1011);
}

#[test]
fn decode_ties_are_zero() {
    let mut g = ca_he_core::grid::BitGrid::new(4);
    g.set_bit(0, true);
    // k = 2: block 0 is cells 0..2 with one set cell out of 2.
    assert_eq!(decode_repetition(&g, 2), 0);
    g.set_bit(1, true);
    assert_eq!(decode_repetition(&g, 2), 1);
}
