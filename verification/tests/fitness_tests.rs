use ca_he_core::coding::encode_repetition;
use ca_he_core::fitness::{
    avalanche_distance_2d, avalanche_distances, count_add_correct, count_xor_correct,
    count_xor_correct_2d, evaluate_pair, evaluate_pair_2d,
};
use ca_he_core::ca2d::CARule2D;
use ca_he_core::grid::BitGrid;
use ca_he_core::grid2d::BitGrid2D;

fn pair(va: u64, vb: u64, k: usize, n: usize) -> (BitGrid, BitGrid, u64, u64) {
    (encode_repetition(va, k, n), encode_repetition(vb, k, n), va, vb)
}

fn grid_2d_from(val: u64, height: usize, width: usize) -> BitGrid2D {
    let mut g = BitGrid2D::new(height, width);
    for y in 0..height {
        for x in 0..width {
            let i = y * width + x;
            g.set_cell(y, x, i < 64 && (val >> i) & 1 == 1);
        }
    }
    g
}

#[test]
fn additive_rule_passes_every_xor_pair() {
    // Rule 90 is additive, and the evaluation rule 0 only swaps the two
    // states, so an even number of steps gives back the combined ciphertext.
    let pairs: Vec<_> = (0..10u64).map(|i| pair(i * 37 % 256, i * 91 % 256, 8, 64)).collect();
    assert_eq!(count_xor_correct(90, 0, 16, 64, 8, &pairs), pairs.len());
}

#[test]
fn addition_passes_only_without_carries() {
    // With the same rules the evaluation gives `a ^ b`, which equals `a + b`
    // exactly when the two values share no set bit.
    let pairs = vec![pair(1, 2, 8, 64), pair(1, 1, 8, 64), pair(0xf0, 0x0f, 8, 64), pair(0x40, 0x40, 8, 64)];
    assert_eq!(count_add_correct(90, 0, 16, 64, 8, &pairs), 2);
    assert_eq!(count_xor_correct(90, 0, 16, 64, 8, &pairs), 4);
}

#[test]
fn evaluate_pair_decodes_xor_for_additive_rule() {
    let iv = BitGrid::new(64);
    let (a, b, va, vb) = pair(0x5a, 0x33, 8, 64);
    assert_eq!(evaluate_pair(150, 0, 8, &iv, &a, &b, 8), va ^ vb);
}

#[test]
fn empty_pair_lists_count_zero() {
    let pairs: Vec<(BitGrid, BitGrid, u64, u64)> = Vec::new();
    assert_eq!(count_xor_correct(30, 45, 8, 64, 8, &pairs), 0);
    assert_eq!(count_add_correct(30, 45, 8, 64, 8, &pairs), 0);
    let pairs_2d: Vec<(BitGrid2D, BitGrid2D)> = Vec::new();
    assert_eq!(count_xor_correct_2d(7, 9, 8, 8, 8, &pairs_2d), 0);
}

#[test]
fn additive_2d_rule_passes_every_xor_pair() {
    // The parity of all five neighbours is additive.
    let mut linear = 0u32;
    for idx in 0..32u32 {
        linear |= (idx.count_ones() & 1) << idx;
    }
    let pairs: Vec<_> = (0..4u64)
        .map(|i| (grid_2d_from(0x0123_4567_89ab_cdef ^ i, 8, 8), grid_2d_from(i * 0x1111, 8, 8)))
        .collect();
    assert_eq!(count_xor_correct_2d(linear, 0, 16, 8, 8, &pairs), pairs.len());
    let iv = BitGrid2D::new(8, 8);
    let dec = evaluate_pair_2d(
        &CARule2D::VonNeumann(linear),
        &CARule2D::VonNeumann(0),
        16,
        &iv,
        &pairs[1].0,
        &pairs[1].1,
    );
    assert_eq!(dec, &pairs[1].0 ^ &pairs[1].1);
}

#[test]
fn avalanche_without_steps_counts_the_flipped_block() {
    // With no steps the ciphertext is the plaintext and the zero IV, so
    // flipping one plaintext bit changes its whole block of 64 / 8 cells.
    let g = encode_repetition(0x5a, 8, 64);
    assert_eq!(avalanche_distances(90, 0, 64, 8, &g, 0x5a, 3), (8, 0));
    let g = encode_repetition(0x5a, 4, 10);
    assert_eq!(avalanche_distances(90, 0, 10, 4, &g, 0x5a, 3), (2, 0));
}

#[test]
fn avalanche_after_steps_is_symmetric_in_the_flip() {
    let g = encode_repetition(0x21, 8, 64);
    let g2 = encode_repetition(0x21 ^ 0x04, 8, 64);
    let d1 = avalanche_distances(30, 12, 64, 8, &g, 0x21, 2);
    let d2 = avalanche_distances(30, 12, 64, 8, &g2, 0x21 ^ 0x04, 2);
    assert_eq!(d1, d2);
    assert!(d1.0 <= 64 && d1.1 <= 64);
}

#[test]
fn avalanche_2d_without_steps_counts_one_cell() {
    let g = grid_2d_from(0xdead_beef, 8, 8);
    // Test 5 flips cell (5 % 8, 15 % 8) = (5, 7).
    assert_eq!(avalanche_distance_2d(0x1234_5678, 0, 8, 8, &g, 5), 1);
    // A row of 80 cells: only the first 64 of each row are counted, and
    // cell (1, 3 * 25 % 80) = (1, 75) lies past them.
    let wide = BitGrid2D::new(3, 80);
    assert_eq!(avalanche_distance_2d(0x1234_5678, 0, 3, 80, &wide, 25), 0);
    assert_eq!(avalanche_distance_2d(0x1234_5678, 0, 3, 80, &wide, 4), 1);
}
