use ca_he_core::challenge::{counter_block_bytes, generate_deterministic_test_pairs_2d, pair_from_digests};
use ca_he_core::grid2d::BitGrid2D;

fn grid_value(g: &BitGrid2D) -> u64 {
    let mut v = 0u64;
    for y in 0..8 {
        for x in 0..8 {
            if g.get_cell(y, x) {
                v |= 1u64 << (y * 8 + x);
            }
        }
    }
    v
}

#[test]
fn challenge_pairs_follow_the_keccak_chain() {
    let mut seed = [0u8; 32];
    for (i, b) in seed.iter_mut().enumerate() {
        *b = i as u8;
    }
    let pairs = generate_deterministic_test_pairs_2d(8, 8, seed, 2);
    assert_eq!(pairs.len(), 2);
    // Values computed independently from the Keccak-256 chain of the seed.
    assert_eq!(grid_value(&pairs[0].0), 0x8a47_fe70_cffe_75b8);
    assert_eq!(grid_value(&pairs[0].1), 0x30f2_a95c_58d9_d983);
    assert_eq!(grid_value(&pairs[1].0), 0x610b_d189_0524_424e);
    assert_eq!(grid_value(&pairs[1].1), 0xcb1b_3446_c4b2_9cb0);
}

#[test]
fn challenge_pairs_are_deterministic_and_fill_only_the_corner() {
    let seed = [7u8; 32];
    let a = generate_deterministic_test_pairs_2d(10, 12, seed, 3);
    let b = generate_deterministic_test_pairs_2d(10, 12, seed, 3);
    assert_eq!(a, b);
    for (ga, gb) in &a {
        for y in 0..10 {
            for x in 0..12 {
                if y >= 8 || x >= 8 {
                    assert!(!ga.get_cell(y, x) && !gb.get_cell(y, x));
                }
            }
        }
    }
    assert!(generate_deterministic_test_pairs_2d(8, 8, seed, 0).is_empty());
}

#[test]
fn pair_from_given_digests() {
    let mut ha = [0u8; 32];
    let mut hb = [0xffu8; 32];
    ha[24..32].copy_from_slice(&0x8a47_fe70_cffe_75b8u64.to_be_bytes());
    hb[24..32].copy_from_slice(&0x0000_0000_0000_0101u64.to_be_bytes());
    let (a, b) = pair_from_digests(&ha, &hb, 8, 10);
    assert_eq!(grid_value(&a), 0x8a47_fe70_cffe_75b8);
    assert_eq!(grid_value(&b), 0x0101);
    assert_eq!((a.height, a.width, b.height, b.width), (8, 10, 8, 10));
    assert!(!a.get_cell(0, 8) && !b.get_cell(7, 9));
}

#[test]
fn counter_blocks_are_big_endian() {
    let blk = counter_block_bytes(0x0102_0304_0506_0708);
    assert_eq!(blk.len(), 32);
    assert!(blk[..24].iter().all(|&x| x == 0));
    assert_eq!(&blk[24..], &[1, 2, 3, 4, 5, 6, 7, 8]);
}
