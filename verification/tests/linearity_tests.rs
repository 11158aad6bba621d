use ca_he_core::linearity::{is_linear_rule, is_linear_rule_2d, min_affine_distance, min_affine_distance_2d};

#[test]
fn linear_elementary_rules() {
    // Affine rules: 0, 255, 90 (l ^ r), 150 (l ^ c ^ r), 60 (l ^ c), 102 (c ^ r),
    // 204 (c), 51 (!c), 165 (!(l ^ r)).
    for &r in &[0u8, 255, 90, 150, 60, 102, 204, 51, 165, 240, 170] {
        assert!(is_linear_rule(r), "rule {} is affine", r);
        assert_eq!(min_affine_distance(r), 0);
    }
    for &r in &[30u8, 110, 43, 36, 1, 128, 184] {
        assert!(!is_linear_rule(r), "rule {} is not affine", r);
        assert!(min_affine_distance(r) > 0);
    }
}

#[test]
fn affine_distances() {
    // Rule 1 (only 000 -> 1) and rule 128 (only 111 -> 1) are one entry away
    // from the constant 0.
    assert_eq!(min_affine_distance(1), 1);
    assert_eq!(min_affine_distance(128), 1);
    // Rule 30 = l ^ (c | r) is at distance 2 from l ^ c ^ r... and from l.
    assert_eq!(min_affine_distance(30), 2);
    // Every table of three inputs is within 2 of an affine function.
    for r in 0..=255u8 {
        assert!(min_affine_distance(r) <= 2);
    }
}

#[test]
fn linear_von_neumann_rules() {
    let mut parity = 0u32;
    for idx in 0..32u32 {
        let bit = idx.count_ones() & 1;
        parity |= bit << idx;
    }
    assert!(is_linear_rule_2d(parity));
    assert!(is_linear_rule_2d(!parity));
    assert!(is_linear_rule_2d(0));
    assert_eq!(min_affine_distance_2d(parity), 0);
    // The table that is set only at index 0 is one entry from the constant 0.
    assert!(!is_linear_rule_2d(1));
    assert_eq!(min_affine_distance_2d(1), 1);
    // Majority of five is far from affine.
    let mut majority = 0u32;
    for idx in 0..32u32 {
        if idx.count_ones() >= 3 {
            majority |= 1 << idx;
        }
    }
    assert!(!is_linear_rule_2d(majority));
    assert!(min_affine_distance_2d(majority) > 1);
}
