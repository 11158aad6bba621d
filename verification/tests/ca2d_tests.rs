use ca_he_core::ca2d::{decrypt_2d, encrypt_2d, CARule2D, ReversibleCA2D};
use ca_he_core::grid2d::BitGrid2D;
use rand::Rng;

#[test]
fn test_roundtrip_2d() {
    let mut rng = rand::thread_rng();
    let height = 8;
    let width = 8;
    let steps = 16;

    let rule = CARule2D::VonNeumann(rng.gen::<u32>());

    let mut plaintext = BitGrid2D::new(height, width);
    let mut iv = BitGrid2D::new(height, width);
    for y in 0..height {
        for x in 0..width {
            plaintext.set_cell(y, x, rng.gen::<bool>());
            iv.set_cell(y, x, rng.gen::<bool>());
        }
    }

    let (c0, c1) = encrypt_2d(&plaintext, &iv, &rule, steps);
    let decrypted = decrypt_2d(&c0, &c1, &iv, &rule, steps);

    assert_eq!(decrypted, plaintext, "2D Roundtrip failed");
}

#[test]
fn test_linear_homomorphism_2d() {
    let mut linear_rule_lut = 0u32;
    for idx in 0..32 {
        let bit = ((idx >> 4) & 1) ^ ((idx >> 3) & 1) ^ ((idx >> 2) & 1) ^ ((idx >> 1) & 1) ^ (idx & 1);
        linear_rule_lut |= (bit as u32) << idx;
    }
    let rule = CARule2D::VonNeumann(linear_rule_lut);
    let height = 8;
    let width = 8;
    let steps = 16;
    let iv = BitGrid2D::new(height, width);

    let mut rng = rand::thread_rng();
    let mut a = BitGrid2D::new(height, width);
    let mut b = BitGrid2D::new(height, width);
    for y in 0..height {
        for x in 0..width {
            a.set_cell(y, x, rng.gen::<bool>());
            b.set_cell(y, x, rng.gen::<bool>());
        }
    }

    let a_xor_b = &a ^ &b;

    let (c_a0, c_a1) = encrypt_2d(&a, &iv, &rule, steps);
    let (c_b0, c_b1) = encrypt_2d(&b, &iv, &rule, steps);

    let c_sum0 = &c_a0 ^ &c_b0;
    let c_sum1 = &c_a1 ^ &c_b1;

    let decrypted = decrypt_2d(&c_sum0, &c_sum1, &iv, &rule, steps);
    assert_eq!(decrypted, a_xor_b, "2D XOR homomorphism failed for linear rule");
}

#[test]
fn moore_roundtrip_on_wide_grid() {
    let mut rng = rand::thread_rng();
    let (height, width) = (5, 70);
    let mut lut = [0u64; 8];
    for w in lut.iter_mut() {
        *w = rng.gen::<u64>();
    }
    let rule = CARule2D::Moore(lut);
    let mut plaintext = BitGrid2D::new(height, width);
    let mut iv = BitGrid2D::new(height, width);
    for y in 0..height {
        for x in 0..width {
            plaintext.set_cell(y, x, rng.gen::<bool>());
            iv.set_cell(y, x, rng.gen::<bool>());
        }
    }
    let (c0, c1) = encrypt_2d(&plaintext, &iv, &rule, 6);
    assert_eq!(decrypt_2d(&c0, &c1, &iv, &rule, 6), plaintext);
}

#[test]
fn von_neumann_step_known_values() {
    // The rule whose table is 1 exactly at index 16 (only the upper cell
    // set): a cell becomes set when just the cell above it is set.
    let rule = CARule2D::VonNeumann(1 << 16);
    let ca = ReversibleCA2D::new(rule, 1);
    let prev = BitGrid2D::new(4, 4);
    let mut curr = BitGrid2D::new(4, 4);
    curr.set_cell(1, 2, true);
    let (p, c) = ca.evolve(&prev, &curr);
    assert_eq!(p, curr);
    for y in 0..4 {
        for x in 0..4 {
            assert_eq!(c.get_cell(y, x), (y, x) == (2, 2));
        }
    }
    // On a torus the cell below the last line is the first line.
    let mut curr = BitGrid2D::new(4, 4);
    curr.set_cell(3, 0, true);
    let (_, c) = ca.evolve(&prev, &curr);
    assert!(c.get_cell(0, 0));
}

#[test]
fn moore_step_known_values() {
    // Table entry 256 (upper left set only): a cell becomes set when just its
    // upper left neighbour is set, wrapping around both edges.
    let mut lut = [0u64; 8];
    lut[4] = 1;
    let ca = ReversibleCA2D::new(CARule2D::Moore(lut), 1);
    let prev = BitGrid2D::new(3, 5);
    let mut curr = BitGrid2D::new(3, 5);
    curr.set_cell(2, 4, true);
    let (_, c) = ca.evolve(&prev, &curr);
    for y in 0..3 {
        for x in 0..5 {
            assert_eq!(c.get_cell(y, x), (y, x) == (0, 0));
        }
    }
}

#[test]
fn reverse_2d_undoes_evolve() {
    let mut rng = rand::thread_rng();
    let (height, width) = (6, 9);
    let mut prev = BitGrid2D::new(height, width);
    let mut curr = BitGrid2D::new(height, width);
    for y in 0..height {
        for x in 0..width {
            prev.set_cell(y, x, rng.gen::<bool>());
            curr.set_cell(y, x, rng.gen::<bool>());
        }
    }
    let ca = ReversibleCA2D::new(CARule2D::VonNeumann(rng.gen::<u32>()), 11);
    let (p, c) = ca.evolve(&prev, &curr);
    let (p2, c2) = ca.reverse(&p, &c);
    assert_eq!((p2, c2), (prev, curr));
}

#[test]
fn xor_2d_cells() {
    let mut a = BitGrid2D::new(2, 3);
    let mut b = BitGrid2D::new(2, 3);
    a.set_cell(0, 0, true);
    a.set_cell(1, 2, true);
    b.set_cell(1, 2, true);
    b.set_cell(0, 1, true);
    let c = &a ^ &b;
    assert!(c.get_cell(0, 0) && c.get_cell(0, 1) && !c.get_cell(1, 2));
    assert_eq!(a.clone() ^ b.clone(), c);
}

#[test]
fn rows_of_no_cells_pass_through() {
    let rule = CARule2D::VonNeumann(0x1234_5678);
    let pt = BitGrid2D::new(3, 0);
    let iv = BitGrid2D::new(3, 0);
    let (c0, c1) = encrypt_2d(&pt, &iv, &rule, 5);
    assert_eq!((c0.height, c0.width, c1.height, c1.width), (3, 0, 3, 0));
    let back = decrypt_2d(&c0, &c1, &iv, &rule, 5);
    assert_eq!(back, pt);
    let ca = ReversibleCA2D::new(rule, 4);
    let (p, c) = ca.evolve(&pt, &iv);
    assert_eq!((p, c), (BitGrid2D::new(3, 0), BitGrid2D::new(3, 0)));
}
