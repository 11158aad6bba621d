use ca_he_core::ca::{decrypt, encrypt, ReversibleCA};
use ca_he_core::grid::BitGrid;
use rand::Rng;

#[test]
fn test_roundtrip_encryption() {
    let mut rng = rand::thread_rng();
    let sizes = [8, 16, 64, 128, 256];

    for &size in &sizes {
        let ca_rule = rng.gen::<u8>();
        let steps = 32;

        let mut plaintext = BitGrid::new(size);
        let mut iv = BitGrid::new(size);

        // Fill with random bits
        for i in 0..size {
            plaintext.set_bit(i, rng.gen::<bool>());
            iv.set_bit(i, rng.gen::<bool>());
        }

        let (c0, c1) = encrypt(&plaintext, &iv, ca_rule, steps);
        let decrypted = decrypt(&c0, &c1, &iv, ca_rule, steps);

        assert_eq!(decrypted, plaintext, "Roundtrip failed for size {}", size);
    }
}

#[test]
fn test_linear_homomorphism() {
    // Rule 90 is linear (additive): f(L, C, R) = L ^ R
    let size = 64;
    let rule_lut = 90;
    let steps = 16;
    let iv = BitGrid::new(size); // Zero IV

    let mut rng = rand::thread_rng();
    let mut a = BitGrid::new(size);
    let mut b = BitGrid::new(size);

    for i in 0..size {
        a.set_bit(i, rng.gen::<bool>());
        b.set_bit(i, rng.gen::<bool>());
    }

    let a_xor_b = &a ^ &b;

    let (c_a0, c_a1) = encrypt(&a, &iv, rule_lut, steps);
    let (c_b0, c_b1) = encrypt(&b, &iv, rule_lut, steps);

    let c_sum0 = &c_a0 ^ &c_b0;
    let c_sum1 = &c_a1 ^ &c_b1;

    let decrypted = decrypt(&c_sum0, &c_sum1, &iv, rule_lut, steps);

    assert_eq!(decrypted, a_xor_b, "XOR homomorphism failed for Rule 90");
}

#[test]
fn apply_rule_known_values() {
    // Rule 90: each cell becomes left ^ right.
    let ca = ReversibleCA::new(90, 1);
    let g = BitGrid::from_u64(0b0000_1000, 8);
    assert_eq!(ca.apply_rule(&g).to_u64(), 0b0001_0100);
    // Rule 30 on a single cell at 3: cells 2, 3, 4 become set.
    let ca30 = ReversibleCA::new(30, 1);
    assert_eq!(ca30.apply_rule(&g).to_u64(), 0b0001_1100);
    // Rule 204 is the identity, rule 0 clears, rule 255 sets.
    assert_eq!(ReversibleCA::new(204, 1).apply_rule(&g).to_u64(), 0b0000_1000);
    assert_eq!(ReversibleCA::new(0, 1).apply_rule(&g).to_u64(), 0);
    assert_eq!(ReversibleCA::new(255, 1).apply_rule(&g).to_u64(), 0xff);
}

#[test]
fn evolve_one_step_is_rule_xor_prev() {
    let ca = ReversibleCA::new(30, 1);
    let prev = BitGrid::from_u64(0b1010_1010, 8);
    let curr = BitGrid::from_u64(0b0000_1000, 8);
    let (p, c) = ca.evolve(&prev, &curr);
    assert_eq!(p, curr);
    assert_eq!(c.to_u64(), 0b0001_1100 ^ 0b1010_1010);
    let (p0, c0) = ReversibleCA::new(30, 0).evolve(&prev, &curr);
    assert_eq!((p0, c0), (prev.clone(), curr.clone()));
}

#[test]
fn reverse_undoes_evolve_on_many_words() {
    let mut rng = rand::thread_rng();
    for &size in &[1usize, 63, 65, 200] {
        let mut prev = BitGrid::new(size);
        let mut curr = BitGrid::new(size);
        for i in 0..size {
            prev.set_bit(i, rng.gen::<bool>());
            curr.set_bit(i, rng.gen::<bool>());
        }
        let ca = ReversibleCA::new(rng.gen::<u8>(), 7);
        let (p, c) = ca.evolve(&prev, &curr);
        let (p2, c2) = ca.reverse(&p, &c);
        assert_eq!(p2, prev);
        assert_eq!(c2, curr);
    }
}

#[test]
fn in_place_step_matches_apply_rule() {
    // One evolve step from (p, c) gives apply_rule(c) ^ p for multi-word grids.
    let mut rng = rand::thread_rng();
    for &size in &[3usize, 64, 100, 192] {
        let mut prev = BitGrid::new(size);
        let mut curr = BitGrid::new(size);
        for i in 0..size {
            prev.set_bit(i, rng.gen::<bool>());
            curr.set_bit(i, rng.gen::<bool>());
        }
        let rule = rng.gen::<u8>();
        let ca = ReversibleCA::new(rule, 1);
        let (_, next) = ca.evolve(&prev, &curr);
        assert_eq!(next, &ca.apply_rule(&curr) ^ &prev);
    }
}

#[test]
fn homomorphism_with_rule_150_and_random_iv() {
    // Rule 150 (l ^ c ^ r) is additive: the xor of ciphertexts decrypts to
    // a ^ b ^ iv.
    let mut rng = rand::thread_rng();
    let size = 100;
    let mut a = BitGrid::new(size);
    let mut b = BitGrid::new(size);
    let mut iv = BitGrid::new(size);
    for i in 0..size {
        a.set_bit(i, rng.gen::<bool>());
        b.set_bit(i, rng.gen::<bool>());
        iv.set_bit(i, rng.gen::<bool>());
    }
    let (ca0, ca1) = encrypt(&a, &iv, 150, 9);
    let (cb0, cb1) = encrypt(&b, &iv, 150, 9);
    let d = decrypt(&(&ca0 ^ &cb0), &(&ca1 ^ &cb1), &iv, 150, 9);
    assert_eq!(d, &(&a ^ &b) ^ &iv);
}
