use ca_he_core::capi::{
    cahe_bootstrap_1d, cahe_bootstrap_2d, cahe_bootstrap_3d, cahe_decode_repetition_1d,
    cahe_decrypt_1d, cahe_decrypt_2d, cahe_encode_repetition_1d, cahe_encrypt_1d,
    cahe_encrypt_2d, cahe_eval_add_1d, cahe_eval_add_2d, cahe_keygen_1d, cahe_keygen_2d,
    cahe_keygen_3d, grid2d_to_u64, u64_to_grid2d, CaheCiphertext1D, CaheCiphertext2D,
};
use ca_he_core::ca::encrypt;
use ca_he_core::grid::BitGrid;

#[test]
fn c_api_roundtrip_1d() {
    let key = cahe_keygen_1d(43, 36, 44, 0x0123_4567_89ab_cdef);
    for &size in &[1u32, 7, 32, 63, 64] {
        let mask = if size == 64 { u64::MAX } else { (1u64 << size) - 1 };
        let pt = 0xfedc_ba98_7654_3210u64;
        let ct = cahe_encrypt_1d(key, pt, size);
        assert_eq!(cahe_decrypt_1d(key, ct, size), pt & mask);
        assert_eq!(ct.c0 & !mask, 0);
        assert_eq!(ct.c1 & !mask, 0);
    }
}

#[test]
fn c_api_encrypt_matches_grid_encrypt() {
    let key = cahe_keygen_1d(30, 0, 5, 0b1011);
    let ct = cahe_encrypt_1d(key, 0b0110, 4);
    let (c0, c1) = encrypt(&BitGrid::from_u64(0b0110, 4), &BitGrid::from_u64(0b1011, 4), 30, 5);
    assert_eq!((ct.c0, ct.c1), (c0.to_u64(), c1.to_u64()));
}

#[test]
fn c_api_rejects_bad_sizes() {
    let key = cahe_keygen_1d(1, 2, 3, 4);
    let ct = cahe_encrypt_1d(key, 5, 0);
    assert_eq!((ct.c0, ct.c1), (0, 0));
    let ct = cahe_encrypt_1d(key, 5, 65);
    assert_eq!((ct.c0, ct.c1), (0, 0));
    assert_eq!(cahe_decrypt_1d(key, CaheCiphertext1D { c0: 1, c1: 1 }, 65), 0);
    let add = cahe_eval_add_1d(key, CaheCiphertext1D { c0: 1, c1: 1 }, CaheCiphertext1D { c0: 1, c1: 1 }, 0);
    assert_eq!((add.c0, add.c1), (0, 0));
    assert_eq!(cahe_encode_repetition_1d(5, 0, 8), 0);
    assert_eq!(cahe_encode_repetition_1d(5, 9, 8), 0);
    assert_eq!(cahe_decode_repetition_1d(5, 2, 65), 0);
}

#[test]
fn c_api_eval_add_with_additive_rules() {
    // With zero steps, encryption xors the IV in and the evaluation is the
    // xor of the ciphertexts, so the sum decrypts to the xor of the plaintexts.
    let key = cahe_keygen_1d(150, 150, 0, 0);
    let a = cahe_encrypt_1d(key, 0b1100, 8);
    let b = cahe_encrypt_1d(key, 0b1010, 8);
    // With zero steps the evaluation is the xor of the ciphertexts.
    let sum = cahe_eval_add_1d(key, a, b, 8);
    assert_eq!(cahe_decrypt_1d(key, sum, 8), 0b0110);
}

#[test]
fn c_api_repetition() {
    let enc = cahe_encode_repetition_1d(0b1011, 4, 16);
    assert_eq!(enc, 0b1111_0000_1111_1111);
    assert_eq!(cahe_decode_repetition_1d(enc, 4, 16), 0b1011);
    // Flip one cell per block: still decodes.
    let noisy = enc ^ 0b0001_0010_0100_1000;
    assert_eq!(cahe_decode_repetition_1d(noisy, 4, 16), 0b1011);
}

#[test]
fn c_api_roundtrip_2d() {
    let key = cahe_keygen_2d(0xdead_beef, 7, 12, 0x0f0f_3c3c_aaaa_5555);
    for &(h, w) in &[(8u32, 8u32), (4, 16), (1, 64), (3, 5), (64, 1)] {
        let n = h * w;
        let mask = if n == 64 { u64::MAX } else { (1u64 << n) - 1 };
        let pt = 0x1357_9bdf_2468_ace0u64;
        let ct = cahe_encrypt_2d(key, pt, h, w);
        assert_eq!(cahe_decrypt_2d(key, ct, h, w), pt & mask);
    }
    let ct = cahe_encrypt_2d(key, 1, 9, 8);
    assert_eq!((ct.c0, ct.c1), (0, 0));
    let ct = cahe_encrypt_2d(key, 1, 0, 8);
    assert_eq!((ct.c0, ct.c1), (0, 0));
    assert_eq!(cahe_decrypt_2d(key, ct, u32::MAX, u32::MAX), 0);
    let e = cahe_eval_add_2d(key, ct, ct, 65, 1);
    assert_eq!((e.c0, e.c1), (0, 0));
}

#[test]
fn c_api_eval_add_2d_zero_steps_is_xor() {
    let key = cahe_keygen_2d(1, 2, 0, 0);
    let a = cahe_encrypt_2d(key, 0b1100, 2, 2);
    let b = cahe_encrypt_2d(key, 0b1010, 2, 2);
    let s = cahe_eval_add_2d(key, a, b, 2, 2);
    assert_eq!((s.c0, s.c1), (a.c0 ^ b.c0, a.c1 ^ b.c1));
}

#[test]
fn grid2d_packing_round_trip() {
    let g = u64_to_grid2d(0b10_0110, 2, 3);
    assert!(!g.get_cell(0, 0) && g.get_cell(0, 1) && g.get_cell(0, 2));
    assert!(!g.get_cell(1, 0) && !g.get_cell(1, 1) && g.get_cell(1, 2));
    assert_eq!(grid2d_to_u64(&g), 0b10_0110);
    // Cells past bit 63 stay clear and are not read back.
    let big = u64_to_grid2d(u64::MAX, 9, 8);
    assert!(big.get_cell(7, 7) && !big.get_cell(8, 0));
    assert_eq!(grid2d_to_u64(&big), u64::MAX);
}

#[test]
fn bootstrap_is_identity() {
    let k1 = cahe_keygen_1d(1, 2, 3, 4);
    let c = cahe_bootstrap_1d(k1, CaheCiphertext1D { c0: 9, c1: 10 }, 8);
    assert_eq!((c.c0, c.c1), (9, 10));
    let k2 = cahe_keygen_2d(1, 2, 3, 4);
    let c2 = cahe_bootstrap_2d(k2, ca_he_core::capi::CaheCiphertext2D { c0: 5, c1: 6 }, 2, 2);
    assert_eq!((c2.c0, c2.c1), (5, 6));
    let k3 = cahe_keygen_3d(1, 2, 3, 4);
    assert_eq!((k3.rule_lut0, k3.rule_lut1, k3.steps, k3.iv), (1, 2, 3, 4));
    let c3 = cahe_bootstrap_3d(k3, ca_he_core::capi::CaheCiphertext3D { c0: 7, c1: 8 }, 1, 1, 1);
    assert_eq!((c3.c0, c3.c1), (7, 8));
}

#[test]
fn c_api_xor_of_ciphertexts_decrypts_to_xor() {
    for &rule in &[90u8, 150, 60, 102] {
        let key = cahe_keygen_1d(rule, 0, 24, 0x0f0f_1234_5678_9abc);
        let (a, b) = (0x1234_5678_9abc_def0u64, 0x0fed_cba9_8765_4321u64);
        for &size in &[8u32, 33, 64] {
            let ca = cahe_encrypt_1d(key, a, size);
            let cb = cahe_encrypt_1d(key, b, size);
            let sum = CaheCiphertext1D { c0: ca.c0 ^ cb.c0, c1: ca.c1 ^ cb.c1 };
            let mask = if size == 64 { u64::MAX } else { (1u64 << size) - 1 };
            assert_eq!(cahe_decrypt_1d(key, sum, size), (a ^ b ^ key.iv) & mask);
        }
    }
}

#[test]
fn c_api_xor_of_ciphertexts_decrypts_to_xor_2d() {
    // Parity of all five neighbours, and up ^ right: both additive.
    for &rule in &[0x9669_6996u32, 0x3333_cccc] {
        let key = cahe_keygen_2d(rule, 0, 10, 0x0f0f_3c3c_aaaa_5555);
        let (a, b) = (0x1357_9bdf_2468_ace0u64, 0xffff_0000_1234_8765u64);
        for &(h, w) in &[(8u32, 8u32), (3, 5), (2, 32)] {
            let n = h * w;
            let mask = if n == 64 { u64::MAX } else { (1u64 << n) - 1 };
            let ca = cahe_encrypt_2d(key, a, h, w);
            let cb = cahe_encrypt_2d(key, b, h, w);
            let sum = CaheCiphertext2D { c0: ca.c0 ^ cb.c0, c1: ca.c1 ^ cb.c1 };
            assert_eq!(cahe_decrypt_2d(key, sum, h, w), (a ^ b ^ key.iv) & mask);
        }
    }
}
