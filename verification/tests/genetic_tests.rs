use ca_he_core::genetic::{crossover_genes, mutate_genes};

#[test]
fn crossover_mixes_by_mask_and_clamps_steps() {
    let c = crossover_genes(0b1111_0000, 0xff, 20, 0b0000_1111, 0x00, 30, 0b1010_1010, 0x0f, 2);
    assert_eq!(c, (0b1010_0101, 0x0f, 27));
    let c = crossover_genes(30, 90, 4, 110, 150, 4, 0, u32::MAX, -2);
    assert_eq!(c, (110, 90, 4));
    let c = crossover_genes(1, 2, 128, 3, 4, 128, u32::MAX, 0, 2);
    assert_eq!(c, (1, 4, 128));
}

#[test]
fn mutation_flips_moves_and_swaps() {
    // Flip bit 0 of 0b0110 (-> 0b0111), then swap bits 0 and 3 (-> 0b1110).
    let m = mutate_genes(0b0110, 0xf0, 10, Some(0), Some(4), Some(-4), Some((0, 3)));
    assert_eq!(m, (0b1110, 0xe0, 6));
    // Swapping two equal bits changes nothing; steps stay within 4..=128.
    let m = mutate_genes(0b1001, 7, 126, None, None, Some(4), Some((0, 3)));
    assert_eq!(m, (0b1001, 7, 128));
    let m = mutate_genes(0b1001, 7, 5, None, None, Some(-4), None);
    assert_eq!(m, (0b1001, 7, 4));
    let m = mutate_genes(0x8000_0000, 1, 50, None, Some(31), None, Some((31, 0)));
    assert_eq!(m, (1, 0x8000_0001, 50));
}

#[test]
fn swap_keeps_the_number_of_set_entries() {
    for x in [0u32, 0b1011, 0xdead_beef, 30, 110] {
        for b1 in 0..32u32 {
            for b2 in [0u32, 7, 31] {
                let (y, _, _) = mutate_genes(x, 0, 8, None, None, None, Some((b1, b2)));
                assert_eq!(y.count_ones(), x.count_ones());
            }
        }
    }
}
