use ca_he_core::grid::BitGrid;
use ca_he_core::grid2d::BitGrid2D;

#[test]
fn test_shifts_single_word() {
    let size = 8;
    // 00001011 = 11
    let grid = BitGrid::from_u64(11, size);

    // Shift left: bit i gets bit i-1.
    // 00001011 shifted left becomes 00010110 = 22
    let l = grid.shift_left();
    assert_eq!(l.to_u64(), 22);

    // Shift right: bit i gets bit i+1.
    // 00001011 shifted right becomes 10000101 = 133
    // (bit 0 wrap-arounds to bit 7)
    let r = grid.shift_right();
    assert_eq!(r.to_u64(), 133);
}

#[test]
fn test_shifts_multi_word() {
    let size = 128; // Exactly 2 words
    let mut grid = BitGrid::new(size);
    grid.set_bit(0, true);
    grid.set_bit(63, true);
    grid.set_bit(64, true);

    // Shift left:
    // Bit 0 moves to 1
    // Bit 63 moves to 64
    // Bit 64 moves to 65
    // Bit 127 (0) wrap-arounds to 0
    let l = grid.shift_left();
    assert!(l.get_bit(1));
    assert!(l.get_bit(64));
    assert!(l.get_bit(65));
    assert!(!l.get_bit(0));

    // Shift right:
    // Bit 0 moves to 127
    // Bit 63 moves to 62
    // Bit 64 moves to 63
    let r = grid.shift_right();
    assert!(r.get_bit(127));
    assert!(r.get_bit(62));
    assert!(r.get_bit(63));
}

#[test]
fn new_grid_is_clear_and_sized() {
    let g = BitGrid::new(130);
    assert_eq!(g.cells.len(), 3);
    assert_eq!(g.size, 130);
    assert!(g.cells.iter().all(|&w| w == 0));
    let empty = BitGrid::new(0);
    assert_eq!(empty.cells.len(), 0);
}

#[test]
fn from_u64_masks_high_bits() {
    let g = BitGrid::from_u64(u64::MAX, 5);
    assert_eq!(g.cells, vec![0b11111]);
    assert_eq!(g.to_u64(), 31);
    let full = BitGrid::from_u64(0xdead_beef_0000_0001, 64);
    assert_eq!(full.to_u64(), 0xdead_beef_0000_0001);
    let none = BitGrid::from_u64(7, 0);
    assert_eq!(none.cells, vec![0]);
}

#[test]
fn bits_round_trip() {
    let bits: Vec<u8> = vec![1, 0, 0, 2, 1, 0, 1, 1, 0, 0, 5];
    let g = BitGrid::from_bits(&bits);
    assert_eq!(g.size, 11);
    assert_eq!(g.to_bits(), vec![1, 0, 0, 1, 1, 0, 1, 1, 0, 0, 1]);
    assert_eq!(g.to_u64(), 0b100_1101_1001);
}

#[test]
fn set_and_clear_bits() {
    let mut g = BitGrid::new(70);
    g.set_bit(69, true);
    g.set_bit(3, true);
    assert!(g.get_bit(69) && g.get_bit(3));
    assert_eq!(g.cells, vec![8, 32]);
    g.set_bit(69, false);
    assert!(!g.get_bit(69));
    assert_eq!(g.cells, vec![8, 0]);
}

#[test]
fn shifts_wrap_on_partial_last_word() {
    // 70 cells: cell 69 is bit 5 of the second word.
    let mut g = BitGrid::new(70);
    g.set_bit(69, true);
    g.set_bit(0, true);
    let l = g.shift_left();
    assert!(l.get_bit(0) && l.get_bit(1));
    assert_eq!(l.cells, vec![3, 0]);
    let r = g.shift_right();
    assert!(r.get_bit(68) && r.get_bit(69));
    assert_eq!(r.cells, vec![0, 0b11_0000]);
    // Shifting left then right gives the grid back.
    assert_eq!(l.shift_right(), g);
}

#[test]
fn xor_of_grids() {
    let a = BitGrid::from_u64(0b1100, 4);
    let b = BitGrid::from_u64(0b1010, 4);
    assert_eq!((&a ^ &b).to_u64(), 0b0110);
    assert_eq!(a.xor(&b).to_u64(), 0b0110);
    assert_eq!((a.clone() ^ b.clone()).to_u64(), 0b0110);
}

#[test]
fn same_cells_compares_every_word() {
    let mut a = BitGrid::new(130);
    let mut b = BitGrid::new(130);
    assert!(a.same_cells(&b));
    a.set_bit(129, true);
    assert!(!a.same_cells(&b));
    b.set_bit(129, true);
    assert!(a.same_cells(&b));
    b.set_bit(0, true);
    assert!(!a.same_cells(&b));
}

#[test]
fn same_cells_2d_compares_every_row() {
    let mut a = BitGrid2D::new(3, 70);
    let b = BitGrid2D::new(3, 70);
    assert!(a.same_cells(&b));
    a.set_cell(2, 69, true);
    assert!(!a.same_cells(&b));
}

#[test]
fn empty_grids_hold_no_words() {
    let g = BitGrid::from_bits(&[]);
    assert_eq!(g, BitGrid::new(0));
    assert!(g.cells.is_empty());
    let g2 = BitGrid2D::new(3, 0);
    assert!(g2.rows.iter().all(|r| r.cells.is_empty() && r.size == 0));
    let g = BitGrid::from_bits(&[1, 0, 1]);
    assert_eq!(BitGrid::from_bits(&g.to_bits()), g);
}
