//! One-dimensional binary grids, packed 64 cells to a word, on a ring.
use vstd::prelude::*;
use crate::bits::{
    bit, low_mask, lemma_low_mask_bit, lemma_below_pow_bit, lemma_extract_bit, lemma_set_clear_bit,
    lemma_logic_bits, lemma_shl1_or_bit, lemma_shr1_or_bit,
};

verus! {

/// Cell `i` of a packed word sequence: bit `i % 64` of word `i / 64`.
pub open spec fn cell_of(cells: Seq<u64>, i: int) -> bool {
    bit(cells[i / 64], (i % 64) as u64)
}

/// The number of words that hold `size` cells.
pub open spec fn words_for(size: nat) -> nat {
    ((size + 63) / 64) as nat
}

/// The last word of a grid of `size` cells holds no cell at or past `size`.
pub open spec fn last_word_ok(w: u64, size: nat) -> bool {
    size % 64 == 0 || w < (1u64 << ((size % 64) as u64))
}

/// The word `val` with only its low `size` bits kept (`size <= 64`).
pub open spec fn keep_low(val: u64, size: nat) -> u64 {
    if size >= 64 {
        val
    } else {
        val & low_mask(size as u64)
    }
}

/// The ring of cells seen one step to the left: cell `i` gets cell `i - 1`.
pub open spec fn shifted_left(s: Seq<bool>) -> Seq<bool> {
    Seq::new(s.len(), |i: int| s[(i + s.len() - 1) % (s.len() as int)])
}

/// The ring of cells seen one step to the right: cell `i` gets cell `i + 1`.
pub open spec fn shifted_right(s: Seq<bool>) -> Seq<bool> {
    Seq::new(s.len(), |i: int| s[(i + 1) % (s.len() as int)])
}

/// Cell-wise exclusive or of two rings of cells of one length.
pub open spec fn xor_cells(a: Seq<bool>, b: Seq<bool>) -> Seq<bool> {
    Seq::new(a.len(), |i: int| a[i] != b[i])
}

/// A binary grid of `size` cells; cell `i` is bit `i % 64` of `cells[i / 64]`.
#[derive(Debug, PartialEq, Eq)]
pub struct BitGrid {
    pub cells: Vec<u64>,
    pub size: usize,
}

impl View for BitGrid {
    type V = Seq<bool>;

    open spec fn view(&self) -> Seq<bool> {
        Seq::new(self.size as nat, |i: int| cell_of(self.cells@, i))
    }
}

impl Clone for BitGrid {
    fn clone(&self) -> (r: Self)
        ensures
            r.cells@ == self.cells@,
            r.size == self.size,
    {
        let cells = self.cells.clone();
        assert(cells@ =~= self.cells@);
        BitGrid { cells, size: self.size }
    }
}

/// Word `j` of a grid shifted left, before the last word is masked.
pub open spec fn shl_word(cells: Seq<u64>, size: nat, j: int) -> u64 {
    let carry = if j == 0 {
        (cells[cells.len() - 1] >> (((size - 1) % 64) as u64)) & 1u64
    } else {
        cells[j - 1] >> 63u64
    };
    (cells[j] << 1u64) | carry
}

/// Word `j` of a grid shifted right, before the last word is masked.
pub open spec fn shr_word(cells: Seq<u64>, size: nat, j: int) -> u64 {
    if j == cells.len() - 1 {
        (cells[j] >> 1u64) | ((cells[0] & 1u64) << (((size - 1) % 64) as u64))
    } else {
        (cells[j] >> 1u64) | ((cells[j + 1] & 1u64) << 63u64)
    }
}

/// The mask that keeps the cells of the last word of a grid of `size` cells.
pub open spec fn last_mask(size: nat) -> u64 {
    if size % 64 == 0 {
        u64::MAX
    } else {
        low_mask((size % 64) as u64)
    }
}

/// The neighbours of cell `i` on a ring of `n` cells.
pub proof fn lemma_ring_index(i: int, n: int)
    requires
        0 <= i < n,
    ensures
        (i + n - 1) % n == if i == 0 {
            n - 1
        } else {
            i - 1
        },
        (i + 1) % n == if i == n - 1 {
            0
        } else {
            i + 1
        },
        i % n == i,
{
    vstd::arithmetic::div_mod::lemma_small_mod(i as nat, n as nat);
    if i == 0 {
        vstd::arithmetic::div_mod::lemma_small_mod((n - 1) as nat, n as nat);
    } else {
        vstd::arithmetic::div_mod::lemma_mod_add_multiples_vanish(i - 1, n);
        vstd::arithmetic::div_mod::lemma_small_mod((i - 1) as nat, n as nat);
    }
    if i == n - 1 {
        vstd::arithmetic::div_mod::lemma_mod_self_0(n);
    } else {
        vstd::arithmetic::div_mod::lemma_small_mod((i + 1) as nat, n as nat);
    }
}

/// Facts about where cell `i` of a grid of `n` cells lies.
pub proof fn lemma_cell_position(i: int, n: nat)
    requires
        0 <= i < n,
    ensures
        0 <= i / 64 < words_for(n),
        0 <= i % 64 < 64,
        i == 64 * (i / 64) + i % 64,
        i / 64 == words_for(n) - 1 && n % 64 != 0 ==> i % 64 < n % 64,
        i / 64 < words_for(n) - 1 ==> i + 64 < n + 64 - (n % 64) || n % 64 == 0,
        (n - 1) / 64 == words_for(n) - 1,
        n % 64 == 0 ==> (n - 1) % 64 == 63,
        n % 64 != 0 ==> (n - 1) % 64 == n % 64 - 1,
{
}

impl BitGrid {
    /// Well-formedness: the grid has exactly the words its cells need, and no
    /// bit is set past its last cell. (A grid of no cells may keep one zero word.)
    pub open spec fn wf(&self) -> bool {
        if self.size == 0 {
            self.cells.len() <= 1 && (self.cells.len() == 1 ==> self.cells@[0] == 0)
        } else {
            &&& self.cells.len() == words_for(self.size as nat)
            &&& last_word_ok(self.cells@.last(), self.size as nat)
        }
    }

    /// Create a new BitGrid of a given size initialized to zero.
    pub fn new(size: usize) -> (r: Self)
        requires
            size + 63 <= usize::MAX,
        ensures
            r.wf(),
            r.size == size,
            r.cells@ == Seq::new(words_for(size as nat), |i: int| 0u64),
            r@ == Seq::new(size as nat, |i: int| false),
    {
        let num_words = (size + 63) / 64;
        let cells = vec![0u64; num_words];
        let r = BitGrid { cells, size };
        assert(r.cells@ =~= Seq::new(words_for(size as nat), |i: int| 0u64));
        assert forall|i: int| 0 <= i < size implies !cell_of(r.cells@, i) by {
            lemma_cell_position(i, size as nat);
            lemma_logic_bits(0, 0, (i % 64) as u64);
        }
        assert(r@ =~= Seq::new(size as nat, |i: int| false));
        proof {
            if size > 0 {
                crate::bits::lemma_word_facts(0, 0, (size % 64) as u64, 0);
            }
        }
        r
    }

    /// Create a BitGrid from a u64 value (for sizes <= 64).
    pub fn from_u64(val: u64, size: usize) -> (r: Self)
        requires
            size <= 64,
        ensures
            r.wf(),
            r.size == size,
            r.cells@ == seq![keep_low(val, size as nat)],
            r@ == Seq::new(size as nat, |i: int| bit(val, i as u64)),
    {
        let mask = if size == 64 {
            u64::MAX
        } else {
            proof { crate::bits::lemma_word_facts(0, 0, size as u64, 0); }
            (1u64 << (size as u64)) - 1
        };
        let word = val & mask;
        proof {
            if size == 64 {
                crate::bits::lemma_word_facts(val, 0, 0, 0);
            } else if size == 0 {
                crate::bits::lemma_word_facts(val, 0, 0, 0);
            }
        }
        let r = BitGrid { cells: vec![word], size };
        assert forall|i: int| 0 <= i < size implies cell_of(r.cells@, i) == bit(val, i as u64) by {
            if size < 64 {
                lemma_low_mask_bit(val, size as u64, i as u64);
            }
        }
        assert(r@ =~= Seq::new(size as nat, |i: int| bit(val, i as u64)));
        proof {
            if 0 < size < 64 {
                lemma_low_mask_bit(val, size as u64, 0);
            }
        }
        r
    }

    /// Convert a BitGrid to a u64 (for sizes <= 64).
    pub fn to_u64(&self) -> (r: u64)
        requires
            self.size <= 64,
            self.cells.len() >= 1,
        ensures
            r == self.cells@[0],
            self.wf() ==> forall|b: u64| b < 64 ==> #[trigger] bit(r, b) == (b < self.size
                && self@[b as int]),
    {
        let r = self.cells[0];
        proof {
            if self.wf() {
                assert forall|b: u64| b < 64 implies #[trigger] bit(r, b) == (b < self.size
                    && self@[b as int]) by {
                    if self.size == 0 {
                        lemma_logic_bits(0, 0, b);
                    } else if b >= self.size && self.size < 64 {
                        lemma_below_pow_bit(r, self.size as u64, b);
                    }
                }
            }
        }
        r
    }

    /// Get the bit at a specific index.
    pub fn get_bit(&self, idx: usize) -> (r: bool)
        requires
            idx < self.size,
            idx / 64 < self.cells.len(),
        ensures
            r == cell_of(self.cells@, idx as int),
            r == self@[idx as int],
    {
        let word = idx / 64;
        let b = (idx % 64) as u64;
        proof {
            lemma_extract_bit(self.cells@[word as int], b);
        }
        ((self.cells[word] >> b) & 1) != 0
    }

    /// Set the bit at a specific index.
    pub fn set_bit(&mut self, idx: usize, val: bool)
        requires
            idx < old(self).size,
            idx / 64 < old(self).cells.len(),
        ensures
            final(self).size == old(self).size,
            final(self).cells.len() == old(self).cells.len(),
            forall|i: int|
                0 <= i < 64 * old(self).cells.len() ==> #[trigger] cell_of(final(self).cells@, i)
                    == if i == idx {
                    val
                } else {
                    cell_of(old(self).cells@, i)
                },
            old(self).wf() ==> final(self).wf(),
            old(self).wf() ==> final(self)@ == old(self)@.update(idx as int, val),
    {
        let word = idx / 64;
        let b = (idx % 64) as u64;
        let old_w = self.cells[word];
        let new_w = if val {
            old_w | (1u64 << b)
        } else {
            old_w & !(1u64 << b)
        };
        self.cells.set(word, new_w);
        proof {
            assert forall|i: int| 0 <= i < 64 * old(self).cells.len() implies #[trigger] cell_of(
                self.cells@,
                i,
            ) == if i == idx {
                val
            } else {
                cell_of(old(self).cells@, i)
            } by {
                if i / 64 == word {
                    lemma_set_clear_bit(old_w, b, (i % 64) as u64);
                }
            }
            if old(self).wf() {
                assert forall|i: int| 0 <= i < self.size implies #[trigger] self@[i] == old(
                    self,
                )@.update(idx as int, val)[i] by {
                    lemma_cell_position(i, self.size as nat);
                    assert(i < 64 * old(self).cells.len());
                    assert(cell_of(self.cells@, i) == if i == idx {
                        val
                    } else {
                        cell_of(old(self).cells@, i)
                    });
                }
                assert(self@ =~= old(self)@.update(idx as int, val));
            }
            if old(self).wf() && old(self).size > 0 && word == self.cells.len() - 1 {
                let n = self.size as nat;
                lemma_cell_position(idx as int, n);
                if n % 64 != 0 {
                    let k = (n % 64) as u64;
                    assert(old_w < (1u64 << k));
                    assert(new_w < (1u64 << k)) by {
                        if val {
                            crate::bits::lemma_word_facts(old_w, 0, k, b);
                        } else {
                            crate::bits::lemma_word_facts(old_w, 0, k, b);
                        }
                    }
                }
            }
        }
    }

    /// Create a BitGrid from a slice of bits.
    pub fn from_bits(bits: &[u8]) -> (r: Self)
        requires
            bits@.len() + 63 <= usize::MAX,
        ensures
            r.wf(),
            r.size == bits@.len(),
            r.cells.len() == words_for(bits@.len()),
            r@ == Seq::new(bits@.len(), |i: int| bits@[i] != 0),
    {
        let size = bits.len();
        let mut grid = Self::new(size);
        for i in 0..size
            invariant
                size == bits@.len(),
                grid.wf(),
                grid.cells.len() == words_for(size as nat),
                grid.size == size,
                grid@ == Seq::new(size as nat, |j: int| j < i && bits@[j] != 0),
        {
            if bits[i] != 0 {
                proof {
                    lemma_cell_position(i as int, size as nat);
                }
                grid.set_bit(i, true);
            }
            assert(grid@ =~= Seq::new(size as nat, |j: int| j < i + 1 && bits@[j] != 0));
        }
        assert(grid@ =~= Seq::new(bits@.len(), |i: int| bits@[i] != 0));
        grid
    }

    /// Convert a BitGrid to a vector of bits.
    pub fn to_bits(&self) -> (r: Vec<u8>)
        requires
            self.wf(),
        ensures
            r@ == Seq::new(self.size as nat, |i: int| if self@[i] { 1u8 } else { 0u8 }),
    {
        let mut bits = vec![0u8; self.size];
        for i in 0..self.size
            invariant
                self.wf(),
                bits@ == Seq::new(
                    self.size as nat,
                    |j: int| if j < i && self@[j] { 1u8 } else { 0u8 },
                ),
        {
            proof {
                lemma_cell_position(i as int, self.size as nat);
            }
            if self.get_bit(i) {
                bits.set(i, 1);
            }
            assert(bits@ =~= Seq::new(
                self.size as nat,
                |j: int| if j < i + 1 && self@[j] { 1u8 } else { 0u8 },
            ));
        }
        assert(bits@ =~= Seq::new(self.size as nat, |i: int| if self@[i] { 1u8 } else { 0u8 }));
        bits
    }

    /// Cell-wise exclusive or of two grids of the same size.
    pub fn xor(&self, rhs: &BitGrid) -> (r: BitGrid)
        requires
            self.size == rhs.size,
        ensures
            r.size == self.size,
            r.cells.len() == if self.cells.len() <= rhs.cells.len() {
                self.cells.len()
            } else {
                rhs.cells.len()
            },
            forall|j: int| 0 <= j < r.cells.len() ==> #[trigger] r.cells@[j] == self.cells@[j] ^ rhs.cells@[j],
            self.wf() && rhs.wf() ==> r.wf() && r@ == xor_cells(self@, rhs@),
    {
        let n = if self.cells.len() <= rhs.cells.len() {
            self.cells.len()
        } else {
            rhs.cells.len()
        };
        let mut cells: Vec<u64> = Vec::new();
        for j in 0..n
            invariant
                n <= self.cells.len(),
                n <= rhs.cells.len(),
                cells.len() == j,
                forall|i: int| 0 <= i < j ==> #[trigger] cells@[i] == self.cells@[i] ^ rhs.cells@[i],
        {
            cells.push(self.cells[j] ^ rhs.cells[j]);
        }
        let r = BitGrid { cells, size: self.size };
        proof {
            if self.wf() && rhs.wf() {
                lemma_xor_view(*self, *rhs, r);
            }
        }
        r
    }

    /// Compute the mask of the last word of a grid of `size` cells.
    pub fn last_word_mask(size: usize) -> (m: u64)
        ensures
            m == last_mask(size as nat),
    {
        if size % 64 == 0 {
            u64::MAX
        } else {
            let k = (size % 64) as u64;
            proof { crate::bits::lemma_word_facts(0, 0, k, 0); }
            (1u64 << k) - 1
        }
    }

    /// Shift the grid left by 1 cell (periodic boundary conditions).
    /// bit[i] gets bit[i-1].
    pub fn shift_left(&self) -> (r: Self)
        requires
            self.wf(),
            self.size > 0,
        ensures
            r.wf(),
            r.size == self.size,
            r@ == shifted_left(self@),
    {
        let k = self.cells.len();
        let mut result: Vec<u64> = vec![0u64; k];
        for w in 0..k
            invariant
                k == self.cells.len(),
                result.len() == k,
                self.wf(),
                self.size > 0,
                forall|j: int| 0 <= j < w ==> result@[j] == shl_word(self.cells@, self.size as nat, j),
        {
            let prev_word = if w == 0 {
                k - 1
            } else {
                w - 1
            };
            let carry = if w == 0 {
                let last_active_bit_idx = ((self.size - 1) % 64) as u64;
                (self.cells[prev_word] >> last_active_bit_idx) & 1
            } else {
                self.cells[prev_word] >> 63
            };
            result.set(w, (self.cells[w] << 1) | carry);
        }
        let mask = Self::last_word_mask(self.size);
        let last = result[k - 1] & mask;
        result.set(k - 1, last);
        let r = BitGrid { cells: result, size: self.size };
        proof {
            lemma_shift_left_view(*self, r);
        }
        r
    }

    /// Shift the grid right by 1 cell (periodic boundary conditions).
    /// bit[i] gets bit[i+1].
    pub fn shift_right(&self) -> (r: Self)
        requires
            self.wf(),
            self.size > 0,
        ensures
            r.wf(),
            r.size == self.size,
            r@ == shifted_right(self@),
    {
        let k = self.cells.len();
        let mut result: Vec<u64> = vec![0u64; k];
        for w in 0..k
            invariant
                k == self.cells.len(),
                result.len() == k,
                self.wf(),
                self.size > 0,
                forall|j: int| 0 <= j < w ==> result@[j] == shr_word(self.cells@, self.size as nat, j),
        {
            let carry = if w == k - 1 {
                self.cells[0] & 1
            } else {
                self.cells[w + 1] & 1
            };
            if w == k - 1 {
                let last_active_bit_idx = ((self.size - 1) % 64) as u64;
                result.set(w, (self.cells[w] >> 1) | (carry << last_active_bit_idx));
            } else {
                result.set(w, (self.cells[w] >> 1) | (carry << 63));
            }
        }
        let mask = Self::last_word_mask(self.size);
        let last = result[k - 1] & mask;
        result.set(k - 1, last);
        let r = BitGrid { cells: result, size: self.size };
        proof {
            lemma_shift_right_view(*self, r);
        }
        r
    }

    /// Whether two well-formed grids of the same positive size hold the same
    /// cells (for such grids, whether they are equal).
    pub fn same_cells(&self, other: &BitGrid) -> (r: bool)
        requires
            self.wf(),
            other.wf(),
            self.size == other.size,
            self.size > 0,
        ensures
            r == (self@ == other@),
    {
        let n = self.cells.len();
        let mut j: usize = 0;
        while j < n
            invariant
                n == self.cells.len(),
                n == other.cells.len(),
                j <= n,
                self.wf(),
                other.wf(),
                self.size == other.size,
                self.size > 0,
                forall|i: int| 0 <= i < j ==> self.cells@[i] == other.cells@[i],
            decreases n - j,
        {
            if self.cells[j] != other.cells[j] {
                proof {
                    lemma_words_differ(*self, *other, j as int);
                }
                return false;
            }
            j += 1;
        }
        proof {
            assert(self.cells@ =~= other.cells@);
            assert(self@ =~= other@);
        }
        true
    }
}

/// Two well-formed grids of one size with the same cells and the same number
/// of words have the same words (for such grids, they are equal). Grids of at
/// least one cell always have the same number of words.
pub proof fn lemma_same_cells_same_words(a: BitGrid, b: BitGrid)
    requires
        a.wf(),
        b.wf(),
        a.size == b.size,
        a@ == b@,
        a.size > 0 || a.cells.len() == b.cells.len(),
    ensures
        a.cells@ == b.cells@,
{
    if a.size > 0 {
        assert forall|j: int| 0 <= j < a.cells.len() implies a.cells@[j] == b.cells@[j] by {
            if a.cells@[j] != b.cells@[j] {
                lemma_words_differ(a, b, j);
            }
        }
    }
    assert(a.cells@ =~= b.cells@);
}

/// Two well-formed grids of one positive size whose words differ at `j`
/// differ in a cell.
proof fn lemma_words_differ(a: BitGrid, b: BitGrid, j: int)
    requires
        a.wf(),
        b.wf(),
        a.size == b.size,
        a.size > 0,
        0 <= j < a.cells.len(),
        a.cells@[j] != b.cells@[j],
    ensures
        a@ != b@,
{
    let x = a.cells@[j];
    let y = b.cells@[j];
    if forall|k: u64| k < 64 ==> #[trigger] bit(x, k) == bit(y, k) {
        crate::bits::lemma_bits_equal(x, y);
    }
    let k = choose|k: u64| k < 64 && bit(x, k) != bit(y, k);
    let n = a.size as nat;
    let i = 64 * j + k;
    assert(i / 64 == j && i % 64 == k as int);
    if i < n {
        assert(a@[i] != b@[i]);
    } else {
        assert(j == words_for(n) - 1);
        assert(n % 64 != 0 && k >= n % 64);
        lemma_below_pow_bit(x, (n % 64) as u64, k);
        lemma_below_pow_bit(y, (n % 64) as u64, k);
    }
}

/// Bit `b` of a word masked by `last_mask(n)`, for a cell of the last word.
pub proof fn lemma_last_mask_bit(x: u64, n: nat, b: u64)
    requires
        b < 64,
    ensures
        bit(x & last_mask(n), b) == ((n % 64 == 0 || b < n % 64) && bit(x, b)),
        last_word_ok(x & last_mask(n), n),
{
    if n % 64 == 0 {
        crate::bits::lemma_word_facts(x, 0, 0, 0);
    } else {
        lemma_low_mask_bit(x, (n % 64) as u64, b);
    }
}

/// Bit `i % 64` of word `i / 64` of the left-shifted words is the left
/// neighbour of cell `i` on the ring.
pub proof fn lemma_shl_word_bit(g: BitGrid, i: int)
    requires
        g.wf(),
        g.size > 0,
        0 <= i < g.size,
    ensures
        bit(shl_word(g.cells@, g.size as nat, i / 64), (i % 64) as u64) == g@[(i + g.size - 1) % (
        g.size as int)],
{
    let n = g.size as nat;
    let k = g.cells.len() as int;
    lemma_cell_position(i, n);
    lemma_ring_index(i, n as int);
    let w = i / 64;
    let b = (i % 64) as u64;
    let carry = if w == 0 {
        (g.cells@[k - 1] >> (((n - 1) % 64) as u64)) & 1u64
    } else {
        g.cells@[w - 1] >> 63u64
    };
    lemma_extract_bit(g.cells@[k - 1], ((n - 1) % 64) as u64);
    if w > 0 {
        lemma_extract_bit(g.cells@[w - 1], 0);
    }
    lemma_shl1_or_bit(g.cells@[w], carry, b);
    if i == 0 {
        lemma_cell_position(n - 1, n);
    } else {
        lemma_cell_position(i - 1, n);
    }
}

/// Bit `i % 64` of word `i / 64` of the right-shifted words is the right
/// neighbour of cell `i` on the ring.
pub proof fn lemma_shr_word_bit(g: BitGrid, i: int)
    requires
        g.wf(),
        g.size > 0,
        0 <= i < g.size,
    ensures
        bit(shr_word(g.cells@, g.size as nat, i / 64), (i % 64) as u64) == g@[(i + 1) % (
        g.size as int)],
{
    let n = g.size as nat;
    let k = g.cells.len() as int;
    lemma_cell_position(i, n);
    lemma_ring_index(i, n as int);
    let w = i / 64;
    let b = (i % 64) as u64;
    lemma_extract_bit(g.cells@[0], 0);
    if w < k - 1 {
        lemma_extract_bit(g.cells@[w + 1], 0);
        lemma_shr1_or_bit(g.cells@[w], g.cells@[w + 1] & 1u64, 63, b);
        lemma_cell_position(i + 1, n);
    } else {
        let last = ((n - 1) % 64) as u64;
        lemma_shr1_or_bit(g.cells@[w], g.cells@[0] & 1u64, last, b);
        if i == n - 1 {
            if n % 64 != 0 {
                lemma_below_pow_bit(g.cells@[w], (n % 64) as u64, (b + 1) as u64);
            }
        } else {
            lemma_cell_position(i + 1, n);
        }
    }
}

/// The words of a grid shifted left hold the cells of the ring shifted left.
pub proof fn lemma_shift_left_view(g: BitGrid, r: BitGrid)
    requires
        g.wf(),
        g.size > 0,
        r.size == g.size,
        r.cells.len() == g.cells.len(),
        forall|j: int|
            0 <= j < g.cells.len() - 1 ==> r.cells@[j] == shl_word(g.cells@, g.size as nat, j),
        r.cells@[g.cells.len() - 1] == shl_word(g.cells@, g.size as nat, g.cells.len() - 1)
            & last_mask(g.size as nat),
    ensures
        r.wf(),
        r@ == shifted_left(g@),
{
    let n = g.size as nat;
    let k = g.cells.len() as int;
    lemma_cell_position(0, n);
    lemma_last_mask_bit(shl_word(g.cells@, n, k - 1), n, 0);
    assert forall|i: int| 0 <= i < n implies #[trigger] cell_of(r.cells@, i) == g@[(i + n - 1) % (
    n as int)] by {
        lemma_cell_position(i, n);
        lemma_shl_word_bit(g, i);
        if i / 64 == k - 1 {
            lemma_last_mask_bit(shl_word(g.cells@, n, k - 1), n, (i % 64) as u64);
        }
    }
    assert(r@ =~= shifted_left(g@));
}

/// The words of a grid shifted right hold the cells of the ring shifted right.
pub proof fn lemma_shift_right_view(g: BitGrid, r: BitGrid)
    requires
        g.wf(),
        g.size > 0,
        r.size == g.size,
        r.cells.len() == g.cells.len(),
        forall|j: int|
            0 <= j < g.cells.len() - 1 ==> r.cells@[j] == shr_word(g.cells@, g.size as nat, j),
        r.cells@[g.cells.len() - 1] == shr_word(g.cells@, g.size as nat, g.cells.len() - 1)
            & last_mask(g.size as nat),
    ensures
        r.wf(),
        r@ == shifted_right(g@),
{
    let n = g.size as nat;
    let k = g.cells.len() as int;
    lemma_cell_position(0, n);
    lemma_last_mask_bit(shr_word(g.cells@, n, k - 1), n, 0);
    assert forall|i: int| 0 <= i < n implies #[trigger] cell_of(r.cells@, i) == g@[(i + 1) % (
    n as int)] by {
        lemma_cell_position(i, n);
        lemma_shr_word_bit(g, i);
        if i / 64 == k - 1 {
            lemma_last_mask_bit(shr_word(g.cells@, n, k - 1), n, (i % 64) as u64);
        }
    }
    assert(r@ =~= shifted_right(g@));
}

/// The exclusive or of two well-formed grids, word by word, is the cell-wise
/// exclusive or of their cells.
pub proof fn lemma_xor_view(a: BitGrid, b: BitGrid, r: BitGrid)
    requires
        a.wf(),
        b.wf(),
        a.size == b.size,
        r.size == a.size,
        r.cells.len() == if a.cells.len() <= b.cells.len() {
            a.cells.len()
        } else {
            b.cells.len()
        },
        forall|j: int| 0 <= j < r.cells.len() ==> #[trigger] r.cells@[j] == a.cells@[j] ^ b.cells@[j],
    ensures
        r.wf(),
        r@ == xor_cells(a@, b@),
{
    let n = a.size as nat;
    assert forall|i: int| 0 <= i < n implies #[trigger] cell_of(r.cells@, i) == (a@[i] != b@[i]) by {
        lemma_cell_position(i, n);
        lemma_logic_bits(a.cells@[i / 64], b.cells@[i / 64], (i % 64) as u64);
    }
    assert(r@ =~= xor_cells(a@, b@));
    if n == 0 {
        if r.cells.len() == 1 {
            assert(r.cells@[0] == a.cells@[0] ^ b.cells@[0]);
            crate::bits::lemma_word_facts(0, 0, 0, 0);
        }
    } else if n % 64 != 0 {
        let k = (n % 64) as u64;
        let x = a.cells@.last();
        let y = b.cells@.last();
        assert(r.cells@.last() == x ^ y);
        crate::bits::lemma_word_facts(x, y, k, 0);
    }
}

impl<'a, 'b> core::ops::BitXor<&'b BitGrid> for &'a BitGrid {
    type Output = BitGrid;

    fn bitxor(self, rhs: &'b BitGrid) -> (r: BitGrid)
        ensures
            r.size == self.size,
            self.wf() && rhs.wf() ==> r.wf() && r@ == xor_cells(self@, rhs@),
    {
        self.xor(rhs)
    }
}

impl<'a, 'b> vstd::std_specs::ops::BitXorSpecImpl<&'b BitGrid> for &'a BitGrid {
    open spec fn obeys_bitxor_spec() -> bool {
        false
    }

    open spec fn bitxor_req(self, rhs: &'b BitGrid) -> bool {
        self.size == rhs.size
    }

    open spec fn bitxor_spec(self, rhs: &'b BitGrid) -> BitGrid {
        arbitrary()
    }
}

impl core::ops::BitXor for BitGrid {
    type Output = BitGrid;

    fn bitxor(self, rhs: BitGrid) -> (r: BitGrid)
        ensures
            r.size == self.size,
            self.wf() && rhs.wf() ==> r.wf() && r@ == xor_cells(self@, rhs@),
    {
        self.xor(&rhs)
    }
}

impl vstd::std_specs::ops::BitXorSpecImpl for BitGrid {
    open spec fn obeys_bitxor_spec() -> bool {
        false
    }

    open spec fn bitxor_req(self, rhs: BitGrid) -> bool {
        self.size == rhs.size
    }

    open spec fn bitxor_spec(self, rhs: BitGrid) -> BitGrid {
        arbitrary()
    }
}

/// Bit `b` of word `w` of a well-formed grid is its cell `64 w + b`, clear
/// past the last cell.
pub proof fn lemma_word_bits(g: BitGrid, w: int, b: u64)
    requires
        g.wf(),
        g.size > 0,
        0 <= w < g.cells.len(),
        b < 64,
    ensures
        bit(g.cells@[w], b) == (64 * w + b < g.size && g@[64 * w + b]),
{
    let n = g.size as nat;
    let i = 64 * w + b;
    assert(i / 64 == w && i % 64 == b as int);
    if i >= n {
        assert(w == words_for(n) - 1);
        assert(n % 64 != 0 && b >= n % 64);
        lemma_below_pow_bit(g.cells@[w], (n % 64) as u64, b);
    }
}

/// Past the last cell, the last word of a right shift before masking is clear.
proof fn lemma_shr_last_clear(x: u64, y: u64, m: u64, b: u64)
    by (bit_vector)
    requires
        0 < m < 64,
        m <= b < 64,
        x < (1u64 << m),
    ensures
        ((((x >> 1u64) | ((y & 1u64) << ((m - 1) as u64))) >> b) & 1u64) != 1u64,
{
}

/// The words that the shifts give, word by word: word `w` of the right shift
/// of a well-formed grid is `shr_word`, and word `w` of its left shift is
/// `shl_word`, the last word masked to the grid's cells.
pub proof fn law_shifted_words(g: BitGrid, sl: BitGrid, sr: BitGrid, w: int)
    requires
        g.wf(),
        g.size > 0,
        0 <= w < g.cells.len(),
        sl.wf(),
        sl.size == g.size,
        sl@ == shifted_left(g@),
        sr.wf(),
        sr.size == g.size,
        sr@ == shifted_right(g@),
    ensures
        sr.cells@[w] == shr_word(g.cells@, g.size as nat, w),
        sl.cells@[w] == if w == g.cells.len() - 1 {
            shl_word(g.cells@, g.size as nat, w) & last_mask(g.size as nat)
        } else {
            shl_word(g.cells@, g.size as nat, w)
        },
{
    let n = g.size as nat;
    let k = g.cells.len() as int;
    let r = shr_word(g.cells@, n, w);
    let l0 = shl_word(g.cells@, n, w);
    let l = if w == k - 1 {
        l0 & last_mask(n)
    } else {
        l0
    };
    assert forall|b: u64| b < 64 implies #[trigger] bit(sr.cells@[w], b) == bit(r, b) by {
        let i = 64 * w + b;
        lemma_word_bits(sr, w, b);
        assert(i / 64 == w && i % 64 == b as int);
        if i < n {
            lemma_shr_word_bit(g, i);
        } else {
            assert(w == k - 1 && n % 64 != 0 && b >= n % 64);
            let m = (n % 64) as u64;
            assert((n - 1) % 64 == m - 1);
            lemma_shr_last_clear(g.cells@[w], g.cells@[0], m, b);
        }
    }
    assert forall|b: u64| b < 64 implies #[trigger] bit(sl.cells@[w], b) == bit(l, b) by {
        let i = 64 * w + b;
        lemma_word_bits(sl, w, b);
        assert(i / 64 == w && i % 64 == b as int);
        if w == k - 1 {
            lemma_last_mask_bit(l0, n, b);
        }
        if i < n {
            lemma_shl_word_bit(g, i);
            lemma_cell_position(i, n);
        } else {
            assert(w == k - 1 && n % 64 != 0 && b >= n % 64);
        }
    }
    crate::bits::lemma_bits_equal(sr.cells@[w], r);
    crate::bits::lemma_bits_equal(sl.cells@[w], l);
}

} // verus!
