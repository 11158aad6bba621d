//! Repetition coding of a k-bit value into a grid of N cells, and its decoding
//! by majority vote.
use vstd::prelude::*;
use crate::bits::{bit, lemma_extract_bit, lemma_set_clear_bit, lemma_logic_bits};
use crate::grid::{BitGrid, lemma_cell_position, xor_cells};

verus! {

/// The number of set cells among `s[lo..hi]`.
pub open spec fn count_ones(s: Seq<bool>, lo: int, hi: int) -> nat
    decreases hi - lo,
{
    if hi <= lo {
        0
    } else {
        count_ones(s, lo, hi - 1) + if s[hi - 1] {
            1nat
        } else {
            0nat
        }
    }
}

/// The repetition factor: how many cells each of the `k` bits gets in a grid
/// of `n` cells.
pub open spec fn repetition(n: nat, k: nat) -> nat {
    n / k
}

/// The first cell of block `j`.
pub open spec fn block_start(n: nat, k: nat, j: int) -> int {
    j * repetition(n, k)
}

/// The end (exclusive) of block `j`: the last block runs to the end of the grid.
pub open spec fn block_end(n: nat, k: nat, j: int) -> int {
    if j == k - 1 {
        n as int
    } else {
        (j + 1) * repetition(n, k)
    }
}

/// Block `j` of the cells `s` holds a strict majority of set cells.
pub open spec fn block_majority(s: Seq<bool>, k: nat, j: int) -> bool {
    let lo = block_start(s.len(), k, j);
    let hi = block_end(s.len(), k, j);
    count_ones(s, lo, hi) > (hi - lo) / 2
}

/// The cells of the repetition code of the low `k` bits of `val` over `n`
/// cells: bit `j` fills cells `j * r .. (j + 1) * r` with `r = n / k`; the
/// cells past `k * r` stay clear.
pub open spec fn encoded_cells(val: u64, k: nat, n: nat) -> Seq<bool> {
    Seq::new(
        n,
        |i: int|
            i < k * repetition(n, k) && bit(val, (i / (repetition(n, k) as int)) as u64),
    )
}

/// `count_ones` grows by one cell at a time.
pub proof fn lemma_count_ones_step(s: Seq<bool>, lo: int, hi: int)
    requires
        lo <= hi,
    ensures
        count_ones(s, lo, hi + 1) == count_ones(s, lo, hi) + if s[hi] {
            1nat
        } else {
            0nat
        },
        count_ones(s, lo, hi) <= hi - lo,
    decreases hi - lo,
{
    if lo < hi {
        lemma_count_ones_step(s, lo, hi - 1);
    }
}

/// Facts on the block layout, for `0 < k <= n`.
pub proof fn lemma_blocks(n: nat, k: nat, j: int)
    requires
        0 < k <= n,
        0 <= j < k,
    ensures
        repetition(n, k) >= 1,
        k * repetition(n, k) <= n,
        0 <= block_start(n, k, j) < block_end(n, k, j) <= n,
        block_end(n, k, j) <= (j + 1) * repetition(n, k) || j == k - 1,
        j < k - 1 ==> block_end(n, k, j) == block_start(n, k, j) + repetition(n, k),
        block_start(n, k, j) + repetition(n, k) <= k * repetition(n, k),
        n - k * repetition(n, k) == n % k,
{
    let r = repetition(n, k);
    vstd::arithmetic::div_mod::lemma_fundamental_div_mod(n as int, k as int);
    vstd::arithmetic::div_mod::lemma_div_pos_is_pos(n as int, k as int);
    assert(r >= 1) by {
        vstd::arithmetic::div_mod::lemma_div_is_ordered(k as int, n as int, k as int);
        vstd::arithmetic::div_mod::lemma_div_by_self(k as int);
    }
    assert(k * r <= n) by {
        vstd::arithmetic::div_mod::lemma_mod_pos_bound(n as int, k as int);
    }
    assert(j * r + r == (j + 1) * r) by (nonlinear_arith);
    assert((j + 1) * r <= k * r) by (nonlinear_arith)
        requires
            j + 1 <= k,
            r >= 0,
    ;
    assert(0 <= j * r) by (nonlinear_arith)
        requires
            j >= 0,
            r >= 0,
    ;
}

/// Encode a k-bit plaintext (represented as u64) into an N-cell BitGrid using repetition coding.
/// Each bit is repeated N/k times.
pub fn encode_repetition(val: u64, k: usize, n: usize) -> (r: BitGrid)
    requires
        k > 0,
        n >= k,
        k <= 64,
        n + 63 <= usize::MAX,
    ensures
        r.wf(),
        r.size == n,
        r@ == encoded_cells(val, k as nat, n as nat),
{
    let r = n / k;
    let mut grid = BitGrid::new(n);
    proof {
        lemma_blocks(n as nat, k as nat, 0);
    }
    for bit_idx in 0..k
        invariant
            r == repetition(n as nat, k as nat),
            r >= 1,
            k * r <= n,
            0 < k <= 64,
            k <= n,
            grid.wf(),
            grid.size == n,
            grid@ == Seq::new(
                n as nat,
                |i: int| i < bit_idx * r && bit(val, (i / (r as int)) as u64),
            ),
    {
        proof {
            lemma_extract_bit(val, bit_idx as u64);
        }
        let bit_val = ((val >> (bit_idx as u64)) & 1) != 0;
        proof {
            lemma_blocks(n as nat, k as nat, bit_idx as int);
        }
        for j in 0..r
            invariant
                r == repetition(n as nat, k as nat),
                r >= 1,
                k * r <= n,
                bit_idx < k,
                bit_idx * r + r <= k * r,
                bit_val == bit(val, bit_idx as u64),
                grid.wf(),
                grid.size == n,
                grid@ == Seq::new(
                    n as nat,
                    |i: int|
                        (i < bit_idx * r && bit(val, (i / (r as int)) as u64)) || (bit_idx * r <= i
                            < bit_idx * r + j && bit_val),
                ),
        {
            let idx = bit_idx * r + j;
            if idx < n {
                proof {
                    lemma_cell_position(idx as int, n as nat);
                }
                grid.set_bit(idx, bit_val);
            }
            assert(grid@ =~= Seq::new(
                n as nat,
                |i: int|
                    (i < bit_idx * r && bit(val, (i / (r as int)) as u64)) || (bit_idx * r <= i
                        < bit_idx * r + j + 1 && bit_val),
            ));
        }
        proof {
            assert forall|i: int| bit_idx * r <= i < bit_idx * r + r implies #[trigger] bit(
                val,
                (i / (r as int)) as u64,
            ) == bit(val, bit_idx as u64) by {
                vstd::arithmetic::div_mod::lemma_fundamental_div_mod(i, r as int);
                vstd::arithmetic::div_mod::lemma_div_multiples_vanish_fancy(
                    bit_idx as int,
                    i - bit_idx * r,
                    r as int,
                );
                assert(r * bit_idx == bit_idx * r) by (nonlinear_arith);
                assert(i == r * bit_idx + (i - bit_idx * r));
                assert(i / (r as int) == bit_idx);
            }
            assert((bit_idx + 1) * r == bit_idx * r + r) by (nonlinear_arith);
        }
        assert(grid@ =~= Seq::new(
            n as nat,
            |i: int| i < (bit_idx + 1) * r && bit(val, (i / (r as int)) as u64),
        ));
    }
    assert(grid@ =~= encoded_cells(val, k as nat, n as nat));
    grid
}

/// Decode an N-cell BitGrid back to a k-bit plaintext u64 using majority voting.
pub fn decode_repetition(grid: &BitGrid, k: usize) -> (v: u64)
    requires
        k > 0,
        grid.size >= k,
        grid.size <= 64 * grid.cells.len(),
        forall|j: int| 64 <= j < k ==> !#[trigger] block_majority(grid@, k as nat, j),
    ensures
        forall|b: u64|
            b < 64 ==> #[trigger] bit(v, b) == (b < k && block_majority(
                grid@,
                k as nat,
                b as int,
            )),
{
    let n = grid.size;
    let r = n / k;
    let mut val = 0u64;
    proof {
        assert forall|b: u64| b < 64 implies !#[trigger] bit(0u64, b) by {
            lemma_logic_bits(0, 0, b);
        }
    }
    for bit_idx in 0..k
        invariant
            n == grid.size,
            r == repetition(n as nat, k as nat),
            0 < k <= n,
            n <= 64 * grid.cells.len(),
            forall|j: int| 64 <= j < k ==> !#[trigger] block_majority(grid@, k as nat, j),
            forall|b: u64|
                b < 64 ==> #[trigger] bit(val, b) == (b < bit_idx && block_majority(
                    grid@,
                    k as nat,
                    b as int,
                )),
    {
        proof {
            lemma_blocks(n as nat, k as nat, bit_idx as int);
        }
        let start = bit_idx * r;
        let end = if bit_idx == k - 1 {
            n
        } else {
            (bit_idx + 1) * r
        };
        let mut ones: usize = 0;
        let count = end - start;
        for i in start..end
            invariant
                n == grid.size,
                n <= 64 * grid.cells.len(),
                end <= n,
                start <= end,
                ones == count_ones(grid@, start as int, i as int),
                ones <= i - start,
        {
            proof {
                lemma_cell_position(i as int, n as nat);
                lemma_count_ones_step(grid@, start as int, i as int);
            }
            if grid.get_bit(i) {
                ones += 1;
            }
        }
        assert(block_majority(grid@, k as nat, bit_idx as int) == (ones > count / 2));
        if ones > count / 2 {
            assert(bit_idx < 64);
            proof {
                assert forall|b: u64| b < 64 implies #[trigger] bit(val | (1u64 << (bit_idx as u64)), b)
                    == (b == bit_idx || bit(val, b)) by {
                    lemma_set_clear_bit(val, bit_idx as u64, b);
                }
            }
            val |= 1u64 << (bit_idx as u64);
        }
    }
    val
}

/// `count_ones` over a range whose cells are all set, or all clear.
pub proof fn lemma_count_ones_uniform(s: Seq<bool>, lo: int, hi: int, v: bool)
    requires
        lo <= hi,
        forall|i: int| lo <= i < hi ==> s[i] == v,
    ensures
        count_ones(s, lo, hi) == if v {
            hi - lo
        } else {
            0
        },
    decreases hi - lo,
{
    if lo < hi {
        lemma_count_ones_uniform(s, lo, hi - 1, v);
    }
}

/// `count_ones` adds up over two adjacent ranges.
pub proof fn lemma_count_ones_split(s: Seq<bool>, lo: int, mid: int, hi: int)
    requires
        lo <= mid <= hi,
    ensures
        count_ones(s, lo, hi) == count_ones(s, lo, mid) + count_ones(s, mid, hi),
    decreases hi - mid,
{
    if mid < hi {
        lemma_count_ones_split(s, lo, mid, hi - 1);
    }
}

/// Decoding inverts encoding: when the cells left over past the `k` blocks
/// (`n % k` of them) are fewer than a block's repetition factor `n / k`, the
/// majority vote over each block of the encoding gives back bit `j` of `val`.
pub proof fn law_decode_encode(val: u64, k: nat, n: nat)
    requires
        0 < k <= 64,
        k <= n,
        n % k < n / k,
    ensures
        forall|j: int|
            0 <= j < k ==> #[trigger] block_majority(encoded_cells(val, k, n), k, j) == bit(
                val,
                j as u64,
            ),
{
    let s = encoded_cells(val, k, n);
    let r = repetition(n, k);
    assert forall|j: int| 0 <= j < k implies #[trigger] block_majority(s, k, j) == bit(
        val,
        j as u64,
    ) by {
        lemma_blocks(n, k, j);
        let lo = block_start(n, k, j);
        let hi = block_end(n, k, j);
        let b = bit(val, j as u64);
        assert forall|i: int| lo <= i < lo + r implies s[i] == b by {
            vstd::arithmetic::div_mod::lemma_div_multiples_vanish_fancy(j, i - lo, r as int);
            assert(r * j == j * r) by (nonlinear_arith);
        }
        lemma_count_ones_uniform(s, lo, lo + r, b);
        if j == k - 1 {
            assert(lo + r == k * r) by (nonlinear_arith)
                requires
                    lo == j * r,
                    j == k - 1,
            ;
            lemma_count_ones_uniform(s, lo + r, hi, false);
            lemma_count_ones_split(s, lo, lo + r, hi);
        }
    }
}

/// The set cells of `s` in a range where the reference cells `e` all equal
/// `v`, against the cells where `s` and `e` differ.
proof fn lemma_count_ones_against(s: Seq<bool>, e: Seq<bool>, lo: int, hi: int, v: bool)
    requires
        0 <= lo <= hi <= s.len(),
        s.len() == e.len(),
        forall|i: int| lo <= i < hi ==> e[i] == v,
    ensures
        v ==> count_ones(s, lo, hi) + count_ones(xor_cells(s, e), lo, hi) == hi - lo,
        !v ==> count_ones(s, lo, hi) == count_ones(xor_cells(s, e), lo, hi),
    decreases hi - lo,
{
    if lo < hi {
        lemma_count_ones_against(s, e, lo, hi - 1, v);
    }
}

/// Majority decoding corrects errors: when `k` divides `n` and each block of
/// `n / k` cells holds fewer than half its cells changed from the encoding of
/// `val`, the majority vote over each block still gives bit `j` of `val`.
pub proof fn law_decode_corrects_errors(val: u64, k: nat, n: nat, s: Seq<bool>)
    requires
        0 < k <= 64,
        k <= n,
        n % k == 0,
        s.len() == n,
        forall|j: int|
            0 <= j < k ==> 2 * #[trigger] count_ones(
                xor_cells(s, encoded_cells(val, k, n)),
                j * (n / k) as int,
                (j + 1) * (n / k) as int,
            ) < n / k,
    ensures
        forall|j: int| 0 <= j < k ==> #[trigger] block_majority(s, k, j) == bit(val, j as u64),
{
    let e = encoded_cells(val, k, n);
    let r = repetition(n, k);
    assert forall|j: int| 0 <= j < k implies #[trigger] block_majority(s, k, j) == bit(
        val,
        j as u64,
    ) by {
        lemma_blocks(n, k, j);
        let lo = block_start(n, k, j);
        let hi = block_end(n, k, j);
        let b = bit(val, j as u64);
        assert(lo + r == (j + 1) * r) by (nonlinear_arith)
            requires
                lo == j * r,
        ;
        if j == k - 1 {
            assert(lo + r == k * r) by (nonlinear_arith)
                requires
                    lo == j * r,
                    j == k - 1,
            ;
        }
        assert(hi == lo + r);
        assert forall|i: int| lo <= i < hi implies e[i] == b by {
            vstd::arithmetic::div_mod::lemma_div_multiples_vanish_fancy(j, i - lo, r as int);
            assert(r * j == j * r) by (nonlinear_arith);
        }
        assert(2 * count_ones(xor_cells(s, e), j * (n / k) as int, (j + 1) * (n / k) as int) < n / k);
        lemma_count_ones_against(s, e, lo, hi, b);
    }
}

} // verus!
