//! Reversible one-dimensional cellular automata (second-order, Fredkin
//! construction) and the encryption scheme built on them.
use vstd::prelude::*;
use crate::bits::{bit, lemma_logic_bits};
use crate::grid::{
    lemma_word_bits,
    BitGrid, cell_of, last_mask, last_word_ok, shl_word, shr_word, shifted_left, shifted_right,
    xor_cells, lemma_cell_position, lemma_last_mask_bit, lemma_shl_word_bit, lemma_shr_word_bit,
};
use crate::rule::{rule_out, rule_word, rule_word_exec, lemma_rule_word_bit, lemma_rule_word_of_bits};

verus! {

/// One application of elementary rule `rule` to every cell of a ring.
pub open spec fn apply_rule_cells(rule: u8, s: Seq<bool>) -> Seq<bool> {
    Seq::new(
        s.len(),
        |i: int|
            rule_out(
                rule,
                s[(i + s.len() - 1) % (s.len() as int)],
                s[i],
                s[(i + 1) % (s.len() as int)],
            ),
    )
}

/// The second-order step: the next state is the rule applied to the current
/// state, exclusive-or the previous state.
pub open spec fn step_cells(rule: u8, prev: Seq<bool>, curr: Seq<bool>) -> Seq<bool> {
    xor_cells(apply_rule_cells(rule, curr), prev)
}

/// The pair `(previous, current)` after `k` second-order steps from `(p, c)`.
pub open spec fn evolve_cells(rule: u8, k: nat, p: Seq<bool>, c: Seq<bool>) -> (Seq<bool>, Seq<bool>)
    decreases k,
{
    if k == 0 {
        (p, c)
    } else {
        let (a, b) = evolve_cells(rule, (k - 1) as nat, p, c);
        (b, step_cells(rule, a, b))
    }
}

/// Reverse evolution: swap the pair, evolve forward, swap back.
pub open spec fn reverse_cells(rule: u8, k: nat, p: Seq<bool>, c: Seq<bool>) -> (Seq<bool>, Seq<bool>) {
    let (a, b) = evolve_cells(rule, k, c, p);
    (b, a)
}

/// The ciphertext pair of plaintext `m` under rule `rule`, `k` steps and `iv`.
pub open spec fn encrypt_cells(rule: u8, k: nat, m: Seq<bool>, iv: Seq<bool>) -> (Seq<bool>, Seq<bool>) {
    evolve_cells(rule, k, xor_cells(m, iv), iv)
}

/// The plaintext that the ciphertext pair `(c0, c1)` decrypts to.
pub open spec fn decrypt_cells(rule: u8, k: nat, c0: Seq<bool>, c1: Seq<bool>, iv: Seq<bool>) -> Seq<bool> {
    xor_cells(reverse_cells(rule, k, c0, c1).0, iv)
}

/// Word `w` of the next state in a step, computed from the packed words of the
/// previous state `p` and the current state `c` of a grid of `size` cells.
pub open spec fn step_word(rule: u8, p: Seq<u64>, c: Seq<u64>, size: nat, w: int) -> u64 {
    let o = rule_word(rule, shl_word(c, size, w), c[w], shr_word(c, size, w));
    (if w == c.len() - 1 {
        o & last_mask(size)
    } else {
        o
    }) ^ p[w]
}

/// The rule applied word by word: given words whose bits are the left and
/// right neighbours of the grid's cells, the rule's words (the last one
/// masked) hold the cells of `apply_rule_cells`.
pub proof fn lemma_rule_words(rule: u8, g: BitGrid, lw: Seq<u64>, rw: Seq<u64>, out: Seq<u64>)
    requires
        g.wf(),
        g.size > 0,
        lw.len() == g.cells.len(),
        rw.len() == g.cells.len(),
        out.len() == g.cells.len(),
        forall|i: int|
            0 <= i < g.size ==> #[trigger] bit(lw[i / 64], (i % 64) as u64) == g@[(i + g.size
                - 1) % (g.size as int)],
        forall|i: int|
            0 <= i < g.size ==> #[trigger] bit(rw[i / 64], (i % 64) as u64) == g@[(i + 1) % (
            g.size as int)],
        forall|j: int|
            0 <= j < g.cells.len() - 1 ==> out[j] == rule_word(rule, lw[j], g.cells@[j], rw[j]),
        out[g.cells.len() - 1] == rule_word(
            rule,
            lw[g.cells.len() - 1],
            g.cells@[g.cells.len() - 1],
            rw[g.cells.len() - 1],
        ) & last_mask(g.size as nat),
    ensures
        forall|i: int|
            0 <= i < g.size ==> #[trigger] cell_of(out, i) == apply_rule_cells(rule, g@)[i],
        last_word_ok(out.last(), g.size as nat),
{
    let n = g.size as nat;
    let k = g.cells.len() as int;
    lemma_cell_position(0, n);
    lemma_last_mask_bit(rule_word(rule, lw[k - 1], g.cells@[k - 1], rw[k - 1]), n, 0);
    assert forall|i: int| 0 <= i < g.size implies #[trigger] cell_of(out, i) == apply_rule_cells(
        rule,
        g@,
    )[i] by {
        lemma_cell_position(i, n);
        let w = i / 64;
        let b = (i % 64) as u64;
        assert(bit(lw[w], b) == g@[(i + n - 1) % (n as int)]);
        assert(bit(rw[w], b) == g@[(i + 1) % (n as int)]);
        lemma_rule_word_bit(rule, lw[w], g.cells@[w], rw[w], b);
        if w == k - 1 {
            lemma_last_mask_bit(rule_word(rule, lw[w], g.cells@[w], rw[w]), n, b);
        }
    }
}

/// The words computed by a step hold the cells of `step_cells`.
pub proof fn lemma_step_view(rule: u8, p: BitGrid, c: BitGrid, t: BitGrid)
    requires
        p.wf(),
        c.wf(),
        c.size > 0,
        p.size == c.size,
        t.size == c.size,
        t.cells.len() == c.cells.len(),
        forall|w: int|
            0 <= w < c.cells.len() ==> #[trigger] t.cells@[w] == step_word(
                rule,
                p.cells@,
                c.cells@,
                c.size as nat,
                w,
            ),
    ensures
        t.wf(),
        t@ == step_cells(rule, p@, c@),
{
    let n = c.size as nat;
    let k = c.cells.len() as int;
    let lw = Seq::new(k as nat, |j: int| shl_word(c.cells@, n, j));
    let rw = Seq::new(k as nat, |j: int| shr_word(c.cells@, n, j));
    let out = Seq::new(
        k as nat,
        |j: int|
            if j == k - 1 {
                rule_word(rule, lw[j], c.cells@[j], rw[j]) & last_mask(n)
            } else {
                rule_word(rule, lw[j], c.cells@[j], rw[j])
            },
    );
    assert forall|i: int| 0 <= i < c.size implies #[trigger] bit(lw[i / 64], (i % 64) as u64)
        == c@[(i + c.size - 1) % (c.size as int)] by {
        lemma_cell_position(i, n);
        lemma_shl_word_bit(c, i);
    }
    assert forall|i: int| 0 <= i < c.size implies #[trigger] bit(rw[i / 64], (i % 64) as u64)
        == c@[(i + 1) % (c.size as int)] by {
        lemma_cell_position(i, n);
        lemma_shr_word_bit(c, i);
    }
    lemma_rule_words(rule, c, lw, rw, out);
    assert forall|i: int| 0 <= i < n implies #[trigger] cell_of(t.cells@, i) == step_cells(
        rule,
        p@,
        c@,
    )[i] by {
        lemma_cell_position(i, n);
        assert(cell_of(out, i) == apply_rule_cells(rule, c@)[i]);
        assert(t.cells@[i / 64] == out[i / 64] ^ p.cells@[i / 64]);
        lemma_logic_bits(out[i / 64], p.cells@[i / 64], (i % 64) as u64);
    }
    assert(t@ =~= step_cells(rule, p@, c@));
    let x = out[k - 1];
    let y = p.cells@[k - 1];
    assert(t.cells@[k - 1] == x ^ y);
    if n % 64 != 0 {
        let m = (n % 64) as u64;
        crate::bits::lemma_word_facts(x, y, m, 0);
    }
}

/// The in-place step computes, word by word, the rule applied to the current
/// state exclusive-or the previous state: for well-formed `p` and `c` of one
/// size, and `applied` the rule applied to `c` (as `apply_rule` gives it), the
/// words that the step writes (`step_word`) are those of `applied ^ p`.
pub proof fn law_step_is_rule_xor(rule: u8, p: BitGrid, c: BitGrid, applied: BitGrid, t: BitGrid)
    requires
        p.wf(),
        c.wf(),
        c.size > 0,
        p.size == c.size,
        applied.wf(),
        applied.size == c.size,
        applied@ == apply_rule_cells(rule, c@),
        t.size == c.size,
        t.cells.len() == c.cells.len(),
        forall|w: int|
            0 <= w < c.cells.len() ==> #[trigger] t.cells@[w] == step_word(
                rule,
                p.cells@,
                c.cells@,
                c.size as nat,
                w,
            ),
    ensures
        forall|w: int|
            0 <= w < c.cells.len() ==> #[trigger] t.cells@[w] == applied.cells@[w] ^ p.cells@[w],
{
    lemma_step_view(rule, p, c, t);
    assert forall|w: int| 0 <= w < c.cells.len() implies #[trigger] t.cells@[w]
        == applied.cells@[w] ^ p.cells@[w] by {
        let x = applied.cells@[w] ^ p.cells@[w];
        assert forall|b: u64| b < 64 implies #[trigger] bit(t.cells@[w], b) == bit(x, b) by {
            lemma_word_bits(t, w, b);
            lemma_word_bits(applied, w, b);
            lemma_word_bits(p, w, b);
            lemma_logic_bits(applied.cells@[w], p.cells@[w], b);
        }
        crate::bits::lemma_bits_equal(t.cells@[w], x);
    }
}

/// Reversible CA simulator using second-order (Fredkin) construction.
pub struct ReversibleCA {
    pub rule_lut: u8,
    pub steps: usize,
}

impl ReversibleCA {
    pub fn new(rule_lut: u8, steps: usize) -> (r: Self)
        ensures
            r.rule_lut == rule_lut,
            r.steps == steps,
    {
        ReversibleCA { rule_lut, steps }
    }

    /// Apply the Wolfram local rule in parallel to all cells in the grid.
    pub fn apply_rule(&self, grid: &BitGrid) -> (r: BitGrid)
        requires
            grid.wf(),
            grid.size > 0,
        ensures
            r.wf(),
            r.size == grid.size,
            r@ == apply_rule_cells(self.rule_lut, grid@),
    {
        let l_grid = grid.shift_left();
        let c_grid = grid;
        let r_grid = grid.shift_right();
        let k = grid.cells.len();
        let mut result: Vec<u64> = vec![0u64; k];
        for w in 0..k
            invariant
                k == grid.cells.len(),
                k == l_grid.cells.len(),
                k == r_grid.cells.len(),
                c_grid == grid,
                result.len() == k,
                forall|j: int|
                    0 <= j < w ==> result@[j] == rule_word(
                        self.rule_lut,
                        l_grid.cells@[j],
                        grid.cells@[j],
                        r_grid.cells@[j],
                    ),
        {
            let l = l_grid.cells[w];
            let c = c_grid.cells[w];
            let r = r_grid.cells[w];
            let o = rule_word_exec(self.rule_lut, l, c, r);
            proof {
                lemma_rule_word_of_bits(o, self.rule_lut, l, c, r);
            }
            result.set(w, o);
        }
        let mask = BitGrid::last_word_mask(grid.size);
        let last = result[k - 1] & mask;
        result.set(k - 1, last);
        let out = BitGrid { cells: result, size: grid.size };
        proof {
            let n = grid.size as nat;
            assert forall|i: int| 0 <= i < grid.size implies #[trigger] bit(
                l_grid.cells@[i / 64],
                (i % 64) as u64,
            ) == grid@[(i + grid.size - 1) % (grid.size as int)] by {
                assert(l_grid@[i] == shifted_left(grid@)[i]);
            }
            assert forall|i: int| 0 <= i < grid.size implies #[trigger] bit(
                r_grid.cells@[i / 64],
                (i % 64) as u64,
            ) == grid@[(i + 1) % (grid.size as int)] by {
                assert(r_grid@[i] == shifted_right(grid@)[i]);
            }
            lemma_rule_words(self.rule_lut, *grid, l_grid.cells@, r_grid.cells@, out.cells@);
            assert(out@ =~= apply_rule_cells(self.rule_lut, grid@));
        }
        out
    }

    /// In-place step of rule application.
    /// Computes `temp = apply_rule(c) ^ p` directly without allocation.
    fn apply_rule_inplace_step(&self, p: &BitGrid, c: &BitGrid, temp: &mut BitGrid)
        requires
            c.wf(),
            c.size > 0,
            p.cells.len() == c.cells.len(),
            old(temp).cells.len() == c.cells.len(),
        ensures
            final(temp).size == old(temp).size,
            final(temp).cells.len() == c.cells.len(),
            forall|w: int|
                0 <= w < c.cells.len() ==> #[trigger] final(temp).cells@[w] == step_word(
                    self.rule_lut,
                    p.cells@,
                    c.cells@,
                    c.size as nat,
                    w,
                ),
    {
        let k_len = c.cells.len();
        let size = c.size;
        let rule = self.rule_lut;

        if k_len == 1 {
            let c_word = c.cells[0];
            let last_active_bit_idx = ((size - 1) % 64) as u64;
            let carry_l = (c_word >> last_active_bit_idx) & 1;
            let l = (c_word << 1) | carry_l;

            let carry_r = c_word & 1;
            let r = (c_word >> 1) | (carry_r << last_active_bit_idx);

            let mut out = rule_word_exec(rule, l, c_word, r);
            proof {
                lemma_rule_word_of_bits(out, rule, l, c_word, r);
            }
            let last_word_mask = BitGrid::last_word_mask(size);
            out &= last_word_mask;
            temp.cells.set(0, out ^ p.cells[0]);
            return;
        }
        // w = 0

        {
            let c_word = c.cells[0];
            let carry_l = {
                let last_active_bit_idx = ((size - 1) % 64) as u64;
                (c.cells[k_len - 1] >> last_active_bit_idx) & 1
            };
            let l = (c_word << 1) | carry_l;

            let carry_r = c.cells[1] & 1;
            let r = (c_word >> 1) | (carry_r << 63);

            let out = rule_word_exec(rule, l, c_word, r);
            proof {
                lemma_rule_word_of_bits(out, rule, l, c_word, r);
            }
            temp.cells.set(0, out ^ p.cells[0]);
        }
        // w = 1..k_len-1

        for w in 1..(k_len - 1)
            invariant
                k_len == c.cells.len(),
                k_len >= 2,
                p.cells.len() == k_len,
                temp.cells.len() == k_len,
                temp.size == old(temp).size,
                rule == self.rule_lut,
                size == c.size,
                forall|j: int|
                    0 <= j < w ==> #[trigger] temp.cells@[j] == step_word(
                        rule,
                        p.cells@,
                        c.cells@,
                        c.size as nat,
                        j,
                    ),
        {
            let c_word = c.cells[w];
            let carry_l = c.cells[w - 1] >> 63;
            let l = (c_word << 1) | carry_l;

            let carry_r = c.cells[w + 1] & 1;
            let r = (c_word >> 1) | (carry_r << 63);

            let out = rule_word_exec(rule, l, c_word, r);
            proof {
                lemma_rule_word_of_bits(out, rule, l, c_word, r);
            }
            temp.cells.set(w, out ^ p.cells[w]);
        }
        // w = k_len - 1
        let w = k_len - 1;
        let c_word = c.cells[w];
        let carry_l = c.cells[w - 1] >> 63;
        let l = (c_word << 1) | carry_l;

        let carry_r = c.cells[0] & 1;
        let last_active_bit_idx = ((size - 1) % 64) as u64;
        let r = (c_word >> 1) | (carry_r << last_active_bit_idx);

        let mut out = rule_word_exec(rule, l, c_word, r);
        proof {
            lemma_rule_word_of_bits(out, rule, l, c_word, r);
        }
        let last_word_mask = BitGrid::last_word_mask(size);
        out &= last_word_mask;

        temp.cells.set(w, out ^ p.cells[w]);
    }

    /// Evolve the CA forward by `steps` steps.
    /// prev = s(t-1), curr = s(t)
    /// Returns (new_prev, new_curr) after `steps` applications
    pub fn evolve(&self, prev: &BitGrid, curr: &BitGrid) -> (r: (BitGrid, BitGrid))
        requires
            prev.size + 63 <= usize::MAX,
            self.steps > 0 ==> prev.wf() && curr.wf() && prev.size == curr.size && prev.size > 0,
        ensures
            self.steps == 0 ==> r.0.cells@ == prev.cells@ && r.1.cells@ == curr.cells@,
            r.0.size == prev.size,
            r.1.size == curr.size,
            prev.wf() && curr.wf() ==> r.0.wf() && r.1.wf(),
            (r.0@, r.1@) == evolve_cells(self.rule_lut, self.steps as nat, prev@, curr@),
    {
        let mut p = prev.clone();
        let mut c = curr.clone();
        let mut temp = BitGrid::new(prev.size);
        proof {
            assert(p@ =~= prev@);
            assert(c@ =~= curr@);
        }
        let mut i: usize = 0;
        while i < self.steps
            invariant
                i <= self.steps,
                self.steps > 0 ==> {
                    &&& p.wf()
                    &&& c.wf()
                    &&& temp.wf()
                    &&& p.size == prev.size
                    &&& c.size == prev.size
                    &&& temp.size == prev.size
                    &&& prev.size > 0
                },
                i == 0 ==> p.cells@ == prev.cells@ && c.cells@ == curr.cells@ && p.size == prev.size
                    && c.size == curr.size,
                prev.wf() && curr.wf() ==> p.wf() && c.wf(),
                p.size == prev.size,
                c.size == curr.size,
                (p@, c@) == evolve_cells(self.rule_lut, i as nat, prev@, curr@),
            decreases self.steps - i,
        {
            proof {
                lemma_cell_position(0, prev.size as nat);
            }
            self.apply_rule_inplace_step(&p, &c, &mut temp);
            proof {
                lemma_step_view(self.rule_lut, p, c, temp);
            }
            std::mem::swap(&mut p, &mut c);
            std::mem::swap(&mut c, &mut temp);
            i = i + 1;
        }
        (p, c)
    }

    /// Reverse-evolve the CA by `steps` steps.
    /// Returns (orig_prev, orig_curr)
    pub fn reverse(&self, prev: &BitGrid, curr: &BitGrid) -> (r: (BitGrid, BitGrid))
        requires
            curr.size + 63 <= usize::MAX,
            self.steps > 0 ==> prev.wf() && curr.wf() && prev.size == curr.size && prev.size > 0,
        ensures
            self.steps == 0 ==> r.0.cells@ == prev.cells@ && r.1.cells@ == curr.cells@,
            r.0.size == prev.size,
            r.1.size == curr.size,
            prev.wf() && curr.wf() ==> r.0.wf() && r.1.wf(),
            (r.0@, r.1@) == reverse_cells(self.rule_lut, self.steps as nat, prev@, curr@),
    {
        // Second-order CA: reverse is swap, evolve forward, swap
        let (p, c) = self.evolve(curr, prev);
        (c, p)  // Swapped back
    }
}

/// Encrypt a plaintext using the reversible CA.
pub fn encrypt(plaintext: &BitGrid, iv: &BitGrid, rule_lut: u8, steps: usize) -> (r: (
    BitGrid,
    BitGrid,
))
    requires
        plaintext.size == iv.size,
        iv.size + 63 <= usize::MAX,
        steps > 0 ==> plaintext.wf() && iv.wf() && iv.size > 0,
    ensures
        r.0.size == iv.size,
        r.1.size == iv.size,
        plaintext.wf() && iv.wf() ==> r.0.wf() && r.1.wf() && (r.0@, r.1@) == encrypt_cells(
            rule_lut,
            steps as nat,
            plaintext@,
            iv@,
        ),
{
    let initial_prev = plaintext ^ iv;
    let initial_curr = iv.clone();
    let ca = ReversibleCA::new(rule_lut, steps);
    proof {
        assert(initial_curr@ =~= iv@);
    }
    ca.evolve(&initial_prev, &initial_curr)
}

/// Decrypt a ciphertext pair back to plaintext.
pub fn decrypt(c0: &BitGrid, c1: &BitGrid, iv: &BitGrid, rule_lut: u8, steps: usize) -> (r: BitGrid)
    requires
        c0.size == iv.size,
        c1.size + 63 <= usize::MAX,
        steps > 0 ==> c0.wf() && c1.wf() && c0.size == c1.size && c0.size > 0,
    ensures
        r.size == iv.size,
        c0.wf() && c1.wf() && iv.wf() ==> r.wf() && r@ == decrypt_cells(
            rule_lut,
            steps as nat,
            c0@,
            c1@,
            iv@,
        ),
{
    let ca = ReversibleCA::new(rule_lut, steps);
    let (orig_prev, _orig_curr) = ca.reverse(c0, c1);
    &orig_prev ^ iv
}


/// Evolution keeps the length of both states.
pub proof fn lemma_evolve_len(rule: u8, k: nat, p: Seq<bool>, c: Seq<bool>)
    requires
        p.len() == c.len(),
    ensures
        evolve_cells(rule, k, p, c).0.len() == p.len(),
        evolve_cells(rule, k, p, c).1.len() == p.len(),
    decreases k,
{
    if k > 0 {
        lemma_evolve_len(rule, (k - 1) as nat, p, c);
    }
}

/// Evolving `k + 1` steps is one step followed by `k` steps.
pub proof fn lemma_evolve_first_step(rule: u8, k: nat, p: Seq<bool>, c: Seq<bool>)
    ensures
        evolve_cells(rule, k + 1, p, c) == evolve_cells(rule, k, c, step_cells(rule, p, c)),
    decreases k,
{
    reveal_with_fuel(evolve_cells, 2);
    if k > 0 {
        lemma_evolve_first_step(rule, (k - 1) as nat, p, c);
    }
}

/// One step taken on the swapped result of a step gives back the swapped start.
pub proof fn lemma_step_undone(rule: u8, p: Seq<bool>, c: Seq<bool>)
    requires
        p.len() == c.len(),
    ensures
        step_cells(rule, step_cells(rule, p, c), c) == p,
{
    let s = step_cells(rule, p, c);
    assert(step_cells(rule, s, c) =~= p);
}

/// Evolving the swapped result of `k` steps for `k` more steps gives back the
/// swapped start.
pub proof fn lemma_evolve_swapped(rule: u8, k: nat, p: Seq<bool>, c: Seq<bool>)
    requires
        p.len() == c.len(),
    ensures
        ({
            let (a, b) = evolve_cells(rule, k, p, c);
            evolve_cells(rule, k, b, a) == (c, p)
        }),
    decreases k,
{
    if k > 0 {
        let (y0, y1) = evolve_cells(rule, (k - 1) as nat, p, c);
        lemma_evolve_len(rule, (k - 1) as nat, p, c);
        // evolve(k, x) = F(y) with y = evolve(k - 1, x); swapping F(y) and
        // taking one step gives the swap of y back.
        lemma_evolve_first_step(rule, (k - 1) as nat, step_cells(rule, y0, y1), y1);
        lemma_step_undone(rule, y0, y1);
        lemma_evolve_swapped(rule, (k - 1) as nat, p, c);
    }
}

/// Rule 0 gives every neighbourhood the output 0.
proof fn lemma_rule_zero_out(idx: u8)
    by (bit_vector)
    ensures
        (0u8 >> idx) & 1u8 != 1u8,
{
}

/// A step of rule 0 gives back the previous state.
proof fn lemma_rule_zero_step(x: Seq<bool>, y: Seq<bool>)
    requires
        x.len() == y.len(),
    ensures
        step_cells(0, x, y) == x,
{
    assert forall|i: int| 0 <= i < y.len() implies !#[trigger] apply_rule_cells(0, y)[i] by {
        lemma_rule_zero_out(
            crate::rule::neighbourhood_index(
                y[(i + y.len() - 1) % (y.len() as int)],
                y[i],
                y[(i + 1) % (y.len() as int)],
            ),
        );
    }
    assert(step_cells(0, x, y) =~= x);
}

/// Rule 0 gives every cell the state it had two steps before: `k` steps swap
/// the pair `k` times.
pub proof fn lemma_rule_zero_evolve(k: nat, p: Seq<bool>, c: Seq<bool>)
    requires
        p.len() == c.len(),
    ensures
        k % 2 == 0 ==> evolve_cells(0, k, p, c).0 == p && evolve_cells(0, k, p, c).1 == c,
        k % 2 == 1 ==> evolve_cells(0, k, p, c).0 == c && evolve_cells(0, k, p, c).1 == p,
    decreases k,
{
    if k > 0 {
        let j = (k - 1) as nat;
        lemma_rule_zero_evolve(j, p, c);
        let x = evolve_cells(0, j, p, c).0;
        let y = evolve_cells(0, j, p, c).1;
        assert(x.len() == y.len());
        lemma_rule_zero_step(x, y);
        assert(evolve_cells(0, k, p, c).0 == y);
        assert(evolve_cells(0, k, p, c).1 == x);
        assert(j % 2 == 0 <==> k % 2 == 1);
    }
}

/// Reversibility: reverse evolution by `k` steps undoes forward evolution by
/// `k` steps, for every rule and every pair of states of one length.
pub proof fn law_reverse_undoes_evolve(rule: u8, k: nat, p: Seq<bool>, c: Seq<bool>)
    requires
        p.len() == c.len(),
    ensures
        ({
            let (a, b) = evolve_cells(rule, k, p, c);
            reverse_cells(rule, k, a, b) == (p, c)
        }),
{
    lemma_evolve_swapped(rule, k, p, c);
}

/// Forward evolution by `k` steps undoes reverse evolution by `k` steps.
pub proof fn law_evolve_undoes_reverse(rule: u8, k: nat, p: Seq<bool>, c: Seq<bool>)
    requires
        p.len() == c.len(),
    ensures
        ({
            let (a, b) = reverse_cells(rule, k, p, c);
            evolve_cells(rule, k, a, b) == (p, c)
        }),
{
    lemma_evolve_swapped(rule, k, c, p);
}

/// Decryption inverts encryption: for every rule, step count, plaintext and
/// IV of one length, decrypting the ciphertext pair gives the plaintext back.
pub proof fn law_decrypt_encrypt(rule: u8, k: nat, m: Seq<bool>, iv: Seq<bool>)
    requires
        m.len() == iv.len(),
    ensures
        ({
            let (c0, c1) = encrypt_cells(rule, k, m, iv);
            decrypt_cells(rule, k, c0, c1, iv) == m
        }),
{
    let x = xor_cells(m, iv);
    law_reverse_undoes_evolve(rule, k, x, iv);
    assert(xor_cells(x, iv) =~= m);
}

/// Bit `idx` of an elementary rule's lookup table.
pub open spec fn rule_bit(rule: u8, idx: u8) -> bool {
    (rule >> idx) & 1u8 == 1u8
}

/// A rule is additive when its output on the exclusive or of two
/// neighbourhoods is the exclusive or of its outputs (rule 90, `l ^ r`, and
/// rule 150, `l ^ c ^ r`, are).
pub open spec fn additive_rule(rule: u8) -> bool {
    forall|x: u8, y: u8|
        x < 8 && y < 8 ==> #[trigger] rule_bit(rule, x ^ y) == (rule_bit(rule, x) != rule_bit(
            rule,
            y,
        ))
}

/// An additive rule's output is additive in the cells of the neighbourhood.
pub proof fn lemma_additive_rule_out(
    rule: u8,
    l1: bool,
    c1: bool,
    r1: bool,
    l2: bool,
    c2: bool,
    r2: bool,
)
    requires
        additive_rule(rule),
    ensures
        rule_out(rule, l1 != l2, c1 != c2, r1 != r2) == (rule_out(rule, l1, c1, r1) != rule_out(
            rule,
            l2,
            c2,
            r2,
        )),
{
    let x = crate::rule::neighbourhood_index(l1, c1, r1);
    let y = crate::rule::neighbourhood_index(l2, c2, r2);
    let z = crate::rule::neighbourhood_index(l1 != l2, c1 != c2, r1 != r2);
    assert(z == x ^ y && x < 8 && y < 8) by (bit_vector)
        requires
            x == ((if l1 { 4u8 } else { 0u8 }) + (if c1 { 2u8 } else { 0u8 }) + (if r1 {
                1u8
            } else {
                0u8
            })) as u8,
            y == ((if l2 { 4u8 } else { 0u8 }) + (if c2 { 2u8 } else { 0u8 }) + (if r2 {
                1u8
            } else {
                0u8
            })) as u8,
            z == ((if l1 != l2 { 4u8 } else { 0u8 }) + (if c1 != c2 { 2u8 } else { 0u8 }) + (if r1
                != r2 {
                1u8
            } else {
                0u8
            })) as u8,
    ;
    assert(rule_bit(rule, x ^ y) == (rule_bit(rule, x) != rule_bit(rule, y)));
}

/// Under an additive rule one step is additive in both states.
pub proof fn lemma_additive_step(rule: u8, p1: Seq<bool>, c1: Seq<bool>, p2: Seq<bool>, c2: Seq<bool>)
    requires
        additive_rule(rule),
        p1.len() == c1.len(),
        p2.len() == c1.len(),
        c2.len() == c1.len(),
    ensures
        step_cells(rule, xor_cells(p1, p2), xor_cells(c1, c2)) == xor_cells(
            step_cells(rule, p1, c1),
            step_cells(rule, p2, c2),
        ),
{
    let n = c1.len() as int;
    let c = xor_cells(c1, c2);
    assert forall|i: int| 0 <= i < n implies #[trigger] apply_rule_cells(rule, c)[i] == (
    apply_rule_cells(rule, c1)[i] != apply_rule_cells(rule, c2)[i]) by {
        lemma_additive_rule_out(
            rule,
            c1[(i + n - 1) % n],
            c1[i],
            c1[(i + 1) % n],
            c2[(i + n - 1) % n],
            c2[i],
            c2[(i + 1) % n],
        );
        vstd::arithmetic::div_mod::lemma_mod_bound(i + n - 1, n);
        vstd::arithmetic::div_mod::lemma_mod_bound(i + 1, n);
    }
    assert(step_cells(rule, xor_cells(p1, p2), c) =~= xor_cells(
        step_cells(rule, p1, c1),
        step_cells(rule, p2, c2),
    ));
}

/// Under an additive rule evolution is additive in the starting pair.
pub proof fn lemma_additive_evolve(
    rule: u8,
    k: nat,
    p1: Seq<bool>,
    c1: Seq<bool>,
    p2: Seq<bool>,
    c2: Seq<bool>,
)
    requires
        additive_rule(rule),
        p1.len() == c1.len(),
        p2.len() == c1.len(),
        c2.len() == c1.len(),
    ensures
        ({
            let (a1, b1) = evolve_cells(rule, k, p1, c1);
            let (a2, b2) = evolve_cells(rule, k, p2, c2);
            evolve_cells(rule, k, xor_cells(p1, p2), xor_cells(c1, c2)) == (
                xor_cells(a1, a2),
                xor_cells(b1, b2),
            )
        }),
    decreases k,
{
    if k > 0 {
        let j = (k - 1) as nat;
        lemma_additive_evolve(rule, j, p1, c1, p2, c2);
        lemma_evolve_len(rule, j, p1, c1);
        lemma_evolve_len(rule, j, p2, c2);
        let (a1, b1) = evolve_cells(rule, j, p1, c1);
        let (a2, b2) = evolve_cells(rule, j, p2, c2);
        lemma_additive_step(rule, a1, b1, a2, b2);
    }
}

/// XOR homomorphism: under an additive rule, the cell-wise exclusive or of
/// two ciphertext pairs decrypts to the exclusive or of the plaintexts and the
/// IV.
pub proof fn law_xor_homomorphism(rule: u8, k: nat, a: Seq<bool>, b: Seq<bool>, iv: Seq<bool>)
    requires
        additive_rule(rule),
        a.len() == iv.len(),
        b.len() == iv.len(),
    ensures
        ({
            let (ca0, ca1) = encrypt_cells(rule, k, a, iv);
            let (cb0, cb1) = encrypt_cells(rule, k, b, iv);
            decrypt_cells(rule, k, xor_cells(ca0, cb0), xor_cells(ca1, cb1), iv) == xor_cells(
                xor_cells(a, b),
                iv,
            )
        }),
{
    let xa = xor_cells(a, iv);
    let xb = xor_cells(b, iv);
    let (ca0, ca1) = evolve_cells(rule, k, xa, iv);
    let (cb0, cb1) = evolve_cells(rule, k, xb, iv);
    lemma_evolve_len(rule, k, xa, iv);
    lemma_evolve_len(rule, k, xb, iv);
    // Reverse evolution is evolution of the swapped pair, hence additive too.
    lemma_additive_evolve(rule, k, ca1, ca0, cb1, cb0);
    law_reverse_undoes_evolve(rule, k, xa, iv);
    law_reverse_undoes_evolve(rule, k, xb, iv);
    assert(xor_cells(xor_cells(xa, xb), iv) =~= xor_cells(xor_cells(a, b), iv));
}

/// With an all-zero IV, the exclusive or of two ciphertext pairs under an
/// additive rule decrypts to the exclusive or of the plaintexts.
pub proof fn law_xor_homomorphism_zero_iv(rule: u8, k: nat, a: Seq<bool>, b: Seq<bool>)
    requires
        additive_rule(rule),
        a.len() == b.len(),
    ensures
        ({
            let iv = Seq::new(a.len(), |i: int| false);
            let (ca0, ca1) = encrypt_cells(rule, k, a, iv);
            let (cb0, cb1) = encrypt_cells(rule, k, b, iv);
            decrypt_cells(rule, k, xor_cells(ca0, cb0), xor_cells(ca1, cb1), iv) == xor_cells(a, b)
        }),
{
    let iv = Seq::new(a.len(), |i: int| false);
    law_xor_homomorphism(rule, k, a, b, iv);
    assert(xor_cells(xor_cells(a, b), iv) =~= xor_cells(a, b));
}

} // verus!
