//! Reversible two-dimensional cellular automata on a torus, with von Neumann
//! and Moore neighbourhoods, and the encryption scheme built on them.
use vstd::prelude::*;
use crate::bits::{
    bit, lemma_extract_bit, lemma_extract_bit_u32, lemma_logic_bits, lemma_or_shifted_bit,
    lemma_pack5, lemma_pack9,
};
use crate::grid::{
    BitGrid, cell_of, last_mask, last_word_ok, shl_word, shr_word, xor_cells, lemma_cell_position,
    lemma_last_mask_bit, lemma_ring_index, lemma_shl_word_bit, lemma_shr_word_bit,
};
use crate::grid2d::{BitGrid2D, xor_cells_2d};

verus! {

/// A 2D Cellular Automaton rule representation.
/// For von Neumann neighborhood: 32-bit LUT (stored as u32).
/// For Moore neighborhood: 512-bit LUT (stored as [u64; 8]).
#[derive(Debug, PartialEq, Eq)]
pub enum CARule2D {
    VonNeumann(u32),
    Moore([u64; 8]),
}

impl Clone for CARule2D {
    fn clone(&self) -> (r: Self)
        ensures
            r == *self,
    {
        match self {
            CARule2D::VonNeumann(lut) => CARule2D::VonNeumann(*lut),
            CARule2D::Moore(lut) => CARule2D::Moore(*lut),
        }
    }
}

/// 1 for a set cell, 0 for a clear one.
#[verifier::opaque]
pub open spec fn b2n(b: bool) -> u64 {
    if b {
        1
    } else {
        0
    }
}

/// The weighted sum `16 a0 + 8 a1 + 4 a2 + 2 a3 + a4` of five one-bit values.
pub open spec fn idx5(a0: u64, a1: u64, a2: u64, a3: u64, a4: u64) -> u64 {
    (16 * a0 + 8 * a1 + 4 * a2 + 2 * a3 + a4) as u64
}

/// The weighted sum `256 a0 + 128 a1 + ... + a8` of nine one-bit values.
pub open spec fn idx9(a0: u64, a1: u64, a2: u64, a3: u64, a4: u64, a5: u64, a6: u64, a7: u64, a8: u64) -> u64 {
    (256 * a0 + 128 * a1 + 64 * a2 + 32 * a3 + 16 * a4 + 8 * a5 + 4 * a6 + 2 * a7 + 1 * a8) as u64
}

/// The position in a von Neumann table of the neighbourhood (up, down, left,
/// right, centre): `16 u + 8 d + 4 l + 2 r + c`.
pub open spec fn vn_index(u: bool, d: bool, l: bool, r: bool, c: bool) -> u64 {
    idx5(b2n(u), b2n(d), b2n(l), b2n(r), b2n(c))
}

/// The position in a Moore table of the neighbourhood read row by row from the
/// upper left to the lower right, the upper left being the most significant.
pub open spec fn moore_index(
    ul: bool,
    u: bool,
    ur: bool,
    l: bool,
    c: bool,
    r: bool,
    dl: bool,
    d: bool,
    dr: bool,
) -> u64 {
    idx9(b2n(ul), b2n(u), b2n(ur), b2n(l), b2n(c), b2n(r), b2n(dl), b2n(d), b2n(dr))
}

/// Entry `idx` of a 2D rule's lookup table (32 entries for von Neumann, 512
/// for Moore).
pub open spec fn table_bit(rule: CARule2D, idx: u64) -> bool {
    match rule {
        CARule2D::VonNeumann(lut) => (lut >> idx) & 1u32 == 1u32,
        CARule2D::Moore(lut) => bit(lut@[(idx / 64) as int], idx % 64),
    }
}

/// The number of entries of a 2D rule's lookup table.
pub open spec fn table_len(rule: CARule2D) -> u64 {
    match rule {
        CARule2D::VonNeumann(_) => 32,
        CARule2D::Moore(_) => 512,
    }
}

/// The new state a 2D rule gives a cell whose neighbourhood, read row by row
/// from the upper left, has the one-bit values `a0 .. a8`.
pub open spec fn rule2d_out_bits(rule: CARule2D, a0: u64, a1: u64, a2: u64, a3: u64, a4: u64, a5: u64, a6: u64, a7: u64, a8: u64) -> bool {
    match rule {
        CARule2D::VonNeumann(_) => table_bit(rule, idx5(a1, a7, a3, a5, a4)),
        CARule2D::Moore(_) => table_bit(rule, idx9(a0, a1, a2, a3, a4, a5, a6, a7, a8)),
    }
}

/// The new state a 2D rule gives a cell with the given neighbourhood.
pub open spec fn rule2d_out(
    rule: CARule2D,
    ul: bool,
    u: bool,
    ur: bool,
    l: bool,
    c: bool,
    r: bool,
    dl: bool,
    d: bool,
    dr: bool,
) -> bool {
    rule2d_out_bits(
        rule,
        b2n(ul),
        b2n(u),
        b2n(ur),
        b2n(l),
        b2n(c),
        b2n(r),
        b2n(dl),
        b2n(d),
        b2n(dr),
    )
}

/// The new state of cell `(y, x)` of the torus `s` of width `w`.
pub open spec fn cell_out_2d(rule: CARule2D, s: Seq<Seq<bool>>, w: nat, y: int, x: int) -> bool {
    let h = s.len() as int;
    let up = (y + h - 1) % h;
    let dn = (y + 1) % h;
    let lf = (x + w - 1) % (w as int);
    let rt = (x + 1) % (w as int);
    rule2d_out(
        rule,
        s[up][lf],
        s[up][x],
        s[up][rt],
        s[y][lf],
        s[y][x],
        s[y][rt],
        s[dn][lf],
        s[dn][x],
        s[dn][rt],
    )
}

/// One application of a 2D rule to every cell of a torus of width `w`.
pub open spec fn apply_rule_2d_cells(rule: CARule2D, s: Seq<Seq<bool>>, w: nat) -> Seq<Seq<bool>> {
    Seq::new(s.len(), |y: int| Seq::new(w, |x: int| cell_out_2d(rule, s, w, y, x)))
}

/// The second-order step on a torus.
pub open spec fn step_2d_cells(
    rule: CARule2D,
    w: nat,
    prev: Seq<Seq<bool>>,
    curr: Seq<Seq<bool>>,
) -> Seq<Seq<bool>> {
    xor_cells_2d(apply_rule_2d_cells(rule, curr, w), prev)
}

/// The pair `(previous, current)` after `k` second-order steps on a torus.
pub open spec fn evolve_2d_cells(
    rule: CARule2D,
    w: nat,
    k: nat,
    p: Seq<Seq<bool>>,
    c: Seq<Seq<bool>>,
) -> (Seq<Seq<bool>>, Seq<Seq<bool>>)
    decreases k,
{
    if k == 0 {
        (p, c)
    } else {
        let (a, b) = evolve_2d_cells(rule, w, (k - 1) as nat, p, c);
        (b, step_2d_cells(rule, w, a, b))
    }
}

/// Reverse evolution on a torus: swap, evolve forward, swap back.
pub open spec fn reverse_2d_cells(
    rule: CARule2D,
    w: nat,
    k: nat,
    p: Seq<Seq<bool>>,
    c: Seq<Seq<bool>>,
) -> (Seq<Seq<bool>>, Seq<Seq<bool>>) {
    let (a, b) = evolve_2d_cells(rule, w, k, c, p);
    (b, a)
}

/// The ciphertext pair of a 2D plaintext.
pub open spec fn encrypt_2d_cells(
    rule: CARule2D,
    w: nat,
    k: nat,
    m: Seq<Seq<bool>>,
    iv: Seq<Seq<bool>>,
) -> (Seq<Seq<bool>>, Seq<Seq<bool>>) {
    evolve_2d_cells(rule, w, k, xor_cells_2d(m, iv), iv)
}

/// The 2D plaintext that a ciphertext pair decrypts to.
pub open spec fn decrypt_2d_cells(
    rule: CARule2D,
    w: nat,
    k: nat,
    c0: Seq<Seq<bool>>,
    c1: Seq<Seq<bool>>,
    iv: Seq<Seq<bool>>,
) -> Seq<Seq<bool>> {
    xor_cells_2d(reverse_2d_cells(rule, w, k, c0, c1).0, iv)
}

/// Helper function to shift a single BitGrid row on-the-fly and return (l, c, r) words for index w.
fn get_shifted_words(grid_row: &BitGrid, w: usize) -> (r: (u64, u64, u64))
    requires
        grid_row.wf(),
        grid_row.size > 0,
        w < grid_row.cells.len(),
    ensures
        r.0 == shl_word(grid_row.cells@, grid_row.size as nat, w as int),
        r.1 == grid_row.cells@[w as int],
        r.2 == shr_word(grid_row.cells@, grid_row.size as nat, w as int),
{
    let k_len = grid_row.cells.len();
    let size = grid_row.size;
    let prev_w = if w == 0 {
        k_len - 1
    } else {
        w - 1
    };
    let next_w = if w == k_len - 1 {
        0
    } else {
        w + 1
    };

    let c_word = grid_row.cells[w];

    let carry_l = if w == 0 {
        let last_active_bit_idx = ((size - 1) % 64) as u64;
        (grid_row.cells[prev_w] >> last_active_bit_idx) & 1
    } else {
        grid_row.cells[prev_w] >> 63
    };
    let l = (c_word << 1) | carry_l;

    let carry_r = if w == k_len - 1 {
        grid_row.cells[0] & 1
    } else {
        grid_row.cells[next_w] & 1
    };
    let r = if w == k_len - 1 {
        let last_active_bit_idx = ((size - 1) % 64) as u64;
        (c_word >> 1) | (carry_r << last_active_bit_idx)
    } else {
        (c_word >> 1) | (carry_r << 63)
    };

    (l, c_word, r)
}

/// The bits of the shifted words of a row at cell `64 wi + b` are the row's
/// left neighbour, own state and right neighbour of that cell on the ring.
pub proof fn lemma_row_word_bits(row: BitGrid, wi: int, b: u64)
    requires
        row.wf(),
        row.size > 0,
        0 <= wi,
        b < 64,
        64 * wi + b < row.size,
    ensures
        ({
            let i = 64 * wi + b;
            let n = row.size as int;
            &&& wi < row.cells.len()
            &&& bit(shl_word(row.cells@, row.size as nat, wi), b) == row@[(i + n - 1) % n]
            &&& bit(row.cells@[wi], b) == row@[i]
            &&& bit(shr_word(row.cells@, row.size as nat, wi), b) == row@[(i + 1) % n]
        }),
{
    let i = 64 * wi + b;
    lemma_cell_position(i, row.size as nat);
    assert(i / 64 == wi && i % 64 == b as int);
    lemma_shl_word_bit(row, i);
    lemma_shr_word_bit(row, i);
}

/// A step's output word for line `y` and word `wi` holds, at each cell of the
/// line, the rule's output exclusive-or the previous state.
pub proof fn lemma_step_word_cells(
    rule: CARule2D,
    p: BitGrid2D,
    c: BitGrid2D,
    y: int,
    wi: int,
    out_word: u64,
    t_word: u64,
)
    requires
        p.wf(),
        c.wf(),
        p.height == c.height,
        p.width == c.width,
        c.width > 0,
        0 <= y < c.height,
        0 <= wi < c.rows@[y].cells.len(),
        forall|b: u64|
            b < 64 && 64 * wi + b < c.width ==> #[trigger] bit(out_word, b) == cell_out_2d(
                rule,
                c@,
                c.width as nat,
                y,
                64 * wi + b,
            ),
        t_word == (if wi == c.rows@[y].cells.len() - 1 {
            out_word & last_mask(c.width as nat)
        } else {
            out_word
        }) ^ p.rows@[y].cells@[wi],
    ensures
        forall|i: int|
            64 * wi <= i < 64 * wi + 64 && i < c.width ==> #[trigger] bit(t_word, (i % 64) as u64)
                == step_2d_cells(rule, c.width as nat, p@, c@)[y][i],
        wi == c.rows@[y].cells.len() - 1 ==> last_word_ok(t_word, c.width as nat),
{
    let n = c.width as nat;
    let k = c.rows@[y].cells.len() as int;
    assert forall|i: int| 64 * wi <= i < 64 * wi + 64 && i < c.width implies #[trigger] bit(
        t_word,
        (i % 64) as u64,
    ) == step_2d_cells(rule, c.width as nat, p@, c@)[y][i] by {
        lemma_cell_position(i, n);
        let b = (i % 64) as u64;
        assert(i == 64 * wi + b);
        let o = if wi == k - 1 {
            out_word & last_mask(n)
        } else {
            out_word
        };
        if wi == k - 1 {
            lemma_last_mask_bit(out_word, n, b);
        }
        assert(bit(o, b) == bit(out_word, b));
        lemma_logic_bits(o, p.rows@[y].cells@[wi], b);
        assert(p.rows@[y].wf());
        assert(cell_of(p.rows@[y].cells@, i) == p@[y][i]);
    }
    if wi == k - 1 {
        lemma_last_mask_bit(out_word, n, 0);
        let x = out_word & last_mask(n);
        let z = p.rows@[y].cells@[wi];
        assert(p.rows@[y].wf());
        if n % 64 != 0 {
            let m = (n % 64) as u64;
            crate::bits::lemma_word_facts(x, z, m, 0);
        }
    }
}

pub struct ReversibleCA2D {
    pub rule: CARule2D,
    pub steps: usize,
}

impl ReversibleCA2D {
    pub fn new(rule: CARule2D, steps: usize) -> (r: Self)
        ensures
            r.rule == rule,
            r.steps == steps,
    {
        ReversibleCA2D { rule, steps }
    }

    /// Apply rule in-place step: `temp = apply_rule(c) ^ p`
    #[verifier::rlimit(50)]
    fn apply_rule_inplace_step(&self, p: &BitGrid2D, c: &BitGrid2D, temp: &mut BitGrid2D)
        requires
            c.wf(),
            p.wf(),
            old(temp).wf(),
            p.height == c.height,
            p.width == c.width,
            old(temp).height == c.height,
            old(temp).width == c.width,
            c.width + 63 <= usize::MAX,
        ensures
            final(temp).wf(),
            final(temp).height == c.height,
            final(temp).width == c.width,
            final(temp)@ == step_2d_cells(self.rule, c.width as nat, p@, c@),
    {
        let h = c.height;
        let w_cells = (c.width + 63) / 64;
        let ghost n = c.width as nat;
        let ghost target = step_2d_cells(self.rule, n, p@, c@);

        for y in 0..h
            invariant
                h == c.height,
                c.wf(),
                p.wf(),
                temp.wf(),
                p.height == h,
                p.width == c.width,
                temp.height == h,
                temp.width == c.width,
                n == c.width,
                w_cells == (c.width + 63) / 64,
                target == step_2d_cells(self.rule, n, p@, c@),
                forall|yy: int| 0 <= yy < y ==> #[trigger] temp@[yy] == target[yy],
        {
            let u_idx = if y == 0 {
                h - 1
            } else {
                y - 1
            };
            let d_idx = if y == h - 1 {
                0
            } else {
                y + 1
            };

            let row_u = &c.rows[u_idx];
            let row_d = &c.rows[d_idx];
            let row_c = &c.rows[y];
            proof {
                lemma_ring_index(y as int, h as int);
                assert(row_u.wf() && row_d.wf() && row_c.wf());
                assert(temp.rows@[y as int].wf());
            }

            for w in 0..w_cells
                invariant
                    h == c.height,
                    0 <= y < h,
                    c.wf(),
                    p.wf(),
                    temp.wf(),
                    p.height == h,
                    p.width == c.width,
                    temp.height == h,
                    temp.width == c.width,
                    w_cells > 0 ==> c.width > 0,
                    n == c.width,
                    w_cells == (c.width + 63) / 64,
                    target == step_2d_cells(self.rule, n, p@, c@),
                    *row_u == c.rows@[u_idx as int],
                    *row_d == c.rows@[d_idx as int],
                    *row_c == c.rows@[y as int],
                    u_idx == (y + h - 1) % (h as int),
                    d_idx == (y + 1) % (h as int),
                    forall|yy: int| 0 <= yy < y ==> #[trigger] temp@[yy] == target[yy],
                    forall|i: int|
                        0 <= i < 64 * w && i < n ==> #[trigger] cell_of(
                            temp.rows@[y as int].cells@,
                            i,
                        ) == target[y as int][i],
            {
                let (l_c, c_word, r_c) = get_shifted_words(row_c, w);

                let mut out_word = 0u64;
                proof {
                    assert forall|bb: u64| bb < 64 implies !#[trigger] bit(out_word, bb) by {
                        lemma_logic_bits(0, 0, bb);
                    }
                }

                match &self.rule {
                    CARule2D::VonNeumann(rule_lut) => {
                        let (_, u_word, _) = get_shifted_words(row_u, w);
                        let (_, d_word, _) = get_shifted_words(row_d, w);

                        for b in 0u64..64
                            invariant
                                self.rule == CARule2D::VonNeumann(*rule_lut),
                                forall|bb: u64|
                                    bb < b ==> #[trigger] bit(out_word, bb) == rule2d_out(
                                        self.rule,
                                        false,
                                        bit(u_word, bb),
                                        false,
                                        bit(l_c, bb),
                                        bit(c_word, bb),
                                        bit(r_c, bb),
                                        false,
                                        bit(d_word, bb),
                                        false,
                                    ),
                                forall|bb: u64| b <= bb < 64 ==> !#[trigger] bit(out_word, bb),
                        {
                            let bit_u = (u_word >> b) & 1;
                            let bit_d = (d_word >> b) & 1;
                            let bit_l = (l_c >> b) & 1;
                            let bit_r = (r_c >> b) & 1;
                            let bit_c = (c_word >> b) & 1;
                            let lut_idx = (bit_u << 4) | (bit_d << 3) | (bit_l << 2) | (bit_r << 1)
                                | bit_c;
                            proof {
                                lemma_extract_bit(u_word, b);
                                lemma_extract_bit(d_word, b);
                                lemma_extract_bit(l_c, b);
                                lemma_extract_bit(r_c, b);
                                lemma_extract_bit(c_word, b);
                                lemma_pack5(bit_u, bit_d, bit_l, bit_r, bit_c);
                                lemma_b2n_of(bit_u, bit(u_word, b));
                                lemma_b2n_of(bit_d, bit(d_word, b));
                                lemma_b2n_of(bit_l, bit(l_c, b));
                                lemma_b2n_of(bit_r, bit(r_c, b));
                                lemma_b2n_of(bit_c, bit(c_word, b));
                                assert(lut_idx == vn_index(
                                    bit(u_word, b),
                                    bit(d_word, b),
                                    bit(l_c, b),
                                    bit(r_c, b),
                                    bit(c_word, b),
                                ));
                                lemma_extract_bit_u32(*rule_lut, lut_idx);
                            }
                            let bit_out = (*rule_lut >> lut_idx) & 1;
                            proof {
                                assert forall|bb: u64| bb < 64 implies #[trigger] bit(
                                    out_word | ((bit_out as u64) << b),
                                    bb,
                                ) == (bit(out_word, bb) || (bb == b && bit_out == 1)) by {
                                    lemma_or_shifted_bit(out_word, bit_out as u64, b, bb);
                                }
                            }
                            out_word |= (bit_out as u64) << b;
                        }
                        proof {
                            assert forall|b: u64| b < 64 && 64 * w + b < n implies #[trigger] bit(
                                out_word,
                                b,
                            ) == cell_out_2d(self.rule, c@, n, y as int, 64 * w + b) by {
                                lemma_row_word_bits(*row_u, w as int, b);
                                lemma_row_word_bits(*row_c, w as int, b);
                                lemma_row_word_bits(*row_d, w as int, b);
                            }
                        }
                    },
                    CARule2D::Moore(rule_lut) => {
                        let (ul_word, u_word, ur_word) = get_shifted_words(row_u, w);
                        let (dl_word, d_word, dr_word) = get_shifted_words(row_d, w);

                        for b in 0u64..64
                            invariant
                                self.rule == CARule2D::Moore(*rule_lut),
                                forall|bb: u64|
                                    bb < b ==> #[trigger] bit(out_word, bb) == rule2d_out(
                                        self.rule,
                                        bit(ul_word, bb),
                                        bit(u_word, bb),
                                        bit(ur_word, bb),
                                        bit(l_c, bb),
                                        bit(c_word, bb),
                                        bit(r_c, bb),
                                        bit(dl_word, bb),
                                        bit(d_word, bb),
                                        bit(dr_word, bb),
                                    ),
                                forall|bb: u64| b <= bb < 64 ==> !#[trigger] bit(out_word, bb),
                        {
                            let bit_ul = (ul_word >> b) & 1;
                            let bit_u = (u_word >> b) & 1;
                            let bit_ur = (ur_word >> b) & 1;
                            let bit_l = (l_c >> b) & 1;
                            let bit_c = (c_word >> b) & 1;
                            let bit_r = (r_c >> b) & 1;
                            let bit_dl = (dl_word >> b) & 1;
                            let bit_d = (d_word >> b) & 1;
                            let bit_dr = (dr_word >> b) & 1;

                            let lut_idx = (bit_ul << 8) | (bit_u << 7) | (bit_ur << 6) | (bit_l
                                << 5) | (bit_c << 4) | (bit_r << 3) | (bit_dl << 2) | (bit_d << 1)
                                | bit_dr;
                            proof {
                                lemma_extract_bit(ul_word, b);
                                lemma_extract_bit(u_word, b);
                                lemma_extract_bit(ur_word, b);
                                lemma_extract_bit(l_c, b);
                                lemma_extract_bit(c_word, b);
                                lemma_extract_bit(r_c, b);
                                lemma_extract_bit(dl_word, b);
                                lemma_extract_bit(d_word, b);
                                lemma_extract_bit(dr_word, b);
                                lemma_b2n_of(bit_ul, bit(ul_word, b));
                                lemma_b2n_of(bit_u, bit(u_word, b));
                                lemma_b2n_of(bit_ur, bit(ur_word, b));
                                lemma_b2n_of(bit_l, bit(l_c, b));
                                lemma_b2n_of(bit_c, bit(c_word, b));
                                lemma_b2n_of(bit_r, bit(r_c, b));
                                lemma_b2n_of(bit_dl, bit(dl_word, b));
                                lemma_b2n_of(bit_d, bit(d_word, b));
                                lemma_b2n_of(bit_dr, bit(dr_word, b));
                                lemma_pack9(
                                    bit_ul,
                                    bit_u,
                                    bit_ur,
                                    bit_l,
                                    bit_c,
                                    bit_r,
                                    bit_dl,
                                    bit_d,
                                    bit_dr,
                                );
                                assert(lut_idx == moore_index(
                                    bit(ul_word, b),
                                    bit(u_word, b),
                                    bit(ur_word, b),
                                    bit(l_c, b),
                                    bit(c_word, b),
                                    bit(r_c, b),
                                    bit(dl_word, b),
                                    bit(d_word, b),
                                    bit(dr_word, b),
                                ));
                            }
                            let word_idx = lut_idx / 64;
                            let bit_idx = lut_idx % 64;
                            let bit_out = (rule_lut[word_idx as usize] >> bit_idx) & 1;
                            proof {
                                lemma_extract_bit(rule_lut@[word_idx as int], bit_idx);
                                assert forall|bb: u64| bb < 64 implies #[trigger] bit(
                                    out_word | ((bit_out as u64) << b),
                                    bb,
                                ) == (bit(out_word, bb) || (bb == b && bit_out == 1)) by {
                                    lemma_or_shifted_bit(out_word, bit_out as u64, b, bb);
                                }
                            }
                            out_word |= (bit_out as u64) << b;
                        }
                        proof {
                            assert forall|b: u64| b < 64 && 64 * w + b < n implies #[trigger] bit(
                                out_word,
                                b,
                            ) == cell_out_2d(self.rule, c@, n, y as int, 64 * w + b) by {
                                lemma_row_word_bits(*row_u, w as int, b);
                                lemma_row_word_bits(*row_c, w as int, b);
                                lemma_row_word_bits(*row_d, w as int, b);
                            }
                        }
                    },
                }

                let ghost pre = out_word;
                if w == w_cells - 1 {
                    let last_word_mask = BitGrid::last_word_mask(c.width);
                    out_word &= last_word_mask;
                }
                let t_word = out_word ^ p.rows[y].cells[w];
                proof {
                    assert(p.rows@[y as int].wf());
                    lemma_step_word_cells(self.rule, *p, *c, y as int, w as int, pre, t_word);
                }
                let ghost before = temp.rows@[y as int];
                let ghost rows_before = temp.rows@;
                let ghost view_before = temp@;
                temp.rows[y].cells.set(w, t_word);
                proof {
                    let row = temp.rows@[y as int];
                    assert(row.size == before.size);
                    assert(row.cells@ == before.cells@.update(w as int, t_word));
                    assert forall|yy: int| 0 <= yy < temp.rows.len() && yy != y implies #[trigger] temp.rows@[yy]
                        == rows_before[yy] by {}
                    assert forall|i: int| 0 <= i < 64 * (w + 1) && i < n implies #[trigger] cell_of(
                        row.cells@,
                        i,
                    ) == target[y as int][i] by {
                        lemma_cell_position(i, n);
                        if i >= 64 * w {
                            assert(i / 64 == w);
                            assert(bit(t_word, (i % 64) as u64) == target[y as int][i]);
                        } else {
                            assert(cell_of(before.cells@, i) == target[y as int][i]);
                            assert(row.cells@[i / 64] == before.cells@[i / 64]);
                        }
                    }
                    assert forall|yy: int| 0 <= yy < y implies #[trigger] temp@[yy] == target[yy] by {
                        assert(temp.rows@[yy] == rows_before[yy]);
                        assert(view_before[yy] == target[yy]);
                        assert(view_before[yy] == rows_before[yy]@);
                    }
                    assert(row.wf());
                    assert forall|yy: int| 0 <= yy < temp.height implies (#[trigger] temp.rows@[yy]).wf()
                        && temp.rows@[yy].size == temp.width by {
                        if yy != y {
                            assert(temp.rows@[yy] == rows_before[yy]);
                        }
                    }
                }
            }
            proof {
                let row = temp.rows@[y as int];
                assert forall|i: int| 0 <= i < n implies #[trigger] row@[i] == target[y as int][i] by {
                    lemma_cell_position(i, n);
                }
                assert(temp@[y as int] =~= target[y as int]);
            }
        }
        proof {
            assert(temp@ =~= target);
        }
    }

    /// Evolve forward by `steps` steps.
    pub fn evolve(&self, prev: &BitGrid2D, curr: &BitGrid2D) -> (r: (BitGrid2D, BitGrid2D))
        requires
            prev.width + 63 <= usize::MAX,
            self.steps > 0 ==> {
                &&& prev.wf()
                &&& curr.wf()
                &&& prev.height == curr.height
                &&& prev.width == curr.width
            },
        ensures
            r.0.height == prev.height,
            r.0.width == prev.width,
            r.1.height == curr.height,
            r.1.width == curr.width,
            prev.wf() && curr.wf() ==> r.0.wf() && r.1.wf(),
            prev.rows.len() == prev.height && curr.rows.len() == curr.height ==> (r.0@, r.1@)
                == evolve_2d_cells(
                self.rule,
                prev.width as nat,
                self.steps as nat,
                prev@,
                curr@,
            ),
    {
        let mut p = prev.clone();
        let mut c = curr.clone();
        let mut temp = BitGrid2D::new(prev.height, prev.width);
        proof {
            if prev.rows.len() == prev.height && curr.rows.len() == curr.height {
                assert(p@ =~= prev@);
                assert(c@ =~= curr@);
            }
            if prev.wf() {
                assert(p.wf());
            }
            if curr.wf() {
                assert(c.wf());
            }
        }
        let mut i: usize = 0;
        while i < self.steps
            invariant
                i <= self.steps,
                prev.width + 63 <= usize::MAX,
                self.steps > 0 ==> {
                    &&& p.wf()
                    &&& c.wf()
                    &&& p.height == prev.height
                    &&& c.height == prev.height
                    &&& c.width == prev.width
                },
                temp.wf(),
                temp.height == prev.height,
                temp.width == prev.width,
                prev.wf() && curr.wf() ==> p.wf() && c.wf(),
                p.height == prev.height,
                p.width == prev.width,
                c.height == curr.height,
                c.width == curr.width,
                prev.rows.len() == prev.height && curr.rows.len() == curr.height ==> (p@, c@)
                    == evolve_2d_cells(self.rule, prev.width as nat, i as nat, prev@, curr@),
            decreases self.steps - i,
        {
            self.apply_rule_inplace_step(&p, &c, &mut temp);
            std::mem::swap(&mut p, &mut c);
            std::mem::swap(&mut c, &mut temp);
            i = i + 1;
        }
        (p, c)
    }

    /// Reverse-evolve by `steps` steps.
    pub fn reverse(&self, prev: &BitGrid2D, curr: &BitGrid2D) -> (r: (BitGrid2D, BitGrid2D))
        requires
            curr.width + 63 <= usize::MAX,
            self.steps > 0 ==> {
                &&& prev.wf()
                &&& curr.wf()
                &&& prev.height == curr.height
                &&& prev.width == curr.width
            },
        ensures
            r.0.height == prev.height,
            r.0.width == prev.width,
            r.1.height == curr.height,
            r.1.width == curr.width,
            prev.wf() && curr.wf() ==> r.0.wf() && r.1.wf(),
            prev.rows.len() == prev.height && curr.rows.len() == curr.height ==> (r.0@, r.1@)
                == reverse_2d_cells(
                self.rule,
                curr.width as nat,
                self.steps as nat,
                prev@,
                curr@,
            ),
    {
        let (p, c) = self.evolve(curr, prev);
        (c, p)
    }
}

/// Encrypt a 2D plaintext grid.
pub fn encrypt_2d(plaintext: &BitGrid2D, iv: &BitGrid2D, rule: &CARule2D, steps: usize) -> (r: (
    BitGrid2D,
    BitGrid2D,
))
    requires
        plaintext.wf(),
        iv.wf(),
        plaintext.height == iv.height,
        plaintext.width == iv.width,
        iv.width + 63 <= usize::MAX,
    ensures
        r.0.wf(),
        r.1.wf(),
        r.0.height == iv.height,
        r.0.width == iv.width,
        r.1.height == iv.height,
        r.1.width == iv.width,
        (r.0@, r.1@) == encrypt_2d_cells(*rule, iv.width as nat, steps as nat, plaintext@, iv@),
{
    let initial_prev = plaintext ^ iv;
    let initial_curr = iv.clone();
    let ca = ReversibleCA2D::new(rule.clone(), steps);
    proof {
        assert(initial_curr@ =~= iv@);
        assert(initial_curr.wf());
    }
    ca.evolve(&initial_prev, &initial_curr)
}

/// Decrypt a 2D ciphertext grid pair.
pub fn decrypt_2d(c0: &BitGrid2D, c1: &BitGrid2D, iv: &BitGrid2D, rule: &CARule2D, steps: usize) -> (r:
    BitGrid2D)
    requires
        c0.wf(),
        c1.wf(),
        iv.wf(),
        c0.height == c1.height,
        c0.width == c1.width,
        c0.height == iv.height,
        c0.width == iv.width,
        c1.width + 63 <= usize::MAX,
    ensures
        r.wf(),
        r.height == iv.height,
        r.width == iv.width,
        r@ == decrypt_2d_cells(*rule, iv.width as nat, steps as nat, c0@, c1@, iv@),
{
    let ca = ReversibleCA2D::new(rule.clone(), steps);
    let (orig_prev, _orig_curr) = ca.reverse(c0, c1);
    &orig_prev ^ iv
}

/// `s` has `h` lines of `w` cells.
pub open spec fn shaped(s: Seq<Seq<bool>>, h: nat, w: nat) -> bool {
    &&& s.len() == h
    &&& forall|y: int| 0 <= y < h ==> #[trigger] s[y].len() == w
}

/// Evolution on a torus keeps the shape of both states.
pub proof fn lemma_evolve_2d_shape(
    rule: CARule2D,
    w: nat,
    k: nat,
    p: Seq<Seq<bool>>,
    c: Seq<Seq<bool>>,
)
    requires
        shaped(p, c.len(), w),
        shaped(c, c.len(), w),
    ensures
        shaped(evolve_2d_cells(rule, w, k, p, c).0, c.len(), w),
        shaped(evolve_2d_cells(rule, w, k, p, c).1, c.len(), w),
    decreases k,
{
    if k > 0 {
        lemma_evolve_2d_shape(rule, w, (k - 1) as nat, p, c);
    }
}

/// Evolving `k + 1` steps on a torus is one step followed by `k` steps.
pub proof fn lemma_evolve_2d_first_step(
    rule: CARule2D,
    w: nat,
    k: nat,
    p: Seq<Seq<bool>>,
    c: Seq<Seq<bool>>,
)
    ensures
        evolve_2d_cells(rule, w, k + 1, p, c) == evolve_2d_cells(
            rule,
            w,
            k,
            c,
            step_2d_cells(rule, w, p, c),
        ),
    decreases k,
{
    reveal_with_fuel(evolve_2d_cells, 2);
    if k > 0 {
        lemma_evolve_2d_first_step(rule, w, (k - 1) as nat, p, c);
    }
}

/// One step on the swapped result of a step gives back the swapped start.
pub proof fn lemma_step_2d_undone(rule: CARule2D, w: nat, p: Seq<Seq<bool>>, c: Seq<Seq<bool>>)
    requires
        shaped(p, c.len(), w),
        shaped(c, c.len(), w),
    ensures
        step_2d_cells(rule, w, step_2d_cells(rule, w, p, c), c) == p,
{
    let st = step_2d_cells(rule, w, p, c);
    let r = step_2d_cells(rule, w, st, c);
    assert forall|y: int| 0 <= y < c.len() implies #[trigger] r[y] == p[y] by {
        assert(r[y] =~= p[y]);
    }
    assert(r =~= p);
}

/// Evolving the swapped result of `k` steps for `k` more steps gives back the
/// swapped start, on a torus.
pub proof fn lemma_evolve_2d_swapped(
    rule: CARule2D,
    w: nat,
    k: nat,
    p: Seq<Seq<bool>>,
    c: Seq<Seq<bool>>,
)
    requires
        shaped(p, c.len(), w),
        shaped(c, c.len(), w),
    ensures
        ({
            let (a, b) = evolve_2d_cells(rule, w, k, p, c);
            evolve_2d_cells(rule, w, k, b, a) == (c, p)
        }),
    decreases k,
{
    if k > 0 {
        let (y0, y1) = evolve_2d_cells(rule, w, (k - 1) as nat, p, c);
        lemma_evolve_2d_shape(rule, w, (k - 1) as nat, p, c);
        lemma_evolve_2d_first_step(rule, w, (k - 1) as nat, step_2d_cells(rule, w, y0, y1), y1);
        lemma_step_2d_undone(rule, w, y0, y1);
        lemma_evolve_2d_swapped(rule, w, (k - 1) as nat, p, c);
    }
}

/// Reversibility on a torus: reverse evolution by `k` steps undoes forward
/// evolution by `k` steps, for every 2D rule and pair of states of one shape.
pub proof fn law_reverse_undoes_evolve_2d(
    rule: CARule2D,
    w: nat,
    k: nat,
    p: Seq<Seq<bool>>,
    c: Seq<Seq<bool>>,
)
    requires
        shaped(p, c.len(), w),
        shaped(c, c.len(), w),
    ensures
        ({
            let (a, b) = evolve_2d_cells(rule, w, k, p, c);
            reverse_2d_cells(rule, w, k, a, b) == (p, c)
        }),
{
    lemma_evolve_2d_swapped(rule, w, k, p, c);
}

/// Forward evolution by `k` steps undoes reverse evolution by `k` steps on a
/// torus, for every 2D rule and pair of states of one shape.
pub proof fn law_evolve_undoes_reverse_2d(
    rule: CARule2D,
    w: nat,
    k: nat,
    p: Seq<Seq<bool>>,
    c: Seq<Seq<bool>>,
)
    requires
        shaped(p, c.len(), w),
        shaped(c, c.len(), w),
    ensures
        ({
            let (a, b) = reverse_2d_cells(rule, w, k, p, c);
            evolve_2d_cells(rule, w, k, a, b) == (p, c)
        }),
{
    lemma_evolve_2d_swapped(rule, w, k, c, p);
}

/// Decryption inverts encryption on a torus: decrypting the ciphertext pair of
/// a plaintext gives the plaintext back.
pub proof fn law_decrypt_encrypt_2d(
    rule: CARule2D,
    w: nat,
    k: nat,
    m: Seq<Seq<bool>>,
    iv: Seq<Seq<bool>>,
)
    requires
        shaped(m, iv.len(), w),
        shaped(iv, iv.len(), w),
    ensures
        ({
            let (c0, c1) = encrypt_2d_cells(rule, w, k, m, iv);
            decrypt_2d_cells(rule, w, k, c0, c1, iv) == m
        }),
{
    let x = xor_cells_2d(m, iv);
    law_reverse_undoes_evolve_2d(rule, w, k, x, iv);
    let d = xor_cells_2d(x, iv);
    assert forall|y: int| 0 <= y < iv.len() implies #[trigger] d[y] == m[y] by {
        assert(d[y] =~= m[y]);
    }
    assert(d =~= m);
}

/// A one-bit value is `b2n` of the cell it stands for.
pub proof fn lemma_b2n_of(x: u64, bb: bool)
    requires
        x <= 1,
        (x == 1) == bb,
    ensures
        b2n(bb) == x,
{
    reveal(b2n);
}

/// A 2D rule is additive when its output on the cell-wise exclusive or of two
/// neighbourhoods is the exclusive or of its outputs: its table entry at the
/// exclusive or of two positions is the exclusive or of the entries (the
/// parity of the five von Neumann cells is such a rule).
pub open spec fn additive_rule_2d(rule: CARule2D) -> bool {
    forall|x: u64, y: u64|
        x < table_len(rule) && y < table_len(rule) ==> #[trigger] table_bit(rule, x ^ y) == (
        table_bit(rule, x) != table_bit(rule, y))
}

/// `b2n` turns exclusive or of cells into exclusive or of bits.
pub proof fn lemma_b2n_xor(x: bool, y: bool)
    ensures
        b2n(x != y) == b2n(x) ^ b2n(y),
        b2n(x) <= 1,
        b2n(y) <= 1,
{
    reveal(b2n);
    crate::bits::lemma_small_xor();
}

/// Under an additive 2D rule one step is additive in both states.
pub proof fn lemma_additive_step_2d(
    rule: CARule2D,
    w: nat,
    p1: Seq<Seq<bool>>,
    c1: Seq<Seq<bool>>,
    p2: Seq<Seq<bool>>,
    c2: Seq<Seq<bool>>,
)
    requires
        additive_rule_2d(rule),
        shaped(p1, c1.len(), w),
        shaped(c1, c1.len(), w),
        shaped(p2, c1.len(), w),
        shaped(c2, c1.len(), w),
    ensures
        step_2d_cells(rule, w, xor_cells_2d(p1, p2), xor_cells_2d(c1, c2)) == xor_cells_2d(
            step_2d_cells(rule, w, p1, c1),
            step_2d_cells(rule, w, p2, c2),
        ),
{
    let h = c1.len() as int;
    let wi = w as int;
    let c = xor_cells_2d(c1, c2);
    let lhs = step_2d_cells(rule, w, xor_cells_2d(p1, p2), c);
    let rhs = xor_cells_2d(step_2d_cells(rule, w, p1, c1), step_2d_cells(rule, w, p2, c2));
    assert forall|y: int| 0 <= y < h implies #[trigger] lhs[y] == rhs[y] by {
        assert forall|x: int| 0 <= x < wi implies #[trigger] lhs[y][x] == rhs[y][x] by {
            lemma_additive_cell(rule, w, c1, c2, y, x);
        }
        assert(lhs[y] =~= rhs[y]);
    }
    assert(lhs =~= rhs);
}

/// Under an additive 2D rule the new state of one cell is additive in the
/// current state.
pub proof fn lemma_additive_cell(
    rule: CARule2D,
    w: nat,
    c1: Seq<Seq<bool>>,
    c2: Seq<Seq<bool>>,
    y: int,
    x: int,
)
    requires
        additive_rule_2d(rule),
        shaped(c1, c1.len(), w),
        shaped(c2, c1.len(), w),
        0 <= y < c1.len(),
        0 <= x < w,
    ensures
        cell_out_2d(rule, xor_cells_2d(c1, c2), w, y, x) == (cell_out_2d(rule, c1, w, y, x)
            != cell_out_2d(rule, c2, w, y, x)),
{
    let h = c1.len() as int;
    let wi = w as int;
    let up = (y + h - 1) % h;
    let dn = (y + 1) % h;
    let lf = (x + wi - 1) % wi;
    let rt = (x + 1) % wi;
    lemma_ring_index(y, h);
    lemma_ring_index(x, wi);
    lemma_xor_cell_b2n(c1, c2, up, lf);
    lemma_xor_cell_b2n(c1, c2, up, x);
    lemma_xor_cell_b2n(c1, c2, up, rt);
    lemma_xor_cell_b2n(c1, c2, y, lf);
    lemma_xor_cell_b2n(c1, c2, y, x);
    lemma_xor_cell_b2n(c1, c2, y, rt);
    lemma_xor_cell_b2n(c1, c2, dn, lf);
    lemma_xor_cell_b2n(c1, c2, dn, x);
    lemma_xor_cell_b2n(c1, c2, dn, rt);
    lemma_additive_table(
        rule,
        b2n(c1[up][lf]),
        b2n(c1[up][x]),
        b2n(c1[up][rt]),
        b2n(c1[y][lf]),
        b2n(c1[y][x]),
        b2n(c1[y][rt]),
        b2n(c1[dn][lf]),
        b2n(c1[dn][x]),
        b2n(c1[dn][rt]),
        b2n(c2[up][lf]),
        b2n(c2[up][x]),
        b2n(c2[up][rt]),
        b2n(c2[y][lf]),
        b2n(c2[y][x]),
        b2n(c2[y][rt]),
        b2n(c2[dn][lf]),
        b2n(c2[dn][x]),
        b2n(c2[dn][rt]),
    );
}

/// A cell of the exclusive or of two grids, as a bit, is the exclusive or of
/// the cells as bits.
pub proof fn lemma_xor_cell_b2n(c1: Seq<Seq<bool>>, c2: Seq<Seq<bool>>, r: int, q: int)
    requires
        0 <= r < c1.len(),
        c2.len() == c1.len(),
        0 <= q < c1[r].len(),
        c2[r].len() == c1[r].len(),
    ensures
        b2n(xor_cells_2d(c1, c2)[r][q]) == b2n(c1[r][q]) ^ b2n(c2[r][q]),
        b2n(c1[r][q]) <= 1,
        b2n(c2[r][q]) <= 1,
{
    lemma_b2n_xor(c1[r][q], c2[r][q]);
    assert(xor_cells_2d(c1, c2)[r][q] == (c1[r][q] != c2[r][q]));
}

/// Under an additive 2D rule evolution is additive in the starting pair.
pub proof fn lemma_additive_evolve_2d(
    rule: CARule2D,
    w: nat,
    k: nat,
    p1: Seq<Seq<bool>>,
    c1: Seq<Seq<bool>>,
    p2: Seq<Seq<bool>>,
    c2: Seq<Seq<bool>>,
)
    requires
        additive_rule_2d(rule),
        shaped(p1, c1.len(), w),
        shaped(c1, c1.len(), w),
        shaped(p2, c1.len(), w),
        shaped(c2, c1.len(), w),
    ensures
        ({
            let (a1, b1) = evolve_2d_cells(rule, w, k, p1, c1);
            let (a2, b2) = evolve_2d_cells(rule, w, k, p2, c2);
            evolve_2d_cells(rule, w, k, xor_cells_2d(p1, p2), xor_cells_2d(c1, c2)) == (
                xor_cells_2d(a1, a2),
                xor_cells_2d(b1, b2),
            )
        }),
    decreases k,
{
    if k > 0 {
        let j = (k - 1) as nat;
        lemma_additive_evolve_2d(rule, w, j, p1, c1, p2, c2);
        lemma_evolve_2d_shape(rule, w, j, p1, c1);
        lemma_evolve_2d_shape(rule, w, j, p2, c2);
        let (a1, b1) = evolve_2d_cells(rule, w, j, p1, c1);
        let (a2, b2) = evolve_2d_cells(rule, w, j, p2, c2);
        lemma_additive_step_2d(rule, w, a1, b1, a2, b2);
    }
}

/// The cell-wise exclusive or of two grids of one shape keeps that shape.
pub proof fn lemma_xor_2d_shape(a: Seq<Seq<bool>>, b: Seq<Seq<bool>>, h: nat, w: nat)
    requires
        shaped(a, h, w),
        shaped(b, h, w),
    ensures
        shaped(xor_cells_2d(a, b), h, w),
{
}

/// XOR homomorphism on a torus: under an additive 2D rule, the cell-wise
/// exclusive or of two ciphertext pairs decrypts to the exclusive or of the
/// plaintexts and the IV.
pub proof fn law_xor_homomorphism_2d(
    rule: CARule2D,
    w: nat,
    k: nat,
    a: Seq<Seq<bool>>,
    b: Seq<Seq<bool>>,
    iv: Seq<Seq<bool>>,
)
    requires
        additive_rule_2d(rule),
        shaped(a, iv.len(), w),
        shaped(b, iv.len(), w),
        shaped(iv, iv.len(), w),
    ensures
        ({
            let (ca0, ca1) = encrypt_2d_cells(rule, w, k, a, iv);
            let (cb0, cb1) = encrypt_2d_cells(rule, w, k, b, iv);
            decrypt_2d_cells(rule, w, k, xor_cells_2d(ca0, cb0), xor_cells_2d(ca1, cb1), iv)
                == xor_cells_2d(xor_cells_2d(a, b), iv)
        }),
{
    let h = iv.len();
    let xa = xor_cells_2d(a, iv);
    let xb = xor_cells_2d(b, iv);
    lemma_xor_2d_shape(a, iv, h, w);
    lemma_xor_2d_shape(b, iv, h, w);
    let (ca0, ca1) = evolve_2d_cells(rule, w, k, xa, iv);
    let (cb0, cb1) = evolve_2d_cells(rule, w, k, xb, iv);
    lemma_evolve_2d_shape(rule, w, k, xa, iv);
    lemma_evolve_2d_shape(rule, w, k, xb, iv);
    lemma_additive_evolve_2d(rule, w, k, ca1, ca0, cb1, cb0);
    law_reverse_undoes_evolve_2d(rule, w, k, xa, iv);
    law_reverse_undoes_evolve_2d(rule, w, k, xb, iv);
    let lhs = xor_cells_2d(xor_cells_2d(xa, xb), iv);
    let rhs = xor_cells_2d(xor_cells_2d(a, b), iv);
    assert forall|y: int| 0 <= y < h implies #[trigger] lhs[y] == rhs[y] by {
        assert(lhs[y] =~= rhs[y]);
    }
    assert(lhs =~= rhs);
}

/// With an all-zero IV, the exclusive or of two ciphertext pairs under an
/// additive 2D rule decrypts to the exclusive or of the plaintexts.
pub proof fn law_xor_homomorphism_2d_zero_iv(
    rule: CARule2D,
    w: nat,
    k: nat,
    a: Seq<Seq<bool>>,
    b: Seq<Seq<bool>>,
)
    requires
        additive_rule_2d(rule),
        shaped(a, a.len(), w),
        shaped(b, a.len(), w),
    ensures
        ({
            let iv = Seq::new(a.len(), |y: int| Seq::new(w, |x: int| false));
            let (ca0, ca1) = encrypt_2d_cells(rule, w, k, a, iv);
            let (cb0, cb1) = encrypt_2d_cells(rule, w, k, b, iv);
            decrypt_2d_cells(rule, w, k, xor_cells_2d(ca0, cb0), xor_cells_2d(ca1, cb1), iv)
                == xor_cells_2d(a, b)
        }),
{
    let iv = Seq::new(a.len(), |y: int| Seq::new(w, |x: int| false));
    law_xor_homomorphism_2d(rule, w, k, a, b, iv);
    let lhs = xor_cells_2d(xor_cells_2d(a, b), iv);
    let rhs = xor_cells_2d(a, b);
    assert forall|y: int| 0 <= y < a.len() implies #[trigger] lhs[y] == rhs[y] by {
        assert(lhs[y] =~= rhs[y]);
    }
    assert(lhs =~= rhs);
}

/// Weighted sums of nine one-bit values commute with exclusive or.
pub proof fn lemma_weighted9_xor(a0: u64, a1: u64, a2: u64, a3: u64, a4: u64, a5: u64, a6: u64, a7: u64, a8: u64, b0: u64, b1: u64, b2: u64, b3: u64, b4: u64, b5: u64, b6: u64, b7: u64, b8: u64)
    by (bit_vector)
    requires
        a0 <= 1 && a1 <= 1 && a2 <= 1 && a3 <= 1 && a4 <= 1 && a5 <= 1 && a6 <= 1 && a7 <= 1 && a8 <= 1 && b0 <= 1 && b1 <= 1 && b2 <= 1 && b3 <= 1 && b4 <= 1 && b5 <= 1 && b6 <= 1 && b7 <= 1 && b8 <= 1,
    ensures
        256 * (a0 ^ b0) + 128 * (a1 ^ b1) + 64 * (a2 ^ b2) + 32 * (a3 ^ b3) + 16 * (a4 ^ b4) + 8 * (
        a5 ^ b5) + 4 * (a6 ^ b6) + 2 * (a7 ^ b7) + (a8 ^ b8) == (256 * a0 + 128 * a1 + 64 * a2 + 32
            * a3 + 16 * a4 + 8 * a5 + 4 * a6 + 2 * a7 + a8) as u64 ^ (256 * b0 + 128 * b1 + 64 * b2
            + 32 * b3 + 16 * b4 + 8 * b5 + 4 * b6 + 2 * b7 + b8) as u64,
        (a0 ^ b0) <= 1,
        (a1 ^ b1) <= 1,
        (a2 ^ b2) <= 1,
        (a3 ^ b3) <= 1,
        (a4 ^ b4) <= 1,
        (a5 ^ b5) <= 1,
        (a6 ^ b6) <= 1,
        (a7 ^ b7) <= 1,
        (a8 ^ b8) <= 1,
{
}

/// Weighted sums of five one-bit values commute with exclusive or.
pub proof fn lemma_weighted5_xor(a0: u64, a1: u64, a2: u64, a3: u64, a4: u64, b0: u64, b1: u64, b2: u64, b3: u64, b4: u64)
    by (bit_vector)
    requires
        a0 <= 1 && a1 <= 1 && a2 <= 1 && a3 <= 1 && a4 <= 1 && b0 <= 1 && b1 <= 1 && b2 <= 1 && b3 <= 1 && b4 <= 1,
    ensures
        16 * (a0 ^ b0) + 8 * (a1 ^ b1) + 4 * (a2 ^ b2) + 2 * (a3 ^ b3) + (a4 ^ b4) == (16 * a0 + 8
            * a1 + 4 * a2 + 2 * a3 + a4) as u64 ^ (16 * b0 + 8 * b1 + 4 * b2 + 2 * b3 + b4) as u64,
        (a0 ^ b0) <= 1,
        (a1 ^ b1) <= 1,
        (a2 ^ b2) <= 1,
        (a3 ^ b3) <= 1,
        (a4 ^ b4) <= 1,
{
}

/// `idx5` commutes with exclusive or.
pub proof fn lemma_idx5_xor(a0: u64, a1: u64, a2: u64, a3: u64, a4: u64, b0: u64, b1: u64, b2: u64, b3: u64, b4: u64)
    requires
        a0 <= 1 && a1 <= 1 && a2 <= 1 && a3 <= 1 && a4 <= 1 && b0 <= 1 && b1 <= 1 && b2 <= 1 && b3 <= 1 && b4 <= 1,
    ensures
        idx5(a0 ^ b0, a1 ^ b1, a2 ^ b2, a3 ^ b3, a4 ^ b4) == idx5(a0, a1, a2, a3, a4) ^ idx5(b0, b1, b2, b3, b4),
        idx5(a0, a1, a2, a3, a4) < 32,
        idx5(b0, b1, b2, b3, b4) < 32,
{
    lemma_weighted5_xor(a0, a1, a2, a3, a4, b0, b1, b2, b3, b4);
}

/// `idx9` commutes with exclusive or.
pub proof fn lemma_idx9_xor(a0: u64, a1: u64, a2: u64, a3: u64, a4: u64, a5: u64, a6: u64, a7: u64, a8: u64, b0: u64, b1: u64, b2: u64, b3: u64, b4: u64, b5: u64, b6: u64, b7: u64, b8: u64)
    requires
        a0 <= 1 && a1 <= 1 && a2 <= 1 && a3 <= 1 && a4 <= 1 && a5 <= 1 && a6 <= 1 && a7 <= 1 && a8 <= 1 && b0 <= 1 && b1 <= 1 && b2 <= 1 && b3 <= 1 && b4 <= 1 && b5 <= 1 && b6 <= 1 && b7 <= 1 && b8 <= 1,
    ensures
        idx9(a0 ^ b0, a1 ^ b1, a2 ^ b2, a3 ^ b3, a4 ^ b4, a5 ^ b5, a6 ^ b6, a7 ^ b7, a8 ^ b8) == idx9(a0, a1, a2, a3, a4, a5, a6, a7, a8) ^ idx9(b0, b1, b2, b3, b4, b5, b6, b7, b8),
        idx9(a0, a1, a2, a3, a4, a5, a6, a7, a8) < 512,
        idx9(b0, b1, b2, b3, b4, b5, b6, b7, b8) < 512,
{
    lemma_weighted9_xor(a0, a1, a2, a3, a4, a5, a6, a7, a8, b0, b1, b2, b3, b4, b5, b6, b7, b8);
}

/// An additive 2D rule's table entries at the positions of neighbourhoods,
/// given by their one-bit cells, are additive.
pub proof fn lemma_additive_table(rule: CARule2D, a0: u64, a1: u64, a2: u64, a3: u64, a4: u64, a5: u64, a6: u64, a7: u64, a8: u64, b0: u64, b1: u64, b2: u64, b3: u64, b4: u64, b5: u64, b6: u64, b7: u64, b8: u64)
    requires
        additive_rule_2d(rule),
        a0 <= 1 && a1 <= 1 && a2 <= 1 && a3 <= 1 && a4 <= 1 && a5 <= 1 && a6 <= 1 && a7 <= 1 && a8 <= 1 && b0 <= 1 && b1 <= 1 && b2 <= 1 && b3 <= 1 && b4 <= 1 && b5 <= 1 && b6 <= 1 && b7 <= 1 && b8 <= 1,
    ensures
        table_bit(rule, idx9(a0 ^ b0, a1 ^ b1, a2 ^ b2, a3 ^ b3, a4 ^ b4, a5 ^ b5, a6 ^ b6, a7 ^ b7, a8 ^ b8)) == (table_bit(rule, idx9(a0, a1, a2, a3, a4, a5, a6, a7, a8)) != table_bit(rule, idx9(b0, b1, b2, b3, b4, b5, b6, b7, b8))) || table_len(rule) != 512,
        table_bit(rule, idx5(a1 ^ b1, a7 ^ b7, a3 ^ b3, a5 ^ b5, a4 ^ b4)) == (table_bit(rule, idx5(a1, a7, a3, a5, a4)) != table_bit(rule, idx5(b1, b7, b3, b5, b4))),
{
    lemma_idx9_xor(a0, a1, a2, a3, a4, a5, a6, a7, a8, b0, b1, b2, b3, b4, b5, b6, b7, b8);
    lemma_idx5_xor(a1, a7, a3, a5, a4, b1, b7, b3, b5, b4);
    let mx = idx9(a0, a1, a2, a3, a4, a5, a6, a7, a8);
    let my = idx9(b0, b1, b2, b3, b4, b5, b6, b7, b8);
    let vx = idx5(a1, a7, a3, a5, a4);
    let vy = idx5(b1, b7, b3, b5, b4);
    assert(table_bit(rule, vx ^ vy) == (table_bit(rule, vx) != table_bit(rule, vy)));
    if table_len(rule) == 512 {
        assert(table_bit(rule, mx ^ my) == (table_bit(rule, mx) != table_bit(rule, my)));
    }
}

} // verus!
