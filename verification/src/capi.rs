//! The key and ciphertext records of the C interface, and the computations
//! behind its functions: grids of at most 64 cells packed into one `u64`.
use vstd::prelude::*;
use crate::bits::bit;
use crate::grid::BitGrid;
use crate::ca::{ReversibleCA, encrypt, decrypt, encrypt_cells, decrypt_cells, evolve_cells};
use crate::coding::{encode_repetition, decode_repetition, encoded_cells, block_majority};
use crate::grid::lemma_cell_position;
use crate::grid2d::{BitGrid2D, xor_cells_2d};
use crate::ca2d::{
    CARule2D, ReversibleCA2D, encrypt_2d, decrypt_2d, encrypt_2d_cells, decrypt_2d_cells,
    evolve_2d_cells,
};
use crate::bits::{lemma_logic_bits, lemma_set_clear_bit, lemma_low_mask_bit, lemma_bits_equal};
use crate::grid::keep_low;
use crate::ca::{law_decrypt_encrypt, lemma_evolve_len, additive_rule, law_xor_homomorphism};
use crate::ca2d::{
    shaped, law_decrypt_encrypt_2d, lemma_evolve_2d_shape, lemma_xor_2d_shape, additive_rule_2d,
    law_xor_homomorphism_2d,
};

verus! {

/// The first `n` bits of `v`, as cells.
pub open spec fn u64_cells(v: u64, n: nat) -> Seq<bool> {
    Seq::new(n, |i: int| bit(v, i as u64))
}

/// `v` holds the cells `s` in its low bits, and no bit above them.
pub open spec fn packs(v: u64, s: Seq<bool>) -> bool {
    forall|b: u64| b < 64 ==> #[trigger] bit(v, b) == (b < s.len() && s[b as int])
}

#[derive(Clone, Copy, Debug)]
pub struct CaheKey1D {
    pub enc_rule: u8,
    pub eval_rule: u8,
    pub steps: u32,
    pub iv: u64,
}

#[derive(Clone, Copy, Debug)]
pub struct CaheCiphertext1D {
    pub c0: u64,
    pub c1: u64,
}

#[derive(Clone, Copy, Debug)]
pub struct CaheKey2D {
    pub enc_rule: u32,
    pub eval_rule: u32,
    pub steps: u32,
    pub iv: u64,
}

#[derive(Clone, Copy, Debug)]
pub struct CaheCiphertext2D {
    pub c0: u64,
    pub c1: u64,
}

#[derive(Clone, Copy, Debug)]
pub struct CaheKey3D {
    pub rule_lut0: u64,
    pub rule_lut1: u64,
    pub steps: u32,
    pub iv: u64,
}

#[derive(Clone, Copy, Debug)]
pub struct CaheCiphertext3D {
    pub c0: u64,
    pub c1: u64,
}

/// A 1D grid of `size <= 64` cells read back into a word: the result packs the
/// grid's cells.
fn grid_to_word(g: &BitGrid) -> (r: u64)
    requires
        g.wf(),
        0 < g.size <= 64,
    ensures
        packs(r, g@),
{
    g.to_u64()
}

pub fn cahe_keygen_1d(enc_rule: u8, eval_rule: u8, steps: u32, iv: u64) -> (k: CaheKey1D)
    ensures
        k.enc_rule == enc_rule,
        k.eval_rule == eval_rule,
        k.steps == steps,
        k.iv == iv,
{
    CaheKey1D { enc_rule, eval_rule, steps, iv }
}

pub fn cahe_encrypt_1d(key: CaheKey1D, plaintext: u64, size: u32) -> (ct: CaheCiphertext1D)
    ensures
        size == 0 || size > 64 ==> ct.c0 == 0 && ct.c1 == 0,
        0 < size <= 64 ==> ({
            let (c0, c1) = encrypt_cells(
                key.enc_rule,
                key.steps as nat,
                u64_cells(plaintext, size as nat),
                u64_cells(key.iv, size as nat),
            );
            packs(ct.c0, c0) && packs(ct.c1, c1)
        }),
{
    if size == 0 || size > 64 {
        return CaheCiphertext1D { c0: 0, c1: 0 };
    }
    let pt_grid = BitGrid::from_u64(plaintext, size as usize);
    let iv_grid = BitGrid::from_u64(key.iv, size as usize);
    let (c0, c1) = encrypt(&pt_grid, &iv_grid, key.enc_rule, key.steps as usize);
    CaheCiphertext1D { c0: grid_to_word(&c0), c1: grid_to_word(&c1) }
}

pub fn cahe_decrypt_1d(key: CaheKey1D, ct: CaheCiphertext1D, size: u32) -> (pt: u64)
    ensures
        size == 0 || size > 64 ==> pt == 0,
        0 < size <= 64 ==> packs(
            pt,
            decrypt_cells(
                key.enc_rule,
                key.steps as nat,
                u64_cells(ct.c0, size as nat),
                u64_cells(ct.c1, size as nat),
                u64_cells(key.iv, size as nat),
            ),
        ),
{
    if size == 0 || size > 64 {
        return 0;
    }
    let c0_grid = BitGrid::from_u64(ct.c0, size as usize);
    let c1_grid = BitGrid::from_u64(ct.c1, size as usize);
    let iv_grid = BitGrid::from_u64(key.iv, size as usize);
    let pt_grid = decrypt(&c0_grid, &c1_grid, &iv_grid, key.enc_rule, key.steps as usize);
    grid_to_word(&pt_grid)
}

pub fn cahe_eval_add_1d(
    key: CaheKey1D,
    ct_a: CaheCiphertext1D,
    ct_b: CaheCiphertext1D,
    size: u32,
) -> (ct: CaheCiphertext1D)
    ensures
        size == 0 || size > 64 ==> ct.c0 == 0 && ct.c1 == 0,
        0 < size <= 64 ==> ({
            let (c0, c1) = evolve_cells(
                key.eval_rule,
                key.steps as nat,
                u64_cells(ct_a.c0 ^ ct_b.c0, size as nat),
                u64_cells(ct_a.c1 ^ ct_b.c1, size as nat),
            );
            packs(ct.c0, c0) && packs(ct.c1, c1)
        }),
{
    if size == 0 || size > 64 {
        return CaheCiphertext1D { c0: 0, c1: 0 };
    }
    // Evolve the XOR of the ciphertexts under the eval rule
    let c_sum0 = BitGrid::from_u64(ct_a.c0 ^ ct_b.c0, size as usize);
    let c_sum1 = BitGrid::from_u64(ct_a.c1 ^ ct_b.c1, size as usize);

    let ca_eval = ReversibleCA::new(key.eval_rule, key.steps as usize);
    let (c_eval0, c_eval1) = ca_eval.evolve(&c_sum0, &c_sum1);

    CaheCiphertext1D { c0: grid_to_word(&c_eval0), c1: grid_to_word(&c_eval1) }
}

/// Identity function in leveled FHE PoC
pub fn cahe_bootstrap_1d(_key: CaheKey1D, ct: CaheCiphertext1D, _size: u32) -> (r: CaheCiphertext1D)
    ensures
        r == ct,
{
    ct
}

pub fn cahe_encode_repetition_1d(val: u64, k: u32, n: u32) -> (r: u64)
    ensures
        n == 0 || n > 64 || k == 0 || k > n ==> r == 0,
        !(n == 0 || n > 64 || k == 0 || k > n) ==> packs(r, encoded_cells(val, k as nat, n as nat)),
{
    if n == 0 || n > 64 || k == 0 || k > n {
        return 0;
    }
    let grid = encode_repetition(val, k as usize, n as usize);
    grid_to_word(&grid)
}

pub fn cahe_decode_repetition_1d(val: u64, k: u32, n: u32) -> (r: u64)
    ensures
        n == 0 || n > 64 || k == 0 || k > n ==> r == 0,
        !(n == 0 || n > 64 || k == 0 || k > n) ==> forall|b: u64|
            b < 64 ==> #[trigger] bit(r, b) == (b < k && block_majority(
                u64_cells(val, n as nat),
                k as nat,
                b as int,
            )),
{
    if n == 0 || n > 64 || k == 0 || k > n {
        return 0;
    }
    let grid = BitGrid::from_u64(val, n as usize);
    proof {
        assert(grid@ =~= u64_cells(val, n as nat));
    }
    decode_repetition(&grid, k as usize)
}

/// The `h` by `w` grid whose cell `(y, x)` is bit `y * w + x` of `val` (cells
/// past bit 63 clear).
pub open spec fn u64_cells_2d(val: u64, h: nat, w: nat) -> Seq<Seq<bool>> {
    Seq::new(h, |y: int| Seq::new(w, |x: int| y * w + x < 64 && bit(val, (y * w + x) as u64)))
}

/// `v` holds the grid `s` of width `w` row by row in its low bits, and no bit
/// above it.
pub open spec fn packs_2d(v: u64, s: Seq<Seq<bool>>, w: nat) -> bool {
    forall|b: u64|
        b < 64 ==> #[trigger] bit(v, b) == (b < s.len() * w && s[(b as int) / (w as int)][(b as int) % (w as int)])
}

/// Position `y * w + x` of cell `(y, x)` of a row-major grid, and back.
pub proof fn lemma_row_major(y: int, x: int, h: int, w: int)
    requires
        0 <= y < h,
        0 <= x < w,
    ensures
        0 <= y * w + x < h * w,
        (y * w + x) / w == y,
        (y * w + x) % w == x,
        y * w + x + 1 <= h * w,
        y * w + w == (y + 1) * w,
{
    assert(y * w + x < (y + 1) * w) by (nonlinear_arith)
        requires
            0 <= x < w,
    ;
    assert((y + 1) * w <= h * w) by (nonlinear_arith)
        requires
            y + 1 <= h,
            0 < w,
    ;
    assert(0 <= y * w) by (nonlinear_arith)
        requires
            0 <= y,
            0 < w,
    ;
    assert(y * w + w == (y + 1) * w) by (nonlinear_arith);
    assert(w * y == y * w) by (nonlinear_arith);
    vstd::arithmetic::div_mod::lemma_div_multiples_vanish_fancy(y, x, w);
    vstd::arithmetic::div_mod::lemma_fundamental_div_mod(y * w + x, w);
    vstd::arithmetic::div_mod::lemma_mod_pos_bound(y * w + x, w);
}

/// Helper functions for 2D packing: the grid whose cell `(y, x)` is bit
/// `y * width + x` of `val`.
pub fn u64_to_grid2d(val: u64, height: usize, width: usize) -> (grid: BitGrid2D)
    requires
        width + 63 <= usize::MAX,
        height * width <= usize::MAX,
    ensures
        grid.wf(),
        grid.height == height,
        grid.width == width,
        grid@ == u64_cells_2d(val, height as nat, width as nat),
{
    let mut grid = BitGrid2D::new(height, width);
    assert(grid@ =~~= Seq::new(
        height as nat,
        |yy: int|
            Seq::new(
                width as nat,
                |xx: int| yy < 0 && yy * width + xx < 64 && bit(val, (yy * width + xx) as u64),
            ),
    ));
    for y in 0..height
        invariant
            grid.wf(),
            grid.height == height,
            grid.width == width,
            height * width <= usize::MAX,
            grid@ == Seq::new(
                height as nat,
                |yy: int|
                    Seq::new(
                        width as nat,
                        |xx: int|
                            yy < y && yy * width + xx < 64 && bit(val, (yy * width + xx) as u64),
                    ),
            ),
    {
        assert(grid@ =~~= Seq::new(
            height as nat,
            |yy: int|
                Seq::new(
                    width as nat,
                    |xx: int|
                        (yy < y || (yy == y && xx < 0)) && yy * width + xx < 64 && bit(
                            val,
                            (yy * width + xx) as u64,
                        ),
                ),
        ));
        for x in 0..width
            invariant
                y < height,
                grid.wf(),
                grid.height == height,
                grid.width == width,
                height * width <= usize::MAX,
                grid@ == Seq::new(
                    height as nat,
                    |yy: int|
                        Seq::new(
                            width as nat,
                            |xx: int|
                                (yy < y || (yy == y && xx < x)) && yy * width + xx < 64 && bit(
                                    val,
                                    (yy * width + xx) as u64,
                                ),
                        ),
                ),
        {
            proof {
                lemma_row_major(y as int, x as int, height as int, width as int);
                lemma_cell_position(x as int, width as nat);
            }
            let bit_idx = y * width + x;
            if bit_idx < 64 {
                proof {
                    crate::bits::lemma_extract_bit(val, bit_idx as u64);
                }
                let bit_val = ((val >> (bit_idx as u64)) & 1) != 0;
                grid.set_cell(y, x, bit_val);
            }
            assert(grid@ =~~= Seq::new(
                height as nat,
                |yy: int|
                    Seq::new(
                        width as nat,
                        |xx: int|
                            (yy < y || (yy == y && xx < x + 1)) && yy * width + xx < 64 && bit(
                                val,
                                (yy * width + xx) as u64,
                            ),
                    ),
            ));
        }
        assert(grid@ =~~= Seq::new(
            height as nat,
            |yy: int|
                Seq::new(
                    width as nat,
                    |xx: int|
                        yy < y + 1 && yy * width + xx < 64 && bit(val, (yy * width + xx) as u64),
                ),
        ));
    }
    assert(grid@ =~~= u64_cells_2d(val, height as nat, width as nat));
    grid
}

/// The word whose bit `y * width + x` is cell `(y, x)` of the grid, for the
/// cells below bit 64.
pub fn grid2d_to_u64(grid: &BitGrid2D) -> (val: u64)
    requires
        grid.wf(),
        grid.height * grid.width <= usize::MAX,
    ensures
        packs_2d(val, grid@, grid.width as nat),
{
    let mut val = 0u64;
    let h = grid.height;
    let w = grid.width;
    proof {
        assert(0 * w == 0) by (nonlinear_arith);
        assert forall|b: u64| b < 64 implies !#[trigger] bit(0u64, b) by {
            lemma_logic_bits(0, 0, b);
        }
    }
    for y in 0..h
        invariant
            h == grid.height,
            w == grid.width,
            grid.wf(),
            h * w <= usize::MAX,
            forall|b: u64|
                b < 64 ==> #[trigger] bit(val, b) == (b < y * w && grid@[(b as int) / (w as int)][(b as int) % (w as int)]),
    {
        for x in 0..w
            invariant
                y < h,
                h == grid.height,
                w == grid.width,
                grid.wf(),
                h * w <= usize::MAX,
                forall|b: u64|
                    b < 64 ==> #[trigger] bit(val, b) == (b < y * w + x && grid@[(b as int) / (w as int)][(b as int) % (w as int)]),
        {
            proof {
                lemma_row_major(y as int, x as int, h as int, w as int);
                lemma_cell_position(x as int, w as nat);
                assert(grid.rows@[y as int].wf());
            }
            let bit_idx = y * w + x;
            if bit_idx < 64 && grid.get_cell(y, x) {
                proof {
                    assert forall|b: u64| b < 64 implies #[trigger] bit(
                        val | (1u64 << (bit_idx as u64)),
                        b,
                    ) == (b == bit_idx || bit(val, b)) by {
                        lemma_set_clear_bit(val, bit_idx as u64, b);
                    }
                }
                val |= 1u64 << (bit_idx as u64);
            }
            proof {
                assert forall|b: u64| b < 64 implies #[trigger] bit(val, b) == (b < y * w + x + 1
                    && grid@[(b as int) / (w as int)][(b as int) % (w as int)]) by {
                    if b == y * w + x {
                        assert((b as int) / (w as int) == y && (b as int) % (w as int) == x);
                    }
                }
            }
        }
        proof {
            assert((y + 1) * w == y * w + w) by (nonlinear_arith);
        }
    }
    proof {
        assert forall|b: u64| b < 64 implies #[trigger] bit(val, b) == (b < grid@.len() * (
        w as nat) && grid@[(b as int) / (w as int)][(b as int) % (w as int)]) by {}
    }
    val
}

pub fn cahe_keygen_2d(enc_rule: u32, eval_rule: u32, steps: u32, iv: u64) -> (key: CaheKey2D)
    ensures
        key.enc_rule == enc_rule,
        key.eval_rule == eval_rule,
        key.steps == steps,
        key.iv == iv,
{
    CaheKey2D { enc_rule, eval_rule, steps, iv }
}

/// The 2D grid dimensions that the C interface accepts: both positive and at
/// most 64 cells.
pub open spec fn dims_2d_ok(height: u32, width: u32) -> bool {
    height > 0 && width > 0 && height * width <= 64
}

/// Check the 2D grid dimensions, without overflow.
fn dims_2d_valid(height: u32, width: u32) -> (ok: bool)
    ensures
        ok == dims_2d_ok(height, width),
        ok ==> height <= 64 && width <= 64,
{
    if height == 0 || width == 0 {
        return false;
    }
    let h = height as u64;
    let w = width as u64;
    proof {
        assert(h * w <= 0xffff_ffffu64 * 0xffff_ffffu64) by (nonlinear_arith)
            requires
                h <= 0xffff_ffffu64,
                w <= 0xffff_ffffu64,
        ;
        assert(h * w >= h && h * w >= w) by (nonlinear_arith)
            requires
                h >= 1,
                w >= 1,
        ;
    }
    h * w <= 64
}

pub fn cahe_encrypt_2d(key: CaheKey2D, plaintext: u64, height: u32, width: u32) -> (ct:
    CaheCiphertext2D)
    ensures
        !dims_2d_ok(height, width) ==> ct.c0 == 0 && ct.c1 == 0,
        dims_2d_ok(height, width) ==> ({
            let (c0, c1) = encrypt_2d_cells(
                CARule2D::VonNeumann(key.enc_rule),
                width as nat,
                key.steps as nat,
                u64_cells_2d(plaintext, height as nat, width as nat),
                u64_cells_2d(key.iv, height as nat, width as nat),
            );
            packs_2d(ct.c0, c0, width as nat) && packs_2d(ct.c1, c1, width as nat)
        }),
{
    if !dims_2d_valid(height, width) {
        return CaheCiphertext2D { c0: 0, c1: 0 };
    }
    let h = height as usize;
    let w = width as usize;
    proof {
        assert(h * w <= 64);
    }
    let pt_grid = u64_to_grid2d(plaintext, h, w);
    let iv_grid = u64_to_grid2d(key.iv, h, w);
    let rule = CARule2D::VonNeumann(key.enc_rule);
    let (c0, c1) = encrypt_2d(&pt_grid, &iv_grid, &rule, key.steps as usize);
    CaheCiphertext2D { c0: grid2d_to_u64(&c0), c1: grid2d_to_u64(&c1) }
}

pub fn cahe_decrypt_2d(key: CaheKey2D, ct: CaheCiphertext2D, height: u32, width: u32) -> (pt: u64)
    ensures
        !dims_2d_ok(height, width) ==> pt == 0,
        dims_2d_ok(height, width) ==> packs_2d(
            pt,
            decrypt_2d_cells(
                CARule2D::VonNeumann(key.enc_rule),
                width as nat,
                key.steps as nat,
                u64_cells_2d(ct.c0, height as nat, width as nat),
                u64_cells_2d(ct.c1, height as nat, width as nat),
                u64_cells_2d(key.iv, height as nat, width as nat),
            ),
            width as nat,
        ),
{
    if !dims_2d_valid(height, width) {
        return 0;
    }
    let h = height as usize;
    let w = width as usize;
    let c0_grid = u64_to_grid2d(ct.c0, h, w);
    let c1_grid = u64_to_grid2d(ct.c1, h, w);
    let iv_grid = u64_to_grid2d(key.iv, h, w);
    let rule = CARule2D::VonNeumann(key.enc_rule);
    let pt_grid = decrypt_2d(&c0_grid, &c1_grid, &iv_grid, &rule, key.steps as usize);
    grid2d_to_u64(&pt_grid)
}

pub fn cahe_eval_add_2d(
    key: CaheKey2D,
    ct_a: CaheCiphertext2D,
    ct_b: CaheCiphertext2D,
    height: u32,
    width: u32,
) -> (ct: CaheCiphertext2D)
    ensures
        !dims_2d_ok(height, width) ==> ct.c0 == 0 && ct.c1 == 0,
        dims_2d_ok(height, width) ==> ({
            let (c0, c1) = evolve_2d_cells(
                CARule2D::VonNeumann(key.eval_rule),
                width as nat,
                key.steps as nat,
                u64_cells_2d(ct_a.c0 ^ ct_b.c0, height as nat, width as nat),
                u64_cells_2d(ct_a.c1 ^ ct_b.c1, height as nat, width as nat),
            );
            packs_2d(ct.c0, c0, width as nat) && packs_2d(ct.c1, c1, width as nat)
        }),
{
    if !dims_2d_valid(height, width) {
        return CaheCiphertext2D { c0: 0, c1: 0 };
    }
    let h = height as usize;
    let w = width as usize;
    let c_sum0 = u64_to_grid2d(ct_a.c0 ^ ct_b.c0, h, w);
    let c_sum1 = u64_to_grid2d(ct_a.c1 ^ ct_b.c1, h, w);

    let rule_eval = CARule2D::VonNeumann(key.eval_rule);
    let ca_eval = ReversibleCA2D::new(rule_eval, key.steps as usize);
    let (c_eval0, c_eval1) = ca_eval.evolve(&c_sum0, &c_sum1);

    CaheCiphertext2D { c0: grid2d_to_u64(&c_eval0), c1: grid2d_to_u64(&c_eval1) }
}

/// Identity function in leveled FHE PoC
pub fn cahe_bootstrap_2d(_key: CaheKey2D, ct: CaheCiphertext2D, _height: u32, _width: u32) -> (r:
    CaheCiphertext2D)
    ensures
        r == ct,
{
    ct
}

pub fn cahe_keygen_3d(rule_lut0: u64, rule_lut1: u64, steps: u32, iv: u64) -> (key: CaheKey3D)
    ensures
        key.rule_lut0 == rule_lut0,
        key.rule_lut1 == rule_lut1,
        key.steps == steps,
        key.iv == iv,
{
    CaheKey3D { rule_lut0, rule_lut1, steps, iv }
}

/// Identity function in leveled FHE PoC
pub fn cahe_bootstrap_3d(
    _key: CaheKey3D,
    ct: CaheCiphertext3D,
    _depth: u32,
    _height: u32,
    _width: u32,
) -> (r: CaheCiphertext3D)
    ensures
        r == ct,
{
    ct
}

/// A word that packs `n <= 64` cells reads back as those cells.
proof fn lemma_packs_cells(v: u64, s: Seq<bool>)
    requires
        s.len() <= 64,
        packs(v, s),
    ensures
        u64_cells(v, s.len()) == s,
{
    assert forall|i: int| 0 <= i < s.len() implies u64_cells(v, s.len())[i] == s[i] by {
        assert(bit(v, i as u64) == (i < s.len() && s[i]));
    }
    assert(u64_cells(v, s.len()) =~= s);
}

/// A word that packs the low `n` bits of `x` is `x` with only those bits kept.
proof fn lemma_packs_low_bits(v: u64, x: u64, n: nat)
    requires
        0 < n <= 64,
        packs(v, u64_cells(x, n)),
    ensures
        v == keep_low(x, n),
{
    assert forall|b: u64| b < 64 implies #[trigger] bit(v, b) == bit(keep_low(x, n), b) by {
        assert(bit(v, b) == (b < n && u64_cells(x, n)[b as int]));
        if n < 64 {
            lemma_low_mask_bit(x, n as u64, b);
        }
    }
    lemma_bits_equal(v, keep_low(x, n));
}

/// Round trip through the C interface: with one key and one size in
/// `1..=64`, decrypting the ciphertext that encryption gives returns the low
/// `size` bits of the plaintext.
pub proof fn law_capi_roundtrip_1d(
    key: CaheKey1D,
    plaintext: u64,
    size: u32,
    ct: CaheCiphertext1D,
    pt: u64,
)
    requires
        0 < size <= 64,
        ({
            let (c0, c1) = encrypt_cells(
                key.enc_rule,
                key.steps as nat,
                u64_cells(plaintext, size as nat),
                u64_cells(key.iv, size as nat),
            );
            packs(ct.c0, c0) && packs(ct.c1, c1)
        }),
        packs(
            pt,
            decrypt_cells(
                key.enc_rule,
                key.steps as nat,
                u64_cells(ct.c0, size as nat),
                u64_cells(ct.c1, size as nat),
                u64_cells(key.iv, size as nat),
            ),
        ),
    ensures
        pt == keep_low(plaintext, size as nat),
{
    let n = size as nat;
    let m = u64_cells(plaintext, n);
    let iv = u64_cells(key.iv, n);
    let (c0, c1) = encrypt_cells(key.enc_rule, key.steps as nat, m, iv);
    lemma_evolve_len(key.enc_rule, key.steps as nat, crate::grid::xor_cells(m, iv), iv);
    lemma_packs_cells(ct.c0, c0);
    lemma_packs_cells(ct.c1, c1);
    law_decrypt_encrypt(key.enc_rule, key.steps as nat, m, iv);
    lemma_packs_low_bits(pt, plaintext, n);
}

/// A word that packs a grid of `h` rows of `w` cells (`h * w <= 64`) reads
/// back as that grid.
proof fn lemma_packs_cells_2d(v: u64, s: Seq<Seq<bool>>, h: nat, w: nat)
    requires
        0 < h,
        0 < w,
        h * w <= 64,
        shaped(s, h, w),
        packs_2d(v, s, w),
    ensures
        u64_cells_2d(v, h, w) == s,
{
    assert forall|y: int| 0 <= y < h implies #[trigger] u64_cells_2d(v, h, w)[y] == s[y] by {
        assert forall|x: int| 0 <= x < w implies u64_cells_2d(v, h, w)[y][x] == s[y][x] by {
            lemma_row_major(y, x, h as int, w as int);
            assert(bit(v, (y * w + x) as u64) == (y * w + x < s.len() * w && s[(y * w + x) / (w as int)][(
            y * w + x) % (w as int)]));
        }
        assert(u64_cells_2d(v, h, w)[y] =~= s[y]);
    }
    assert(u64_cells_2d(v, h, w) =~= s);
}

/// A word that packs the grid read from the low `h * w` bits of `x` is `x`
/// with only those bits kept.
proof fn lemma_packs_low_bits_2d(v: u64, x: u64, h: nat, w: nat)
    requires
        0 < h,
        0 < w,
        h * w <= 64,
        packs_2d(v, u64_cells_2d(x, h, w), w),
    ensures
        v == keep_low(x, h * w),
{
    assert forall|b: u64| b < 64 implies #[trigger] bit(v, b) == bit(keep_low(x, h * w), b) by {
        let y = (b as int) / (w as int);
        let xx = (b as int) % (w as int);
        assert(bit(v, b) == (b < h * w && u64_cells_2d(x, h, w)[y][xx]));
        if b < h * w {
            assert(y * w + xx == b as int) by (nonlinear_arith)
                requires
                    y == (b as int) / (w as int),
                    xx == (b as int) % (w as int),
                    w > 0,
            ;
            assert(0 <= y < h) by (nonlinear_arith)
                requires
                    y == (b as int) / (w as int),
                    w > 0,
                    b < h * w,
            ;
            assert(0 <= xx < w);
        }
        if h * w < 64 {
            assert(h * w > 0) by (nonlinear_arith)
                requires
                    h > 0,
                    w > 0,
            ;
            lemma_low_mask_bit(x, (h * w) as u64, b);
        }
    }
    lemma_bits_equal(v, keep_low(x, h * w));
}

/// Round trip through the 2D C interface: with one key and dimensions of at
/// most 64 cells, decrypting the ciphertext that encryption gives returns the
/// low `height * width` bits of the plaintext.
pub proof fn law_capi_roundtrip_2d(
    key: CaheKey2D,
    plaintext: u64,
    height: u32,
    width: u32,
    ct: CaheCiphertext2D,
    pt: u64,
)
    requires
        dims_2d_ok(height, width),
        ({
            let (c0, c1) = encrypt_2d_cells(
                CARule2D::VonNeumann(key.enc_rule),
                width as nat,
                key.steps as nat,
                u64_cells_2d(plaintext, height as nat, width as nat),
                u64_cells_2d(key.iv, height as nat, width as nat),
            );
            packs_2d(ct.c0, c0, width as nat) && packs_2d(ct.c1, c1, width as nat)
        }),
        packs_2d(
            pt,
            decrypt_2d_cells(
                CARule2D::VonNeumann(key.enc_rule),
                width as nat,
                key.steps as nat,
                u64_cells_2d(ct.c0, height as nat, width as nat),
                u64_cells_2d(ct.c1, height as nat, width as nat),
                u64_cells_2d(key.iv, height as nat, width as nat),
            ),
            width as nat,
        ),
    ensures
        pt == keep_low(plaintext, (height * width) as nat),
{
    let h = height as nat;
    let w = width as nat;
    let rule = CARule2D::VonNeumann(key.enc_rule);
    let m = u64_cells_2d(plaintext, h, w);
    let iv = u64_cells_2d(key.iv, h, w);
    assert(shaped(m, h, w));
    assert(shaped(iv, h, w));
    let (c0, c1) = encrypt_2d_cells(rule, w, key.steps as nat, m, iv);
    lemma_xor_2d_shape(m, iv, h, w);
    lemma_evolve_2d_shape(rule, w, key.steps as nat, xor_cells_2d(m, iv), iv);
    lemma_packs_cells_2d(ct.c0, c0, h, w);
    lemma_packs_cells_2d(ct.c1, c1, h, w);
    law_decrypt_encrypt_2d(rule, w, key.steps as nat, m, iv);
    lemma_packs_low_bits_2d(pt, plaintext, h, w);
}

/// The cells of `x ^ y` are the cell-wise exclusive or of those of `x` and `y`.
proof fn lemma_cells_of_xor(x: u64, y: u64, n: nat)
    requires
        n <= 64,
    ensures
        u64_cells(x ^ y, n) == crate::grid::xor_cells(u64_cells(x, n), u64_cells(y, n)),
{
    assert forall|i: int| 0 <= i < n implies u64_cells(x ^ y, n)[i] == (u64_cells(x, n)[i] != u64_cells(
        y,
        n,
    )[i]) by {
        lemma_logic_bits(x, y, i as u64);
    }
    assert(u64_cells(x ^ y, n) =~= crate::grid::xor_cells(u64_cells(x, n), u64_cells(y, n)));
}

/// XOR homomorphism through the C interface: under an additive encryption
/// rule, decrypting the word-wise exclusive or of two ciphertexts of one key
/// and size returns the low `size` bits of the exclusive or of the two
/// plaintexts and the IV (of the plaintexts alone when the IV is zero).
pub proof fn law_capi_xor_homomorphism_1d(
    key: CaheKey1D,
    a: u64,
    b: u64,
    size: u32,
    ct_a: CaheCiphertext1D,
    ct_b: CaheCiphertext1D,
    pt: u64,
)
    requires
        additive_rule(key.enc_rule),
        0 < size <= 64,
        ({
            let (c0, c1) = encrypt_cells(
                key.enc_rule,
                key.steps as nat,
                u64_cells(a, size as nat),
                u64_cells(key.iv, size as nat),
            );
            packs(ct_a.c0, c0) && packs(ct_a.c1, c1)
        }),
        ({
            let (c0, c1) = encrypt_cells(
                key.enc_rule,
                key.steps as nat,
                u64_cells(b, size as nat),
                u64_cells(key.iv, size as nat),
            );
            packs(ct_b.c0, c0) && packs(ct_b.c1, c1)
        }),
        packs(
            pt,
            decrypt_cells(
                key.enc_rule,
                key.steps as nat,
                u64_cells(ct_a.c0 ^ ct_b.c0, size as nat),
                u64_cells(ct_a.c1 ^ ct_b.c1, size as nat),
                u64_cells(key.iv, size as nat),
            ),
        ),
    ensures
        pt == keep_low(a ^ b ^ key.iv, size as nat),
{
    let n = size as nat;
    let ma = u64_cells(a, n);
    let mb = u64_cells(b, n);
    let iv = u64_cells(key.iv, n);
    let k = key.steps as nat;
    let (ca0, ca1) = encrypt_cells(key.enc_rule, k, ma, iv);
    let (cb0, cb1) = encrypt_cells(key.enc_rule, k, mb, iv);
    lemma_evolve_len(key.enc_rule, k, crate::grid::xor_cells(ma, iv), iv);
    lemma_evolve_len(key.enc_rule, k, crate::grid::xor_cells(mb, iv), iv);
    lemma_packs_cells(ct_a.c0, ca0);
    lemma_packs_cells(ct_a.c1, ca1);
    lemma_packs_cells(ct_b.c0, cb0);
    lemma_packs_cells(ct_b.c1, cb1);
    lemma_cells_of_xor(ct_a.c0, ct_b.c0, n);
    lemma_cells_of_xor(ct_a.c1, ct_b.c1, n);
    law_xor_homomorphism(key.enc_rule, k, ma, mb, iv);
    lemma_cells_of_xor(a, b, n);
    lemma_cells_of_xor(a ^ b, key.iv, n);
    lemma_packs_low_bits(pt, a ^ b ^ key.iv, n);
}

/// The grid of `x ^ y` is the cell-wise exclusive or of those of `x` and `y`.
proof fn lemma_cells_of_xor_2d(x: u64, y: u64, h: nat, w: nat)
    requires
        h * w <= 64,
    ensures
        u64_cells_2d(x ^ y, h, w) == xor_cells_2d(u64_cells_2d(x, h, w), u64_cells_2d(y, h, w)),
{
    let l = u64_cells_2d(x ^ y, h, w);
    let r = xor_cells_2d(u64_cells_2d(x, h, w), u64_cells_2d(y, h, w));
    assert forall|i: int| 0 <= i < h implies #[trigger] l[i] == r[i] by {
        assert forall|j: int| 0 <= j < w implies l[i][j] == r[i][j] by {
            if i * w + j < 64 {
                lemma_logic_bits(x, y, (i * w + j) as u64);
            }
        }
        assert(l[i] =~= r[i]);
    }
    assert(l =~= r);
}

/// XOR homomorphism through the 2D C interface: under an additive von
/// Neumann encryption rule, decrypting the word-wise exclusive or of two
/// ciphertexts of one key and shape returns the low `height * width` bits of
/// the exclusive or of the two plaintexts and the IV.
pub proof fn law_capi_xor_homomorphism_2d(
    key: CaheKey2D,
    a: u64,
    b: u64,
    height: u32,
    width: u32,
    ct_a: CaheCiphertext2D,
    ct_b: CaheCiphertext2D,
    pt: u64,
)
    requires
        additive_rule_2d(CARule2D::VonNeumann(key.enc_rule)),
        dims_2d_ok(height, width),
        ({
            let (c0, c1) = encrypt_2d_cells(
                CARule2D::VonNeumann(key.enc_rule),
                width as nat,
                key.steps as nat,
                u64_cells_2d(a, height as nat, width as nat),
                u64_cells_2d(key.iv, height as nat, width as nat),
            );
            packs_2d(ct_a.c0, c0, width as nat) && packs_2d(ct_a.c1, c1, width as nat)
        }),
        ({
            let (c0, c1) = encrypt_2d_cells(
                CARule2D::VonNeumann(key.enc_rule),
                width as nat,
                key.steps as nat,
                u64_cells_2d(b, height as nat, width as nat),
                u64_cells_2d(key.iv, height as nat, width as nat),
            );
            packs_2d(ct_b.c0, c0, width as nat) && packs_2d(ct_b.c1, c1, width as nat)
        }),
        packs_2d(
            pt,
            decrypt_2d_cells(
                CARule2D::VonNeumann(key.enc_rule),
                width as nat,
                key.steps as nat,
                u64_cells_2d(ct_a.c0 ^ ct_b.c0, height as nat, width as nat),
                u64_cells_2d(ct_a.c1 ^ ct_b.c1, height as nat, width as nat),
                u64_cells_2d(key.iv, height as nat, width as nat),
            ),
            width as nat,
        ),
    ensures
        pt == keep_low(a ^ b ^ key.iv, (height * width) as nat),
{
    let h = height as nat;
    let w = width as nat;
    let k = key.steps as nat;
    let rule = CARule2D::VonNeumann(key.enc_rule);
    let ma = u64_cells_2d(a, h, w);
    let mb = u64_cells_2d(b, h, w);
    let iv = u64_cells_2d(key.iv, h, w);
    assert(shaped(ma, h, w));
    assert(shaped(mb, h, w));
    assert(shaped(iv, h, w));
    let (ca0, ca1) = encrypt_2d_cells(rule, w, k, ma, iv);
    let (cb0, cb1) = encrypt_2d_cells(rule, w, k, mb, iv);
    lemma_xor_2d_shape(ma, iv, h, w);
    lemma_xor_2d_shape(mb, iv, h, w);
    lemma_evolve_2d_shape(rule, w, k, xor_cells_2d(ma, iv), iv);
    lemma_evolve_2d_shape(rule, w, k, xor_cells_2d(mb, iv), iv);
    lemma_packs_cells_2d(ct_a.c0, ca0, h, w);
    lemma_packs_cells_2d(ct_a.c1, ca1, h, w);
    lemma_packs_cells_2d(ct_b.c0, cb0, h, w);
    lemma_packs_cells_2d(ct_b.c1, cb1, h, w);
    lemma_cells_of_xor_2d(ct_a.c0, ct_b.c0, h, w);
    lemma_cells_of_xor_2d(ct_a.c1, ct_b.c1, h, w);
    law_xor_homomorphism_2d(rule, w, k, ma, mb, iv);
    lemma_cells_of_xor_2d(a, b, h, w);
    lemma_cells_of_xor_2d(a ^ b, key.iv, h, w);
    lemma_packs_low_bits_2d(pt, a ^ b ^ key.iv, h, w);
}

} // verus!
