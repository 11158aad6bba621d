//! The exact part of the rule-search fitness: how many test pairs survive
//! homomorphic evaluation (encrypt both, combine the ciphertexts, evolve them
//! under the evaluation rule, decrypt).
use vstd::prelude::*;
use crate::bits::{bit, lemma_bits_equal, lemma_logic_bits};
use crate::grid::{BitGrid, keep_low, xor_cells, lemma_cell_position};
use crate::grid2d::{BitGrid2D, xor_cells_2d};
use crate::ca::{
    ReversibleCA, encrypt, decrypt, encrypt_cells, decrypt_cells, evolve_cells, reverse_cells,
    step_cells, apply_rule_cells, additive_rule, law_evolve_undoes_reverse, law_xor_homomorphism,
    lemma_evolve_len, lemma_rule_zero_evolve,
};
use crate::rule::rule_out;
use crate::ca2d::{
    CARule2D, ReversibleCA2D, encrypt_2d, decrypt_2d, encrypt_2d_cells, decrypt_2d_cells,
    evolve_2d_cells, reverse_2d_cells, shaped, law_evolve_undoes_reverse_2d,
};
use crate::coding::{decode_repetition, encode_repetition, block_majority, count_ones, encoded_cells};

verus! {

/// A test pair `(a, b, va, vb)` passes the XOR check: its homomorphic
/// evaluation (zero IV) decodes to the low `k` bits of `va ^ vb`.
pub open spec fn xor_pair_ok(
    enc: u8,
    eval: u8,
    steps: nat,
    n: nat,
    k: nat,
    pair: (BitGrid, BitGrid, u64, u64),
) -> bool {
    decodes_to(
        keep_low(pair.2 ^ pair.3, k),
        evaluated_cells(enc, eval, steps, zero_cells(n), pair.0@, pair.1@),
        k,
    )
}

/// A test pair `(a, b, va, vb)` passes the addition check: its homomorphic
/// evaluation (zero IV) decodes to the low `k` bits of `va + vb` (wrapping).
pub open spec fn add_pair_ok(
    enc: u8,
    eval: u8,
    steps: nat,
    n: nat,
    k: nat,
    pair: (BitGrid, BitGrid, u64, u64),
) -> bool {
    decodes_to(
        keep_low(vstd::wrapping::u64_specs::wrapping_add(pair.2, pair.3), k),
        evaluated_cells(enc, eval, steps, zero_cells(n), pair.0@, pair.1@),
        k,
    )
}

/// How many of the first `m` pairs pass the XOR check (`add` false) or the
/// addition check (`add` true).
pub open spec fn count_ok(
    add: bool,
    enc: u8,
    eval: u8,
    steps: nat,
    n: nat,
    k: nat,
    pairs: Seq<(BitGrid, BitGrid, u64, u64)>,
    m: nat,
) -> nat
    decreases m,
{
    if m == 0 {
        0
    } else {
        let ok = if add {
            add_pair_ok(enc, eval, steps, n, k, pairs[m - 1])
        } else {
            xor_pair_ok(enc, eval, steps, n, k, pairs[m - 1])
        };
        count_ok(add, enc, eval, steps, n, k, pairs, (m - 1) as nat) + if ok {
            1nat
        } else {
            0nat
        }
    }
}

/// The cells of an all-zero grid of `n` cells.
pub open spec fn zero_cells(n: nat) -> Seq<bool> {
    Seq::new(n, |i: int| false)
}

/// `v` is what majority decoding of `k` bits gives for the cells `s`.
pub open spec fn decodes_to(v: u64, s: Seq<bool>, k: nat) -> bool {
    forall|b: u64| b < 64 ==> #[trigger] bit(v, b) == (b < k && block_majority(s, k, b as int))
}

/// The cells that the plaintexts `a` and `b` decrypt to after homomorphic
/// evaluation: both encrypted under `enc`, their ciphertext pairs combined by
/// exclusive or, evolved under `eval`, and decrypted under `enc`.
pub open spec fn evaluated_cells(
    enc: u8,
    eval: u8,
    k: nat,
    iv: Seq<bool>,
    a: Seq<bool>,
    b: Seq<bool>,
) -> Seq<bool> {
    let (ca0, ca1) = encrypt_cells(enc, k, a, iv);
    let (cb0, cb1) = encrypt_cells(enc, k, b, iv);
    let (e0, e1) = evolve_cells(eval, k, xor_cells(ca0, cb0), xor_cells(ca1, cb1));
    decrypt_cells(enc, k, e0, e1, iv)
}

/// The 2D counterpart of `evaluated_cells`.
pub open spec fn evaluated_cells_2d(
    enc: CARule2D,
    eval: CARule2D,
    w: nat,
    k: nat,
    iv: Seq<Seq<bool>>,
    a: Seq<Seq<bool>>,
    b: Seq<Seq<bool>>,
) -> Seq<Seq<bool>> {
    let (ca0, ca1) = encrypt_2d_cells(enc, w, k, a, iv);
    let (cb0, cb1) = encrypt_2d_cells(enc, w, k, b, iv);
    let (e0, e1) = evolve_2d_cells(eval, w, k, xor_cells_2d(ca0, cb0), xor_cells_2d(ca1, cb1));
    decrypt_2d_cells(enc, w, k, e0, e1, iv)
}

/// Two words that majority decoding gives for the same cells are equal.
pub proof fn lemma_decodes_to_unique(v1: u64, v2: u64, s: Seq<bool>, k: nat)
    requires
        decodes_to(v1, s, k),
    ensures
        decodes_to(v2, s, k) == (v1 == v2),
{
    if decodes_to(v2, s, k) {
        assert forall|b: u64| b < 64 implies #[trigger] bit(v1, b) == bit(v2, b) by {}
        lemma_bits_equal(v1, v2);
    }
}

/// Homomorphic evaluation of one pair: encrypt `grid_a` and `grid_b` under
/// `enc_lut`, combine and evolve the ciphertexts under `eval_lut`, decrypt
/// under `enc_lut` and decode `k_bits` bits by majority.
pub fn evaluate_pair(
    enc_lut: u8,
    eval_lut: u8,
    steps: usize,
    iv: &BitGrid,
    grid_a: &BitGrid,
    grid_b: &BitGrid,
    k_bits: usize,
) -> (v: u64)
    requires
        iv.wf(),
        grid_a.wf(),
        grid_b.wf(),
        grid_a.size == iv.size,
        grid_b.size == iv.size,
        iv.size + 63 <= usize::MAX,
        0 < k_bits <= 64,
        k_bits <= iv.size,
    ensures
        decodes_to(
            v,
            evaluated_cells(enc_lut, eval_lut, steps as nat, iv@, grid_a@, grid_b@),
            k_bits as nat,
        ),
{
    let (c_a0, c_a1) = encrypt(grid_a, iv, enc_lut, steps);
    let (c_b0, c_b1) = encrypt(grid_b, iv, enc_lut, steps);

    let c_sum0 = c_a0.xor(&c_b0);
    let c_sum1 = c_a1.xor(&c_b1);

    let ca_eval = ReversibleCA::new(eval_lut, steps);
    let (c_eval0, c_eval1) = ca_eval.evolve(&c_sum0, &c_sum1);

    let dec = decrypt(&c_eval0, &c_eval1, iv, enc_lut, steps);
    decode_repetition(&dec, k_bits)
}

/// The low `k` bits of a word, as the fitness checks compare them.
fn k_mask(k_bits: usize) -> (m: u64)
    requires
        0 < k_bits <= 64,
    ensures
        forall|v: u64| #[trigger] (v & m) == keep_low(v, k_bits as nat),
{
    let m = if k_bits == 64 {
        u64::MAX
    } else {
        proof {
            crate::bits::lemma_word_facts(0, 0, k_bits as u64, 0);
        }
        (1u64 << (k_bits as u64)) - 1
    };
    proof {
        assert forall|v: u64| #[trigger] (v & m) == keep_low(v, k_bits as nat) by {
            if k_bits == 64 {
                crate::bits::lemma_word_facts(v, 0, 0, 0);
            }
        }
    }
    m
}

/// XOR homomorphism accuracy count: the number of test pairs `(a, b, va, vb)`
/// whose homomorphic evaluation (zero IV) decodes to the low `k_bits` bits of
/// `va ^ vb`.
pub fn count_xor_correct(
    enc_lut: u8,
    eval_lut: u8,
    steps: usize,
    grid_size: usize,
    k_bits: usize,
    xor_pairs: &[(BitGrid, BitGrid, u64, u64)],
) -> (count: usize)
    requires
        grid_size + 63 <= usize::MAX,
        0 < k_bits <= 64,
        k_bits <= grid_size,
        forall|j: int|
            0 <= j < xor_pairs@.len() ==> (#[trigger] xor_pairs@[j]).0.wf() && xor_pairs@[j].0.size
                == grid_size && xor_pairs@[j].1.wf() && xor_pairs@[j].1.size == grid_size,
    ensures
        count == count_ok(
            false,
            enc_lut,
            eval_lut,
            steps as nat,
            grid_size as nat,
            k_bits as nat,
            xor_pairs@,
            xor_pairs@.len(),
        ),
        count <= xor_pairs@.len(),
{
    let iv = BitGrid::new(grid_size);
    assert(iv@ =~= zero_cells(grid_size as nat));
    let k_mask = k_mask(k_bits);
    let mut xor_correct: usize = 0;
    for j in 0..xor_pairs.len()
        invariant
            iv.wf(),
            iv.size == grid_size,
            iv@ == zero_cells(grid_size as nat),
            grid_size + 63 <= usize::MAX,
            0 < k_bits <= 64,
            k_bits <= grid_size,
            forall|v: u64| #[trigger] (v & k_mask) == keep_low(v, k_bits as nat),
            forall|jj: int|
                0 <= jj < xor_pairs@.len() ==> (#[trigger] xor_pairs@[jj]).0.wf()
                    && xor_pairs@[jj].0.size == grid_size && xor_pairs@[jj].1.wf()
                    && xor_pairs@[jj].1.size == grid_size,
            xor_correct == count_ok(false, enc_lut, eval_lut, steps as nat, grid_size as nat, k_bits as nat, xor_pairs@, j as nat),
            xor_correct <= j,
    {
        let (grid_a, grid_b, val_a, val_b) = &xor_pairs[j];
        let decoded_val = evaluate_pair(enc_lut, eval_lut, steps, &iv, grid_a, grid_b, k_bits);
        let expected = (*val_a ^ *val_b) & k_mask;
        proof {
            let cells = evaluated_cells(
                enc_lut,
                eval_lut,
                steps as nat,
                iv@,
                grid_a@,
                grid_b@,
            );
            lemma_decodes_to_unique(decoded_val, expected, cells, k_bits as nat);
            assert(xor_pairs@[j as int].0 == *grid_a);
            assert(xor_pairs@[j as int].2 == *val_a);
            assert(expected == keep_low(xor_pairs@[j as int].2 ^ xor_pairs@[j as int].3, k_bits as nat));
            assert(decodes_to(expected, cells, k_bits as nat) == (decoded_val == expected));
            assert(xor_pair_ok(enc_lut, eval_lut, steps as nat, grid_size as nat, k_bits as nat, xor_pairs@[j as int]) == (decoded_val == expected));
        }
        if decoded_val == expected {
            xor_correct += 1;
        }
    }
    xor_correct
}

/// Addition homomorphism accuracy count: the number of test pairs
/// `(a, b, va, vb)` whose homomorphic evaluation (zero IV) decodes to the low
/// `k_bits` bits of `va + vb` (wrapping).
pub fn count_add_correct(
    enc_lut: u8,
    eval_lut: u8,
    steps: usize,
    grid_size: usize,
    k_bits: usize,
    add_pairs: &[(BitGrid, BitGrid, u64, u64)],
) -> (count: usize)
    requires
        grid_size + 63 <= usize::MAX,
        0 < k_bits <= 64,
        k_bits <= grid_size,
        forall|j: int|
            0 <= j < add_pairs@.len() ==> (#[trigger] add_pairs@[j]).0.wf() && add_pairs@[j].0.size
                == grid_size && add_pairs@[j].1.wf() && add_pairs@[j].1.size == grid_size,
    ensures
        count == count_ok(
            true,
            enc_lut,
            eval_lut,
            steps as nat,
            grid_size as nat,
            k_bits as nat,
            add_pairs@,
            add_pairs@.len(),
        ),
        count <= add_pairs@.len(),
{
    let iv = BitGrid::new(grid_size);
    assert(iv@ =~= zero_cells(grid_size as nat));
    let k_mask = k_mask(k_bits);
    let mut add_correct: usize = 0;
    for j in 0..add_pairs.len()
        invariant
            iv.wf(),
            iv.size == grid_size,
            iv@ == zero_cells(grid_size as nat),
            grid_size + 63 <= usize::MAX,
            0 < k_bits <= 64,
            k_bits <= grid_size,
            forall|v: u64| #[trigger] (v & k_mask) == keep_low(v, k_bits as nat),
            forall|jj: int|
                0 <= jj < add_pairs@.len() ==> (#[trigger] add_pairs@[jj]).0.wf()
                    && add_pairs@[jj].0.size == grid_size && add_pairs@[jj].1.wf()
                    && add_pairs@[jj].1.size == grid_size,
            add_correct == count_ok(true, enc_lut, eval_lut, steps as nat, grid_size as nat, k_bits as nat, add_pairs@, j as nat),
            add_correct <= j,
    {
        let (grid_a, grid_b, val_a, val_b) = &add_pairs[j];
        let decoded_val = evaluate_pair(enc_lut, eval_lut, steps, &iv, grid_a, grid_b, k_bits);
        let expected = val_a.wrapping_add(*val_b) & k_mask;
        proof {
            let cells = evaluated_cells(
                enc_lut,
                eval_lut,
                steps as nat,
                iv@,
                grid_a@,
                grid_b@,
            );
            lemma_decodes_to_unique(decoded_val, expected, cells, k_bits as nat);
            assert(add_pair_ok(enc_lut, eval_lut, steps as nat, grid_size as nat, k_bits as nat, add_pairs@[j as int]) == (decoded_val == expected));
        }
        if decoded_val == expected {
            add_correct += 1;
        }
    }
    add_correct
}

/// The cells of an all-zero grid of `h` rows of `w` cells.
pub open spec fn zero_cells_2d(h: nat, w: nat) -> Seq<Seq<bool>> {
    Seq::new(h, |y: int| zero_cells(w))
}

/// A 2D test pair `(a, b)` passes the XOR check: under the von Neumann rules
/// `enc` and `eval`, its homomorphic evaluation (zero IV) decrypts to `a ^ b`.
pub open spec fn xor_pair_ok_2d(
    enc: u32,
    eval: u32,
    steps: nat,
    h: nat,
    w: nat,
    pair: (BitGrid2D, BitGrid2D),
) -> bool {
    evaluated_cells_2d(
        CARule2D::VonNeumann(enc),
        CARule2D::VonNeumann(eval),
        w,
        steps,
        zero_cells_2d(h, w),
        pair.0@,
        pair.1@,
    ) == xor_cells_2d(pair.0@, pair.1@)
}

/// How many of the first `m` 2D pairs pass the XOR check.
pub open spec fn count_ok_2d(
    enc: u32,
    eval: u32,
    steps: nat,
    h: nat,
    w: nat,
    pairs: Seq<(BitGrid2D, BitGrid2D)>,
    m: nat,
) -> nat
    decreases m,
{
    if m == 0 {
        0
    } else {
        count_ok_2d(enc, eval, steps, h, w, pairs, (m - 1) as nat) + if xor_pair_ok_2d(
            enc,
            eval,
            steps,
            h,
            w,
            pairs[m - 1],
        ) {
            1nat
        } else {
            0nat
        }
    }
}

/// Homomorphic evaluation of one 2D pair: encrypt `grid_a` and `grid_b`
/// under `rule_enc`, combine and evolve the ciphertexts under `rule_eval`,
/// and decrypt under `rule_enc`.
pub fn evaluate_pair_2d(
    rule_enc: &CARule2D,
    rule_eval: &CARule2D,
    steps: usize,
    iv: &BitGrid2D,
    grid_a: &BitGrid2D,
    grid_b: &BitGrid2D,
) -> (dec: BitGrid2D)
    requires
        iv.wf(),
        grid_a.wf(),
        grid_b.wf(),
        grid_a.height == iv.height,
        grid_a.width == iv.width,
        grid_b.height == iv.height,
        grid_b.width == iv.width,
        iv.width + 63 <= usize::MAX,
    ensures
        dec.wf(),
        dec.height == iv.height,
        dec.width == iv.width,
        dec@ == evaluated_cells_2d(
            *rule_enc,
            *rule_eval,
            iv.width as nat,
            steps as nat,
            iv@,
            grid_a@,
            grid_b@,
        ),
{
    let (c_a0, c_a1) = encrypt_2d(grid_a, iv, rule_enc, steps);
    let (c_b0, c_b1) = encrypt_2d(grid_b, iv, rule_enc, steps);

    let c_sum0 = c_a0.xor(&c_b0);
    let c_sum1 = c_a1.xor(&c_b1);

    let ca_eval = ReversibleCA2D::new(rule_eval.clone(), steps);
    let (c_eval0, c_eval1) = ca_eval.evolve(&c_sum0, &c_sum1);

    decrypt_2d(&c_eval0, &c_eval1, iv, rule_enc, steps)
}

/// 2D XOR homomorphism accuracy count: the number of test pairs `(a, b)`
/// whose homomorphic evaluation under the von Neumann rules `enc_lut` and
/// `eval_lut` (zero IV) decrypts to `a ^ b`.
pub fn count_xor_correct_2d(
    enc_lut: u32,
    eval_lut: u32,
    steps: usize,
    height: usize,
    width: usize,
    test_pairs: &[(BitGrid2D, BitGrid2D)],
) -> (count: usize)
    requires
        width + 63 <= usize::MAX,
        test_pairs@.len() > 0 ==> height > 0 && width > 0,
        forall|j: int|
            0 <= j < test_pairs@.len() ==> {
                let (a, b) = #[trigger] test_pairs@[j];
                &&& a.wf() && a.height == height && a.width == width
                &&& b.wf() && b.height == height && b.width == width
            },
    ensures
        count == count_ok_2d(
            enc_lut,
            eval_lut,
            steps as nat,
            height as nat,
            width as nat,
            test_pairs@,
            test_pairs@.len(),
        ),
        count <= test_pairs@.len(),
{
    let iv = BitGrid2D::new(height, width);
    let rule_enc = CARule2D::VonNeumann(enc_lut);
    let rule_eval = CARule2D::VonNeumann(eval_lut);
    proof {
        assert(iv@ =~= zero_cells_2d(height as nat, width as nat));
    }
    let mut xor_correct: usize = 0;
    for j in 0..test_pairs.len()
        invariant
            iv.wf(),
            iv.height == height,
            iv.width == width,
            iv@ == zero_cells_2d(height as nat, width as nat),
            rule_enc == CARule2D::VonNeumann(enc_lut),
            rule_eval == CARule2D::VonNeumann(eval_lut),
            width + 63 <= usize::MAX,
            test_pairs@.len() > 0 ==> height > 0 && width > 0,
            forall|jj: int|
                0 <= jj < test_pairs@.len() ==> {
                    let (a, b) = #[trigger] test_pairs@[jj];
                    &&& a.wf() && a.height == height && a.width == width
                    &&& b.wf() && b.height == height && b.width == width
                },
            xor_correct == count_ok_2d(
                enc_lut,
                eval_lut,
                steps as nat,
                height as nat,
                width as nat,
                test_pairs@,
                j as nat,
            ),
            xor_correct <= j,
    {
        let (grid_a, grid_b) = &test_pairs[j];
        proof {
            assert(test_pairs@[j as int].0 == *grid_a);
            assert(test_pairs@[j as int].1 == *grid_b);
        }
        let dec = evaluate_pair_2d(&rule_enc, &rule_eval, steps, &iv, grid_a, grid_b);
        let expected_xor = grid_a.xor(grid_b);
        if dec.same_cells(&expected_xor) {
            xor_correct += 1;
        }
    }
    xor_correct
}

/// The number of cells in which the cell sequences `a` and `b` differ.
pub open spec fn differing_cells(a: Seq<bool>, b: Seq<bool>) -> nat {
    count_ones(xor_cells(a, b), 0, a.len() as int)
}

/// The number of cells in which two grids of one size differ.
fn hamming_distance(a: &BitGrid, b: &BitGrid) -> (d: usize)
    requires
        a.wf(),
        b.wf(),
        a.size == b.size,
    ensures
        d == differing_cells(a@, b@),
{
    let mut d: usize = 0;
    for i in 0..a.size
        invariant
            a.wf(),
            b.wf(),
            a.size == b.size,
            d == count_ones(xor_cells(a@, b@), 0, i as int),
            d <= i,
    {
        proof {
            lemma_cell_position(i as int, a.size as nat);
        }
        if a.get_bit(i) != b.get_bit(i) {
            d += 1;
        }
    }
    d
}

/// The avalanche distances of one plaintext grid `grid_m` of value `val_m`:
/// its ciphertext pair under `enc_lut` (zero IV) against that of the
/// repetition code of `val_m` with bit `pos` flipped, as the number of cells
/// in which each half of the pair differs.
pub fn avalanche_distances(
    enc_lut: u8,
    steps: usize,
    grid_size: usize,
    k_bits: usize,
    grid_m: &BitGrid,
    val_m: u64,
    pos: usize,
) -> (r: (usize, usize))
    requires
        grid_m.wf(),
        grid_m.size == grid_size,
        grid_size + 63 <= usize::MAX,
        0 < k_bits <= 64,
        k_bits <= grid_size,
        pos < k_bits,
    ensures
        ({
            let zero = zero_cells(grid_size as nat);
            let flipped = encoded_cells(val_m ^ (1u64 << (pos as u64)), k_bits as nat, grid_size as nat);
            let c = encrypt_cells(enc_lut, steps as nat, grid_m@, zero);
            let f = encrypt_cells(enc_lut, steps as nat, flipped, zero);
            r.0 == differing_cells(c.0, f.0) && r.1 == differing_cells(c.1, f.1)
        }),
{
    let iv = BitGrid::new(grid_size);
    assert(iv@ =~= zero_cells(grid_size as nat));
    let c = encrypt(grid_m, &iv, enc_lut, steps);
    let val_flipped = val_m ^ (1u64 << (pos as u64));
    let grid_flipped = encode_repetition(val_flipped, k_bits, grid_size);
    let c_flipped = encrypt(&grid_flipped, &iv, enc_lut, steps);
    let hd0 = hamming_distance(&c.0, &c_flipped.0);
    let hd1 = hamming_distance(&c.1, &c_flipped.1);
    (hd0, hd1)
}

/// The number of cells among the first 64 of each row (or all, in rows of
/// fewer) in which the first `m` rows of `a` and `b` differ.
pub open spec fn leading_row_diffs(a: Seq<Seq<bool>>, b: Seq<Seq<bool>>, w: nat, m: nat) -> nat
    decreases m,
{
    if m == 0 {
        0
    } else {
        leading_row_diffs(a, b, w, (m - 1) as nat) + count_ones(
            xor_cells(a[m - 1], b[m - 1]),
            0,
            if w < 64 {
                w as int
            } else {
                64
            },
        )
    }
}

/// The number of differing cells among the first 64 of each row of two grids
/// of the same dimensions.
fn leading_word_distance(a: &BitGrid2D, b: &BitGrid2D) -> (d: usize)
    requires
        a.wf(),
        b.wf(),
        a.height == b.height,
        a.width == b.width,
        64 * a.height <= usize::MAX,
    ensures
        d == leading_row_diffs(a@, b@, a.width as nat, a.height as nat),
        d <= 64 * a.height,
{
    let lim = if a.width < 64 {
        a.width
    } else {
        64
    };
    let mut d: usize = 0;
    for y in 0..a.height
        invariant
            a.wf(),
            b.wf(),
            a.height == b.height,
            a.width == b.width,
            lim == if a.width < 64 {
                a.width
            } else {
                64
            },
            d == leading_row_diffs(a@, b@, a.width as nat, y as nat),
            d <= 64 * y,
            64 * a.height <= usize::MAX,
    {
        let ghost row_a = a@[y as int];
        let ghost row_b = b@[y as int];
        let mut dy: usize = 0;
        for x in 0..lim
            invariant
                a.wf(),
                b.wf(),
                a.height == b.height,
                a.width == b.width,
                0 <= y < a.height,
                lim <= a.width,
                lim <= 64,
                row_a == a@[y as int],
                row_b == b@[y as int],
                dy == count_ones(xor_cells(row_a, row_b), 0, x as int),
                dy <= x,
        {
            proof {
                lemma_cell_position(x as int, a.width as nat);
            }
            if a.get_cell(y, x) != b.get_cell(y, x) {
                dy += 1;
            }
        }
        d += dy;
    }
    d
}

/// The avalanche distance of one 2D plaintext grid `grid_m` for test `i`:
/// its ciphertext pair under the von Neumann rule `enc_lut` (zero IV)
/// against that of `grid_m` with cell `(i % height, 3 i % width)` flipped,
/// counted over the first 64 cells of each row of both halves.
pub fn avalanche_distance_2d(
    enc_lut: u32,
    steps: usize,
    height: usize,
    width: usize,
    grid_m: &BitGrid2D,
    i: usize,
) -> (hd: usize)
    requires
        grid_m.wf(),
        grid_m.height == height,
        grid_m.width == width,
        height > 0,
        width > 0,
        width + 63 <= usize::MAX,
        i * 3 <= usize::MAX,
        128 * height <= usize::MAX,
    ensures
        ({
            let zero = zero_cells_2d(height as nat, width as nat);
            let rule = CARule2D::VonNeumann(enc_lut);
            let y = (i % height) as int;
            let x = (i * 3) % (width as int);
            let flipped = grid_m@.update(y, grid_m@[y].update(x, !grid_m@[y][x]));
            let c = encrypt_2d_cells(rule, width as nat, steps as nat, grid_m@, zero);
            let f = encrypt_2d_cells(rule, width as nat, steps as nat, flipped, zero);
            hd == leading_row_diffs(c.0, f.0, width as nat, height as nat) + leading_row_diffs(
                c.1,
                f.1,
                width as nat,
                height as nat,
            )
        }),
{
    let iv = BitGrid2D::new(height, width);
    proof {
        assert(iv@ =~= zero_cells_2d(height as nat, width as nat));
    }
    let rule_enc = CARule2D::VonNeumann(enc_lut);
    let c = encrypt_2d(grid_m, &iv, &rule_enc, steps);

    let pos_y = i % height;
    let pos_x = (i * 3) % width;
    let mut grid_flipped = grid_m.clone();
    proof {
        assert(grid_flipped@ =~= grid_m@);
        assert(grid_flipped.wf());
        lemma_cell_position(pos_x as int, width as nat);
    }
    let current_val = grid_flipped.get_cell(pos_y, pos_x);
    grid_flipped.set_cell(pos_y, pos_x, !current_val);

    let c_flipped = encrypt_2d(&grid_flipped, &iv, &rule_enc, steps);
    let hd0 = leading_word_distance(&c.0, &c_flipped.0);
    let hd1 = leading_word_distance(&c.1, &c_flipped.1);
    hd0 + hd1
}

/// Homomorphic evaluation decrypts what the evaluation rule makes of the
/// combined ciphertext: for every pair `(e0, e1)` whose reverse evolution by
/// `k` steps under `eval` is the cell-wise exclusive or of the two ciphertext
/// pairs of `a` and `b`, the evaluated cells are the decryption of `(e0, e1)`.
pub proof fn law_evaluation_decrypts_evolved(
    enc: u8,
    eval: u8,
    k: nat,
    iv: Seq<bool>,
    a: Seq<bool>,
    b: Seq<bool>,
    e0: Seq<bool>,
    e1: Seq<bool>,
)
    requires
        e0.len() == e1.len(),
        ({
            let (ca0, ca1) = encrypt_cells(enc, k, a, iv);
            let (cb0, cb1) = encrypt_cells(enc, k, b, iv);
            reverse_cells(eval, k, e0, e1) == (xor_cells(ca0, cb0), xor_cells(ca1, cb1))
        }),
    ensures
        evaluated_cells(enc, eval, k, iv, a, b) == decrypt_cells(enc, k, e0, e1, iv),
{
    law_evolve_undoes_reverse(eval, k, e0, e1);
}

/// With evaluation rule 0, evaluation only swaps the combined ciphertext pair
/// once per step: after an even number of steps an additive encryption rule
/// decrypts it to `a ^ b ^ iv`, after an odd number the swapped pair is
/// decrypted.
pub proof fn law_rule_zero_evaluation(enc: u8, k: nat, iv: Seq<bool>, a: Seq<bool>, b: Seq<bool>)
    requires
        a.len() == iv.len(),
        b.len() == iv.len(),
    ensures
        k % 2 == 0 && additive_rule(enc) ==> evaluated_cells(enc, 0, k, iv, a, b) == xor_cells(
            xor_cells(a, b),
            iv,
        ),
        k % 2 == 1 ==> ({
            let (ca0, ca1) = encrypt_cells(enc, k, a, iv);
            let (cb0, cb1) = encrypt_cells(enc, k, b, iv);
            evaluated_cells(enc, 0, k, iv, a, b) == decrypt_cells(
                enc,
                k,
                xor_cells(ca1, cb1),
                xor_cells(ca0, cb0),
                iv,
            )
        }),
{
    let (ca0, ca1) = encrypt_cells(enc, k, a, iv);
    let (cb0, cb1) = encrypt_cells(enc, k, b, iv);
    lemma_evolve_len(enc, k, xor_cells(a, iv), iv);
    lemma_evolve_len(enc, k, xor_cells(b, iv), iv);
    lemma_rule_zero_evolve(k, xor_cells(ca0, cb0), xor_cells(ca1, cb1));
    if k % 2 == 0 && additive_rule(enc) {
        law_xor_homomorphism(enc, k, a, b, iv);
    }
}

/// The 2D counterpart: for every pair `(e0, e1)` of one shape whose reverse
/// evolution by `k` steps under `eval` is the cell-wise exclusive or of the
/// two ciphertext pairs, the evaluated cells are the decryption of `(e0, e1)`.
pub proof fn law_evaluation_decrypts_evolved_2d(
    enc: CARule2D,
    eval: CARule2D,
    w: nat,
    k: nat,
    iv: Seq<Seq<bool>>,
    a: Seq<Seq<bool>>,
    b: Seq<Seq<bool>>,
    e0: Seq<Seq<bool>>,
    e1: Seq<Seq<bool>>,
)
    requires
        shaped(e0, e1.len(), w),
        shaped(e1, e1.len(), w),
        ({
            let (ca0, ca1) = encrypt_2d_cells(enc, w, k, a, iv);
            let (cb0, cb1) = encrypt_2d_cells(enc, w, k, b, iv);
            reverse_2d_cells(eval, w, k, e0, e1) == (xor_cells_2d(ca0, cb0), xor_cells_2d(ca1, cb1))
        }),
    ensures
        evaluated_cells_2d(enc, eval, w, k, iv, a, b) == decrypt_2d_cells(enc, w, k, e0, e1, iv),
{
    law_evolve_undoes_reverse_2d(eval, w, k, e0, e1);
}

/// The addition check reads only the low `k` bits of the sum, and the carry
/// out of bit `k - 1` is dropped: a pair passes it exactly when the pair with
/// the same grids whose values' exclusive or has those low bits passes the
/// XOR check.
pub proof fn law_add_check_low_bits(
    enc: u8,
    eval: u8,
    steps: nat,
    n: nat,
    k: nat,
    p: (BitGrid, BitGrid, u64, u64),
    q: (BitGrid, BitGrid, u64, u64),
)
    requires
        0 < k <= 64,
        p.0 == q.0,
        p.1 == q.1,
        keep_low(vstd::wrapping::u64_specs::wrapping_add(p.2, p.3), k) == keep_low(q.2 ^ q.3, k),
    ensures
        add_pair_ok(enc, eval, steps, n, k, p) == xor_pair_ok(enc, eval, steps, n, k, q),
{
}

/// The set cells of two sequences that agree on `lo..hi` are counted alike.
proof fn lemma_count_ones_agree(s: Seq<bool>, t: Seq<bool>, lo: int, hi: int)
    requires
        forall|i: int| lo <= i < hi ==> s[i] == t[i],
    ensures
        count_ones(s, lo, hi) == count_ones(t, lo, hi),
    decreases hi - lo,
{
    if lo < hi {
        lemma_count_ones_agree(s, t, lo, hi - 1);
    }
}

/// Two empty sequences differ in no cell.
pub proof fn law_differing_cells_empty()
    ensures
        differing_cells(Seq::<bool>::empty(), Seq::<bool>::empty()) == 0,
{
}

/// Extending two sequences of one length by a cell each adds one differing
/// cell exactly when the two new cells differ.
pub proof fn law_differing_cells_push(a: Seq<bool>, b: Seq<bool>, x: bool, y: bool)
    requires
        a.len() == b.len(),
    ensures
        differing_cells(a.push(x), b.push(y)) == differing_cells(a, b) + if x != y {
            1nat
        } else {
            0nat
        },
{
    let n = a.len() as int;
    let s = xor_cells(a.push(x), b.push(y));
    let t = xor_cells(a, b);
    lemma_count_ones_agree(s, t, 0, n);
    assert(s[n] == (x != y));
}

/// Each row adds to the leading-row distance the number of cells in which
/// its first `min(w, 64)` cells differ.
pub proof fn law_leading_row_diffs_step(a: Seq<Seq<bool>>, b: Seq<Seq<bool>>, w: nat, m: nat)
    requires
        m < a.len(),
        m < b.len(),
        a[m as int].len() == w,
        b[m as int].len() == w,
    ensures
        ({
            let lim = if w < 64 {
                w as int
            } else {
                64
            };
            leading_row_diffs(a, b, w, m + 1) == leading_row_diffs(a, b, w, m) + differing_cells(
                a[m as int].take(lim),
                b[m as int].take(lim),
            )
        }),
{
    let lim = if w < 64 {
        w as int
    } else {
        64
    };
    let ra = a[m as int];
    let rb = b[m as int];
    lemma_count_ones_agree(
        xor_cells(ra, rb),
        xor_cells(ra.take(lim), rb.take(lim)),
        0,
        lim,
    );
}

} // verus!
