//! Affine (linear over GF(2)) elementary and von Neumann rules, and how far a
//! rule's lookup table is from the nearest affine one.
use vstd::prelude::*;

verus! {

/// Entry `idx` of a lookup table held in the low bits of `lut`.
pub open spec fn lut_bit(lut: u32, idx: u32) -> bool {
    (lut >> idx) & 1u32 == 1u32
}

/// Bit `k` of a table index.
pub open spec fn idx_bit(idx: u32, k: u32) -> bool {
    (idx >> k) & 1u32 == 1u32
}

/// The affine function over GF(2) with coefficient bits `coef` (bit 0 the
/// constant, bit `k + 1` the coefficient of input bit `k`) on the `n` input
/// bits of `idx`.
pub open spec fn affine_value(coef: u32, n: u32, idx: u32) -> bool
    decreases n,
{
    if n == 0 {
        idx_bit(coef, 0)
    } else {
        affine_value(coef, (n - 1) as u32, idx) != (idx_bit(coef, n) && idx_bit(idx, (n - 1) as u32))
    }
}

/// The number of table entries among the first `m` at which the table `lut`
/// differs from the affine function `coef` of `n` inputs.
pub open spec fn mismatches(lut: u32, coef: u32, n: u32, m: u32) -> nat
    decreases m,
{
    if m == 0 {
        0
    } else {
        mismatches(lut, coef, n, (m - 1) as u32) + if lut_bit(lut, (m - 1) as u32) != affine_value(
            coef,
            n,
            (m - 1) as u32,
        ) {
            1nat
        } else {
            0nat
        }
    }
}

/// The Hamming distance between the table of a rule of `n` inputs and the
/// affine function `coef`.
pub open spec fn affine_distance(lut: u32, coef: u32, n: u32) -> nat {
    mismatches(lut, coef, n, (1u32 << n) as u32)
}

/// The table `lut` of a rule of `n` inputs equals the affine function `coef`.
pub open spec fn is_affine_table(lut: u32, coef: u32, n: u32) -> bool {
    forall|idx: u32| idx < (1u32 << n) ==> #[trigger] lut_bit(lut, idx) == affine_value(coef, n, idx)
}

/// The term of input bit `k` of an affine function: coefficient `k + 1` and
/// input bit `k` both set.
pub open spec fn affine_term(coef: u32, idx: u32, k: u32) -> bool {
    idx_bit(coef, (k + 1) as u32) && idx_bit(idx, k)
}

/// The affine function of three inputs, unfolded.
pub open spec fn affine3(coef: u32, idx: u32) -> bool {
    let t = idx_bit(coef, 0) != affine_term(coef, idx, 0);
    let t = t != affine_term(coef, idx, 1);
    t != affine_term(coef, idx, 2)
}

/// The affine function of five inputs, unfolded.
pub open spec fn affine5(coef: u32, idx: u32) -> bool {
    let t = idx_bit(coef, 0) != affine_term(coef, idx, 0);
    let t = t != affine_term(coef, idx, 1);
    let t = t != affine_term(coef, idx, 2);
    let t = t != affine_term(coef, idx, 3);
    t != affine_term(coef, idx, 4)
}

/// `affine_value` of three inputs is `affine3`.
pub proof fn lemma_affine3(coef: u32, idx: u32)
    ensures
        affine_value(coef, 3, idx) == affine3(coef, idx),
{
    reveal_with_fuel(affine_value, 4);
}

/// `affine_value` of five inputs is `affine5`.
pub proof fn lemma_affine5(coef: u32, idx: u32)
    ensures
        affine_value(coef, 5, idx) == affine5(coef, idx),
{
    reveal_with_fuel(affine_value, 6);
}

/// The exclusive or of products that the three-input check computes is the
/// affine function's value, as a bit.
pub proof fn lemma_affine3_word(a0: u32, a1: u32, a2: u32, a3: u32, idx: u32)
    requires
        a0 <= 1,
        a1 <= 1,
        a2 <= 1,
        a3 <= 1,
        idx < 8,
    ensures
        ({
            let x0 = (idx >> 0u32) & 1;
            let x1 = (idx >> 1u32) & 1;
            let x2 = (idx >> 2u32) & 1;
            let e = ((a3 * x2) as u32) ^ ((a2 * x1) as u32) ^ ((a1 * x0) as u32) ^ a0;
            let coef = a0 + 2 * a1 + 4 * a2 + 8 * a3;
            &&& x0 <= 1 && x1 <= 1 && x2 <= 1
            &&& e <= 1
            &&& coef < 16
            &&& (e == 1) == affine_value(coef as u32, 3, idx)
        }),
{
    let coef = (a0 + 2 * a1 + 4 * a2 + 8 * a3) as u32;
    lemma_affine3(coef, idx);
    let x0 = (idx >> 0u32) & 1;
    let x1 = (idx >> 1u32) & 1;
    let x2 = (idx >> 2u32) & 1;
    let e = ((a3 * x2) as u32) ^ ((a2 * x1) as u32) ^ ((a1 * x0) as u32) ^ a0;
    assert(forall|v: u32, k: u32| #[trigger] ((v >> k) & 1u32) <= 1u32) by (bit_vector);
    assert(e <= 1 && ((e == 1) == affine3(coef, idx))) by (bit_vector)
        requires
            a0 <= 1,
            a1 <= 1,
            a2 <= 1,
            a3 <= 1,
            idx < 8,
            coef == (a0 + 2 * a1 + 4 * a2 + 8 * a3) as u32,
            x0 == (idx >> 0u32) & 1,
            x1 == (idx >> 1u32) & 1,
            x2 == (idx >> 2u32) & 1,
            e == ((a3 * x2) as u32) ^ ((a2 * x1) as u32) ^ ((a1 * x0) as u32) ^ a0,
    ;
}

/// The exclusive or of products that the five-input check computes is the
/// affine function's value, as a bit.
pub proof fn lemma_affine5_word(coef: u32, idx: u32)
    requires
        coef < 64,
        idx < 32,
    ensures
        ({
            let x0 = (idx >> 0u32) & 1;
            let x1 = (idx >> 1u32) & 1;
            let x2 = (idx >> 2u32) & 1;
            let x3 = (idx >> 3u32) & 1;
            let x4 = (idx >> 4u32) & 1;
            let a0 = coef & 1;
            let a1 = (coef >> 1u32) & 1;
            let a2 = (coef >> 2u32) & 1;
            let a3 = (coef >> 3u32) & 1;
            let a4 = (coef >> 4u32) & 1;
            let a5 = (coef >> 5u32) & 1;
            let e = ((a5 * x4) as u32) ^ ((a4 * x3) as u32) ^ ((a3 * x2) as u32) ^ ((a2 * x1) as u32) ^ ((a1 * x0) as u32) ^ a0;
            &&& x0 <= 1 && x1 <= 1 && x2 <= 1 && x3 <= 1 && x4 <= 1
            &&& a0 <= 1 && a1 <= 1 && a2 <= 1 && a3 <= 1 && a4 <= 1 && a5 <= 1
            &&& e <= 1
            &&& (e == 1) == affine_value(coef, 5, idx)
        }),
{
    lemma_affine5(coef, idx);
    let x0 = (idx >> 0u32) & 1;
    let x1 = (idx >> 1u32) & 1;
    let x2 = (idx >> 2u32) & 1;
    let x3 = (idx >> 3u32) & 1;
    let x4 = (idx >> 4u32) & 1;
    let a0 = coef & 1;
    let a1 = (coef >> 1u32) & 1;
    let a2 = (coef >> 2u32) & 1;
    let a3 = (coef >> 3u32) & 1;
    let a4 = (coef >> 4u32) & 1;
    let a5 = (coef >> 5u32) & 1;
    let e = ((a5 * x4) as u32) ^ ((a4 * x3) as u32) ^ ((a3 * x2) as u32) ^ ((a2 * x1) as u32) ^ ((a1 * x0) as u32) ^ a0;
    assert(forall|v: u32, k: u32| #[trigger] ((v >> k) & 1u32) <= 1u32) by (bit_vector);
    assert(coef & 1u32 <= 1u32) by (bit_vector);
    assert(e <= 1 && ((e == 1) == affine5(coef, idx))) by (bit_vector)
        requires
            coef < 64,
            idx < 32,
            x0 == (idx >> 0u32) & 1,
            x1 == (idx >> 1u32) & 1,
            x2 == (idx >> 2u32) & 1,
            x3 == (idx >> 3u32) & 1,
            x4 == (idx >> 4u32) & 1,
            a0 == coef & 1,
            a1 == (coef >> 1u32) & 1,
            a2 == (coef >> 2u32) & 1,
            a3 == (coef >> 3u32) & 1,
            a4 == (coef >> 4u32) & 1,
            a5 == (coef >> 5u32) & 1,
            e == ((a5 * x4) as u32) ^ ((a4 * x3) as u32) ^ ((a3 * x2) as u32) ^ ((a2 * x1) as u32) ^ ((a1 * x0) as u32) ^ a0,
    ;
}

/// Entry `idx` of an elementary rule's table, as the checks compute it.
pub proof fn lemma_rule_entry(rule_lut: u8, idx: u32)
    requires
        idx < 8,
    ensures
        ((rule_lut >> idx) & 1u8) <= 1,
        (((rule_lut >> idx) & 1u8) == 1) == lut_bit(rule_lut as u32, idx),
{
    assert(((rule_lut >> idx) & 1u8) <= 1 && ((((rule_lut >> idx) & 1u8) == 1u8) == (((
    rule_lut as u32) >> idx) & 1u32 == 1u32))) by (bit_vector)
        requires
            idx < 8,
    ;
}

/// Entry `idx` of a von Neumann rule's table, as the checks compute it.
pub proof fn lemma_rule_entry_2d(rule_lut: u32, idx: u32)
    requires
        idx < 32,
    ensures
        ((rule_lut >> idx) & 1u32) <= 1,
        (((rule_lut >> idx) & 1u32) == 1) == lut_bit(rule_lut, idx),
{
    assert(((rule_lut >> idx) & 1u32) <= 1) by (bit_vector);
}

/// `mismatches` counts the entries below `m` at which the table and the affine
/// function differ: it is at most `m`, and 0 exactly when they agree on all.
pub proof fn lemma_mismatches(lut: u32, coef: u32, n: u32, m: u32)
    ensures
        mismatches(lut, coef, n, m) <= m,
        (mismatches(lut, coef, n, m) == 0) == (forall|i: u32|
            i < m ==> #[trigger] lut_bit(lut, i) == affine_value(coef, n, i)),
    decreases m,
{
    if m > 0 {
        lemma_mismatches(lut, coef, n, (m - 1) as u32);
        if mismatches(lut, coef, n, m) == 0 {
            assert forall|i: u32| i < m implies #[trigger] lut_bit(lut, i) == affine_value(
                coef,
                n,
                i,
            ) by {
                if i < m - 1 {
                    assert(lut_bit(lut, i) == affine_value(coef, n, i));
                }
            }
        }
        if forall|i: u32| i < m ==> #[trigger] lut_bit(lut, i) == affine_value(coef, n, i) {
            assert(lut_bit(lut, (m - 1) as u32) == affine_value(coef, n, (m - 1) as u32));
        }
    }
}

/// Sizes of the tables of three- and five-input rules.
pub proof fn lemma_table_sizes()
    ensures
        (1u32 << 3u32) == 8,
        (1u32 << 5u32) == 32,
{
    assert((1u32 << 3u32) == 8u32) by (bit_vector);
    assert((1u32 << 5u32) == 32u32) by (bit_vector);
}

/// Whether an elementary rule is affine over GF(2): its table equals
/// `a3 x2 ^ a2 x1 ^ a1 x0 ^ a0` for some coefficients, `x0 .. x2` being the
/// bits of the table index.
pub fn is_linear_rule(rule_lut: u8) -> (r: bool)
    ensures
        r == exists|coef: u32| coef < 16 && #[trigger] is_affine_table(rule_lut as u32, coef, 3),
{
    let ghost lut = rule_lut as u32;
    proof {
        lemma_table_sizes();
    }
    for a0 in 0u32..2
        invariant
            lut == rule_lut as u32,
            (1u32 << 3u32) == 8,
            forall|c: u32| c < 16 && c % 2 < a0 ==> !#[trigger] is_affine_table(lut, c, 3),
    {
        for a1 in 0u32..2
            invariant
                a0 < 2,
                lut == rule_lut as u32,
                (1u32 << 3u32) == 8,
                forall|c: u32|
                    c < 16 && (c % 2 < a0 || (c % 2 == a0 && (c / 2) % 2 < a1)) ==> !#[trigger] is_affine_table(
                        lut,
                        c,
                        3,
                    ),
        {
            for a2 in 0u32..2
                invariant
                    a0 < 2,
                    a1 < 2,
                    lut == rule_lut as u32,
                    (1u32 << 3u32) == 8,
                    forall|c: u32|
                        c < 16 && (c % 2 < a0 || (c % 2 == a0 && (c / 2) % 2 < a1) || (c % 2 == a0
                            && (c / 2) % 2 == a1 && (c / 4) % 2 < a2)) ==> !#[trigger] is_affine_table(
                            lut,
                            c,
                            3,
                        ),
            {
                for a3 in 0u32..2
                    invariant
                        a0 < 2,
                        a1 < 2,
                        a2 < 2,
                        lut == rule_lut as u32,
                        (1u32 << 3u32) == 8,
                        forall|c: u32|
                            c < 16 && (c % 2 < a0 || (c % 2 == a0 && (c / 2) % 2 < a1) || (c % 2
                                == a0 && (c / 2) % 2 == a1 && (c / 4) % 2 < a2) || (c % 2 == a0 && (c
                                / 2) % 2 == a1 && (c / 4) % 2 == a2 && (c / 8) % 2 < a3)) ==> !#[trigger] is_affine_table(
                                lut,
                                c,
                                3,
                            ),
                {
                    let ghost coef: u32 = (a0 + 2 * a1 + 4 * a2 + 8 * a3) as u32;
                    let mut match_found = true;
                    let mut idx: u32 = 0;
                    while idx < 8
                        invariant_except_break
                            match_found,
                        invariant
                            idx <= 8,
                            a0 < 2,
                            a1 < 2,
                            a2 < 2,
                            a3 < 2,
                            lut == rule_lut as u32,
                            coef == a0 + 2 * a1 + 4 * a2 + 8 * a3,
                            forall|i: u32| i < idx ==> #[trigger] lut_bit(lut, i) == affine_value(
                                coef,
                                3,
                                i,
                            ),
                        ensures
                            match_found ==> forall|i: u32|
                                i < 8 ==> #[trigger] lut_bit(lut, i) == affine_value(coef, 3, i),
                            !match_found ==> idx < 8 && lut_bit(lut, idx) != affine_value(coef, 3, idx),
                        decreases 8 - idx,
                    {
                        let x0 = (idx >> 0u32) & 1;
                        let x1 = (idx >> 1u32) & 1;
                        let x2 = (idx >> 2u32) & 1;
                        proof {
                            lemma_affine3_word(a0, a1, a2, a3, idx);
                            lemma_rule_entry(rule_lut, idx);
                        }
                        let expected = (a3 * x2) ^ (a2 * x1) ^ (a1 * x0) ^ a0;
                        let actual = ((rule_lut >> idx) & 1) as u32;
                        if expected != actual {
                            match_found = false;
                            break;
                        }
                        idx += 1;
                    }
                    if match_found {
                        assert(is_affine_table(lut, coef, 3));
                        return true;
                    }
                    assert(!is_affine_table(lut, coef, 3));
                }
            }
        }
    }
    false
}

/// The least Hamming distance between an elementary rule's table and the 16
/// affine functions of three inputs (the integer part of its nonlinearity
/// score).
pub fn min_affine_distance(rule_lut: u8) -> (d: u32)
    ensures
        d <= 8,
        exists|coef: u32| coef < 16 && #[trigger] affine_distance(rule_lut as u32, coef, 3) == d,
        forall|coef: u32| coef < 16 ==> d <= #[trigger] affine_distance(rule_lut as u32, coef, 3),
{
    let ghost lut = rule_lut as u32;
    proof {
        lemma_table_sizes();
    }
    let mut min_dist: u32 = 8;
    for a0 in 0u32..2
        invariant
            lut == rule_lut as u32,
            (1u32 << 3u32) == 8,
            min_dist <= 8,
            min_dist == 8 || exists|c: u32| c < 16 && #[trigger] affine_distance(lut, c, 3) == min_dist,
            forall|c: u32| c < 16 && c % 2 < a0 ==> min_dist <= #[trigger] affine_distance(lut, c, 3),
    {
        for a1 in 0u32..2
            invariant
                a0 < 2,
                lut == rule_lut as u32,
                (1u32 << 3u32) == 8,
                min_dist <= 8,
                min_dist == 8 || exists|c: u32|
                    c < 16 && #[trigger] affine_distance(lut, c, 3) == min_dist,
                forall|c: u32|
                    c < 16 && (c % 2 < a0 || (c % 2 == a0 && (c / 2) % 2 < a1)) ==> min_dist
                        <= #[trigger] affine_distance(lut, c, 3),
        {
            for a2 in 0u32..2
                invariant
                    a0 < 2,
                    a1 < 2,
                    lut == rule_lut as u32,
                    (1u32 << 3u32) == 8,
                    min_dist <= 8,
                    min_dist == 8 || exists|c: u32|
                        c < 16 && #[trigger] affine_distance(lut, c, 3) == min_dist,
                    forall|c: u32|
                        c < 16 && (c % 2 < a0 || (c % 2 == a0 && (c / 2) % 2 < a1) || (c % 2 == a0
                            && (c / 2) % 2 == a1 && (c / 4) % 2 < a2)) ==> min_dist
                            <= #[trigger] affine_distance(lut, c, 3),
            {
                for a3 in 0u32..2
                    invariant
                        a0 < 2,
                        a1 < 2,
                        a2 < 2,
                        lut == rule_lut as u32,
                        (1u32 << 3u32) == 8,
                        min_dist <= 8,
                        min_dist == 8 || exists|c: u32|
                            c < 16 && #[trigger] affine_distance(lut, c, 3) == min_dist,
                        forall|c: u32|
                            c < 16 && (c % 2 < a0 || (c % 2 == a0 && (c / 2) % 2 < a1) || (c % 2
                                == a0 && (c / 2) % 2 == a1 && (c / 4) % 2 < a2) || (c % 2 == a0 && (c
                                / 2) % 2 == a1 && (c / 4) % 2 == a2 && (c / 8) % 2 < a3)) ==> min_dist
                                <= #[trigger] affine_distance(lut, c, 3),
                {
                    let ghost coef: u32 = (a0 + 2 * a1 + 4 * a2 + 8 * a3) as u32;
                    let mut dist: u32 = 0;
                    for idx in 0u32..8
                        invariant
                            a0 < 2,
                            a1 < 2,
                            a2 < 2,
                            a3 < 2,
                            lut == rule_lut as u32,
                            coef == a0 + 2 * a1 + 4 * a2 + 8 * a3,
                            dist == mismatches(lut, coef, 3, idx),
                            dist <= idx,
                    {
                        let x0 = (idx >> 0u32) & 1;
                        let x1 = (idx >> 1u32) & 1;
                        let x2 = (idx >> 2u32) & 1;
                        proof {
                            lemma_affine3_word(a0, a1, a2, a3, idx);
                            lemma_rule_entry(rule_lut, idx);
                            assert(x0 <= 1 && x1 <= 1 && x2 <= 1);
                        }
                        let affine = (a3 * x2) ^ (a2 * x1) ^ (a1 * x0) ^ a0;
                        let actual = ((rule_lut >> idx) & 1) as u32;
                        if affine != actual {
                            dist += 1;
                        }
                    }
                    assert(dist == affine_distance(lut, coef, 3));
                    if dist < min_dist {
                        min_dist = dist;
                    }
                }
            }
        }
    }
    proof {
        if min_dist == 8 {
            lemma_mismatches(lut, 0, 3, 8);
            assert(affine_distance(lut, 0, 3) == 8);
        }
    }
    min_dist
}

/// The least Hamming distance between a von Neumann rule's table and the 64
/// affine functions of five inputs (the integer part of its nonlinearity
/// score).
pub fn min_affine_distance_2d(rule_lut: u32) -> (d: u32)
    ensures
        d <= 32,
        exists|coef: u32| coef < 64 && #[trigger] affine_distance(rule_lut, coef, 5) == d,
        forall|coef: u32| coef < 64 ==> d <= #[trigger] affine_distance(rule_lut, coef, 5),
{
    proof {
        lemma_table_sizes();
    }
    let mut min_dist: u32 = 32;
    for coef in 0u32..64
        invariant
            (1u32 << 5u32) == 32,
            min_dist <= 32,
            min_dist == 32 || exists|c: u32|
                c < 64 && #[trigger] affine_distance(rule_lut, c, 5) == min_dist,
            forall|c: u32| c < coef ==> min_dist <= #[trigger] affine_distance(rule_lut, c, 5),
    {
        let mut dist: u32 = 0;
        for idx in 0u32..32
            invariant
                coef < 64,
                dist == mismatches(rule_lut, coef, 5, idx),
                dist <= idx,
        {
            let x0 = (idx >> 0u32) & 1;
            let x1 = (idx >> 1u32) & 1;
            let x2 = (idx >> 2u32) & 1;
            let x3 = (idx >> 3u32) & 1;
            let x4 = (idx >> 4u32) & 1;

            let a0 = coef & 1;
            let a1 = (coef >> 1u32) & 1;
            let a2 = (coef >> 2u32) & 1;
            let a3 = (coef >> 3u32) & 1;
            let a4 = (coef >> 4u32) & 1;
            let a5 = (coef >> 5u32) & 1;
            proof {
                lemma_affine5_word(coef, idx);
                lemma_rule_entry_2d(rule_lut, idx);
            }
            let affine = (a5 * x4) ^ (a4 * x3) ^ (a3 * x2) ^ (a2 * x1) ^ (a1 * x0) ^ a0;
            let actual = (rule_lut >> idx) & 1;
            if affine != actual {
                dist += 1;
            }
        }
        assert(dist == affine_distance(rule_lut, coef, 5));
        if dist < min_dist {
            min_dist = dist;
        }
    }
    proof {
        if min_dist == 32 {
            lemma_mismatches(rule_lut, 0, 5, 32);
            assert(affine_distance(rule_lut, 0, 5) == 32);
        }
    }
    min_dist
}

/// Whether a von Neumann rule is affine over GF(2): its nonlinearity score,
/// the least distance to an affine table, is zero.
pub fn is_linear_rule_2d(rule_lut: u32) -> (r: bool)
    ensures
        r == exists|coef: u32| coef < 64 && #[trigger] is_affine_table(rule_lut, coef, 5),
{
    let d = min_affine_distance_2d(rule_lut);
    proof {
        lemma_table_sizes();
        if d == 0 {
            let c = choose|c: u32| c < 64 && #[trigger] affine_distance(rule_lut, c, 5) == 0;
            lemma_mismatches(rule_lut, c, 5, 32);
            assert(is_affine_table(rule_lut, c, 5));
        } else {
            assert forall|c: u32| c < 64 implies !#[trigger] is_affine_table(rule_lut, c, 5) by {
                lemma_mismatches(rule_lut, c, 5, 32);
                assert(d <= affine_distance(rule_lut, c, 5));
            }
        }
    }
    d == 0
}

/// An elementary rule is affine (what `is_linear_rule` answers) exactly when
/// its least distance to an affine table (what `min_affine_distance` returns)
/// is zero.
pub proof fn law_linear_iff_zero_distance(rule_lut: u8, d: u32)
    requires
        exists|coef: u32| coef < 16 && #[trigger] affine_distance(rule_lut as u32, coef, 3) == d,
        forall|coef: u32| coef < 16 ==> d <= #[trigger] affine_distance(rule_lut as u32, coef, 3),
    ensures
        (exists|coef: u32| coef < 16 && #[trigger] is_affine_table(rule_lut as u32, coef, 3)) <==> d
            == 0,
{
    lemma_table_sizes();
    let lut = rule_lut as u32;
    if d == 0 {
        let c = choose|c: u32| c < 16 && #[trigger] affine_distance(lut, c, 3) == d;
        lemma_mismatches(lut, c, 3, 8);
        assert(is_affine_table(lut, c, 3));
    } else {
        assert forall|c: u32| c < 16 implies !#[trigger] is_affine_table(lut, c, 3) by {
            lemma_mismatches(lut, c, 3, 8);
            assert(d <= affine_distance(lut, c, 3));
        }
    }
}

} // verus!
