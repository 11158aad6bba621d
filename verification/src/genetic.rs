//! The variation operators of the rule search: crossover and mutation of a
//! genome's rule tables and step count. The random draws are arguments, so
//! that each operator is proved for every outcome of them.
use vstd::prelude::*;
use crate::linearity::lut_bit;

verus! {

/// The table whose bits set in `mask` come from `a` and the others from `b`.
pub open spec fn mix_bits(a: u32, b: u32, mask: u32) -> u32 {
    (a & mask) | (b & !mask)
}

/// A step count held to the range `4..=128`.
pub open spec fn clamp_steps(x: int) -> int {
    if x < 4 {
        4
    } else if x > 128 {
        128
    } else {
        x
    }
}

/// The table `x` with bit `b` flipped.
pub open spec fn flip_bit(x: u32, b: u32) -> u32 {
    x ^ (1u32 << b)
}

/// The table `x` with its bits `b1` and `b2` exchanged.
pub open spec fn swap_bits(x: u32, b1: u32, b2: u32) -> u32 {
    if lut_bit(x, b1) != lut_bit(x, b2) {
        x ^ ((1u32 << b1) | (1u32 << b2))
    } else {
        x
    }
}

/// Mixing by a mask takes each bit from the parent that the mask selects.
pub proof fn law_mix_takes_masked_bits(a: u32, b: u32, mask: u32, k: u32)
    by (bit_vector)
    requires
        k < 32,
    ensures
        lut_bit(mix_bits(a, b, mask), k) == if lut_bit(mask, k) {
            lut_bit(a, k)
        } else {
            lut_bit(b, k)
        },
{
}

/// Flipping a bit changes that bit and no other.
pub proof fn law_flip_changes_one_bit(x: u32, b: u32, k: u32)
    by (bit_vector)
    requires
        b < 32,
        k < 32,
    ensures
        lut_bit(flip_bit(x, b), k) == if k == b {
            !lut_bit(x, k)
        } else {
            lut_bit(x, k)
        },
{
}

/// Exchanging two bits moves each to the other's place and leaves the rest.
pub proof fn law_swap_exchanges_bits(x: u32, b1: u32, b2: u32, k: u32)
    by (bit_vector)
    requires
        b1 < 32,
        b2 < 32,
        k < 32,
    ensures
        lut_bit(swap_bits(x, b1, b2), k) == if k == b1 {
            lut_bit(x, b2)
        } else if k == b2 {
            lut_bit(x, b1)
        } else {
            lut_bit(x, k)
        },
{
}

/// Tables of eight entries stay within eight bits under the operators.
proof fn lemma_byte_tables(a: u32, b: u32, mask: u32, b1: u32, b2: u32)
    by (bit_vector)
    ensures
        a < 256 && b < 256 ==> mix_bits(a, b, mask) < 256,
        a < 256 && b1 < 8 ==> flip_bit(a, b1) < 256,
        a < 256 && b1 < 8 && b2 < 8 ==> swap_bits(a, b1, b2) < 256,
        b1 < 32 && b2 < 32 ==> (((a >> b1) & 1 != (a >> b2) & 1) == (lut_bit(a, b1) != lut_bit(
            a,
            b2,
        ))),
{
}

/// Crossover of two genomes `(enc1, eval1, steps1)` and `(enc2, eval2,
/// steps2)`: each rule table is mixed by its random mask, and the step count
/// is the parents' mean plus the random noise, held to `4..=128`.
pub fn crossover_genes(
    enc1: u32,
    eval1: u32,
    steps1: usize,
    enc2: u32,
    eval2: u32,
    steps2: usize,
    mask_enc: u32,
    mask_eval: u32,
    steps_noise: isize,
) -> (child: (u32, u32, usize))
    requires
        steps1 + steps2 <= usize::MAX,
        (steps1 + steps2) / 2 + steps_noise <= isize::MAX,
    ensures
        child.0 == mix_bits(enc1, enc2, mask_enc),
        child.1 == mix_bits(eval1, eval2, mask_eval),
        child.2 == clamp_steps((steps1 + steps2) / 2 + steps_noise),
        enc1 < 256 && enc2 < 256 ==> child.0 < 256,
        eval1 < 256 && eval2 < 256 ==> child.1 < 256,
{
    proof {
        lemma_byte_tables(enc1, enc2, mask_enc, 0, 0);
        lemma_byte_tables(eval1, eval2, mask_eval, 0, 0);
    }
    let enc_lut = (enc1 & mask_enc) | (enc2 & !mask_enc);
    let eval_lut = (eval1 & mask_eval) | (eval2 & !mask_eval);
    let steps_avg = (steps1 + steps2) / 2;
    let steps = clamp_step_count(steps_avg as isize + steps_noise);
    (enc_lut, eval_lut, steps)
}

/// A step count held to `4..=128`.
fn clamp_step_count(x: isize) -> (r: usize)
    ensures
        r == clamp_steps(x as int),
{
    if x < 4 {
        4
    } else if x > 128 {
        128
    } else {
        x as usize
    }
}

/// Mutation of a genome `(enc, eval, steps)` by the random draws that fired:
/// `enc_flip` and `eval_flip` flip one bit of a table, `steps_diff` moves the
/// step count (held to `4..=128`), and `enc_swap` then exchanges two bits of
/// the encryption table.
pub fn mutate_genes(
    enc: u32,
    eval: u32,
    steps: usize,
    enc_flip: Option<u32>,
    eval_flip: Option<u32>,
    steps_diff: Option<isize>,
    enc_swap: Option<(u32, u32)>,
) -> (m: (u32, u32, usize))
    requires
        enc_flip matches Some(b) ==> b < 32,
        eval_flip matches Some(b) ==> b < 32,
        enc_swap matches Some((b1, b2)) ==> b1 < 32 && b2 < 32,
        steps_diff matches Some(d) ==> steps + d <= isize::MAX && steps <= isize::MAX,
    ensures
        ({
            let e1 = match enc_flip {
                Some(b) => flip_bit(enc, b),
                None => enc,
            };
            &&& m.0 == match enc_swap {
                Some((b1, b2)) => swap_bits(e1, b1, b2),
                None => e1,
            }
            &&& m.1 == match eval_flip {
                Some(b) => flip_bit(eval, b),
                None => eval,
            }
            &&& m.2 == match steps_diff {
                Some(d) => clamp_steps(steps + d),
                None => steps as int,
            }
        }),
        enc < 256 && (enc_flip matches Some(b) ==> b < 8) && (enc_swap matches Some((b1, b2)) ==> b1
            < 8 && b2 < 8) ==> m.0 < 256,
        eval < 256 && (eval_flip matches Some(b) ==> b < 8) ==> m.1 < 256,
{
    let mut enc_lut = enc;
    let mut eval_lut = eval;
    let mut step_count = steps;
    if let Some(b) = enc_flip {
        proof {
            lemma_byte_tables(enc_lut, 0, 0, b, 0);
        }
        enc_lut = enc_lut ^ (1u32 << b);
    }
    if let Some(b) = eval_flip {
        proof {
            lemma_byte_tables(eval_lut, 0, 0, b, 0);
        }
        eval_lut = eval_lut ^ (1u32 << b);
    }
    if let Some(d) = steps_diff {
        step_count = clamp_step_count(step_count as isize + d);
    }
    if let Some((b1, b2)) = enc_swap {
        proof {
            lemma_byte_tables(enc_lut, 0, 0, b1, b2);
        }
        let v1 = (enc_lut >> b1) & 1;
        let v2 = (enc_lut >> b2) & 1;
        if v1 != v2 {
            enc_lut = enc_lut ^ ((1u32 << b1) | (1u32 << b2));
        }
    }
    (enc_lut, eval_lut, step_count)
}

} // verus!
