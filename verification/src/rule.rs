//! Elementary (radius-one, binary) cellular automaton rules in Wolfram's
//! numbering, applied to 64 cells at once.
use vstd::prelude::*;
use crate::bits::bit;

verus! {

/// The position in a rule's lookup table of the neighbourhood `(l, c, r)`:
/// `4 l + 2 c + r`.
pub open spec fn neighbourhood_index(l: bool, c: bool, r: bool) -> u8 {
    ((if l {
        4u8
    } else {
        0u8
    }) + (if c {
        2u8
    } else {
        0u8
    }) + (if r {
        1u8
    } else {
        0u8
    })) as u8
}

/// The new state that elementary rule `rule` gives a cell whose left
/// neighbour, own state and right neighbour are `l`, `c` and `r`.
pub open spec fn rule_out(rule: u8, l: bool, c: bool, r: bool) -> bool {
    (rule >> neighbourhood_index(l, c, r)) & 1u8 == 1u8
}

/// The rule applied to 64 cells at once: bit `b` of the result is the rule's
/// output for bits `b` of `l`, `c` and `r`. Each of the eight table entries
/// that is set contributes the minterm of its neighbourhood.
pub open spec fn rule_word(rule: u8, l: u64, c: u64, r: u64) -> u64 {
    let nl = !l;
    let nc = !c;
    let nr = !r;
    let o0 = 0u64;
    let o1 = if rule & 1u8 != 0 { o0 | (nl & nc & nr) } else { o0 };
    let o2 = if rule & 2u8 != 0 { o1 | (nl & nc & r) } else { o1 };
    let o3 = if rule & 4u8 != 0 { o2 | (nl & c & nr) } else { o2 };
    let o4 = if rule & 8u8 != 0 { o3 | (nl & c & r) } else { o3 };
    let o5 = if rule & 16u8 != 0 { o4 | (l & nc & nr) } else { o4 };
    let o6 = if rule & 32u8 != 0 { o5 | (l & nc & r) } else { o5 };
    let o7 = if rule & 64u8 != 0 { o6 | (l & c & nr) } else { o6 };
    if rule & 128u8 != 0 { o7 | (l & c & r) } else { o7 }
}

/// Bit `b` of `rule_word` is the rule's output for bits `b` of its inputs.
pub proof fn lemma_rule_word_bit(rule: u8, l: u64, c: u64, r: u64, b: u64)
    requires
        b < 64,
    ensures
        bit(rule_word(rule, l, c, r), b) == rule_out(rule, bit(l, b), bit(c, b), bit(r, b)),
{
    let lb = bit(l, b);
    let cb = bit(c, b);
    let rb = bit(r, b);
    let idx = neighbourhood_index(lb, cb, rb);
    let w = rule_word(rule, l, c, r);
    assert(((w >> b) & 1u64 == 1u64) == ((rule >> idx) & 1u8 == 1u8)) by (bit_vector)
        requires
            b < 64,
            lb == ((l >> b) & 1u64 == 1u64),
            cb == ((c >> b) & 1u64 == 1u64),
            rb == ((r >> b) & 1u64 == 1u64),
            idx == ((if lb { 4u8 } else { 0u8 }) + (if cb { 2u8 } else { 0u8 }) + (if rb {
                1u8
            } else {
                0u8
            })) as u8,
            w == ({
                let nl = !l;
                let nc = !c;
                let nr = !r;
                let o0 = 0u64;
                let o1 = if rule & 1u8 != 0 { o0 | (nl & nc & nr) } else { o0 };
                let o2 = if rule & 2u8 != 0 { o1 | (nl & nc & r) } else { o1 };
                let o3 = if rule & 4u8 != 0 { o2 | (nl & c & nr) } else { o2 };
                let o4 = if rule & 8u8 != 0 { o3 | (nl & c & r) } else { o3 };
                let o5 = if rule & 16u8 != 0 { o4 | (l & nc & nr) } else { o4 };
                let o6 = if rule & 32u8 != 0 { o5 | (l & nc & r) } else { o5 };
                let o7 = if rule & 64u8 != 0 { o6 | (l & c & nr) } else { o6 };
                if rule & 128u8 != 0 { o7 | (l & c & r) } else { o7 }
            }),
    ;
}

/// Apply elementary rule `rule` to 64 cells at once, given the words of their
/// left neighbours, their own states and their right neighbours.
pub fn rule_word_exec(rule: u8, l: u64, c: u64, r: u64) -> (out: u64)
    ensures
        forall|b: u64|
            b < 64 ==> #[trigger] bit(out, b) == rule_out(rule, bit(l, b), bit(c, b), bit(r, b)),
{
    let not_l = !l;
    let not_c = !c;
    let not_r = !r;
    let mut out = 0u64;
    if (rule & 1) != 0 {
        out |= not_l & not_c & not_r;
    }
    if (rule & 2) != 0 {
        out |= not_l & not_c & r;
    }
    if (rule & 4) != 0 {
        out |= not_l & c & not_r;
    }
    if (rule & 8) != 0 {
        out |= not_l & c & r;
    }
    if (rule & 16) != 0 {
        out |= l & not_c & not_r;
    }
    if (rule & 32) != 0 {
        out |= l & not_c & r;
    }
    if (rule & 64) != 0 {
        out |= l & c & not_r;
    }
    if (rule & 128) != 0 {
        out |= l & c & r;
    }
    proof {
        assert(out == rule_word(rule, l, c, r));
        assert forall|b: u64| b < 64 implies #[trigger] bit(out, b) == rule_out(
            rule,
            bit(l, b),
            bit(c, b),
            bit(r, b),
        ) by {
            lemma_rule_word_bit(rule, l, c, r, b);
        }
    }
    out
}

/// A word whose every bit is the rule's output for the bits of `l`, `c` and
/// `r` is `rule_word(rule, l, c, r)`.
pub proof fn lemma_rule_word_of_bits(out: u64, rule: u8, l: u64, c: u64, r: u64)
    requires
        forall|b: u64|
            b < 64 ==> #[trigger] bit(out, b) == rule_out(rule, bit(l, b), bit(c, b), bit(r, b)),
    ensures
        out == rule_word(rule, l, c, r),
{
    assert forall|b: u64| b < 64 implies #[trigger] bit(out, b) == bit(rule_word(rule, l, c, r), b) by {
        lemma_rule_word_bit(rule, l, c, r, b);
    }
    crate::bits::lemma_bits_equal(out, rule_word(rule, l, c, r));
}

} // verus!
