//! Facts about single bits of `u64` words, proved with the bit-vector solver.
use vstd::prelude::*;

verus! {

/// Bit `b` (counted from the least significant end) of the word `w`.
pub open spec fn bit(w: u64, b: u64) -> bool {
    (w >> b) & 1u64 == 1u64
}

/// The mask that keeps the low `k` bits of a word, for `0 < k < 64`.
pub open spec fn low_mask(k: u64) -> u64 {
    ((1u64 << k) - 1u64) as u64
}

/// Masking with `low_mask(k)` keeps the bits below `k` and clears the others.
pub proof fn lemma_low_mask_bit(x: u64, k: u64, b: u64)
    by (bit_vector)
    requires
        0 < k < 64,
        b < 64,
    ensures
        bit(x & low_mask(k), b) == (b < k && bit(x, b)),
        x & low_mask(k) < (1u64 << k),
{
}

/// A word below `1 << k` has no bit set at `k` or above.
pub proof fn lemma_below_pow_bit(x: u64, k: u64, b: u64)
    requires
        k < 64,
        b < 64,
        k <= b,
        x < (1u64 << k),
    ensures
        !bit(x, b),
{
    assert((x >> b) & 1u64 != 1u64) by (bit_vector)
        requires
            k < 64,
            b < 64,
            k <= b,
            x < (1u64 << k),
    ;
}

/// Bit `b` of `(x << 1) | c`, for a carry `c` of one bit.
pub proof fn lemma_shl1_or_bit(x: u64, c: u64, b: u64)
    requires
        c <= 1,
        b < 64,
    ensures
        bit((x << 1u64) | c, b) == if b == 0 {
            c == 1
        } else {
            bit(x, (b - 1) as u64)
        },
{
    assert(((((x << 1u64) | c) >> b) & 1u64 == 1u64) == if b == 0 {
        c == 1u64
    } else {
        (x >> ((b - 1) as u64)) & 1u64 == 1u64
    }) by (bit_vector)
        requires
            c <= 1,
            b < 64,
    ;
}

/// Bit `b` of `(x >> 1) | (c << k)`, for a carry `c` of one bit placed at `k`.
pub proof fn lemma_shr1_or_bit(x: u64, c: u64, k: u64, b: u64)
    requires
        c <= 1,
        k < 64,
        b < 64,
    ensures
        bit((x >> 1u64) | (c << k), b) == ((b < 63 && bit(x, (b + 1) as u64)) || (b == k && c
            == 1)),
{
    assert(((((x >> 1u64) | (c << k)) >> b) & 1u64 == 1u64) == ((b < 63 && (x >> ((b + 1) as u64))
        & 1u64 == 1u64) || (b == k && c == 1u64))) by (bit_vector)
        requires
            c <= 1,
            k < 64,
            b < 64,
    ;
}

/// A one-bit extract is a carry: it is 0 or 1, and 1 exactly when the bit is set.
pub proof fn lemma_extract_bit(x: u64, k: u64)
    by (bit_vector)
    requires
        k < 64,
    ensures
        (x >> k) & 1u64 <= 1,
        ((x >> k) & 1u64 == 1) == bit(x, k),
        x & 1u64 <= 1,
        (x & 1u64 == 1) == bit(x, 0),
        x >> 63u64 <= 1,
        (x >> 63u64 == 1) == bit(x, 63),
{
}

/// Setting and clearing one bit leaves the others alone.
pub proof fn lemma_set_clear_bit(x: u64, k: u64, b: u64)
    by (bit_vector)
    requires
        k < 64,
        b < 64,
    ensures
        bit(x | (1u64 << k), b) == (b == k || bit(x, b)),
        bit(x & !(1u64 << k), b) == (b != k && bit(x, b)),
{
}

/// Bits of the three-way bitwise operations.
pub proof fn lemma_logic_bits(x: u64, y: u64, b: u64)
    by (bit_vector)
    requires
        b < 64,
    ensures
        bit(x ^ y, b) == (bit(x, b) != bit(y, b)),
        bit(x & y, b) == (bit(x, b) && bit(y, b)),
        bit(x | y, b) == (bit(x, b) || bit(y, b)),
        bit(!x, b) == !bit(x, b),
        !bit(0u64, b),
        bit(u64::MAX, b),
{
}

/// Bit `bb` of `o | (x << b)`, for a bit `x` placed at `b`.
pub proof fn lemma_or_shifted_bit(o: u64, x: u64, b: u64, bb: u64)
    requires
        x <= 1,
        b < 64,
        bb < 64,
    ensures
        bit(o | (x << b), bb) == (bit(o, bb) || (bb == b && x == 1)),
{
    assert((((o | (x << b)) >> bb) & 1u64 == 1u64) == (((o >> bb) & 1u64 == 1u64) || (bb == b && x
        == 1u64))) by (bit_vector)
        requires
            x <= 1,
            b < 64,
            bb < 64,
    ;
}

/// Five one-bit values packed by shifts and ors are their weighted sum.
pub proof fn lemma_pack5(a: u64, b: u64, c: u64, d: u64, e: u64)
    requires
        a <= 1,
        b <= 1,
        c <= 1,
        d <= 1,
        e <= 1,
    ensures
        (a << 4u64) | (b << 3u64) | (c << 2u64) | (d << 1u64) | e == 16 * a + 8 * b + 4 * c + 2 * d + e,
{
    assert((a << 4u64) | (b << 3u64) | (c << 2u64) | (d << 1u64) | e == 16 * a + 8 * b + 4 * c + 2 * d
        + e) by (bit_vector)
        requires
            a <= 1,
            b <= 1,
            c <= 1,
            d <= 1,
            e <= 1,
    ;
}

/// Nine one-bit values packed by shifts and ors are their weighted sum.
pub proof fn lemma_pack9(
    a: u64,
    b: u64,
    c: u64,
    d: u64,
    e: u64,
    f: u64,
    g: u64,
    h: u64,
    i: u64,
)
    requires
        a <= 1,
        b <= 1,
        c <= 1,
        d <= 1,
        e <= 1,
        f <= 1,
        g <= 1,
        h <= 1,
        i <= 1,
    ensures
        (a << 8u64) | (b << 7u64) | (c << 6u64) | (d << 5u64) | (e << 4u64) | (f << 3u64) | (g
            << 2u64) | (h << 1u64) | i == 256 * a + 128 * b + 64 * c + 32 * d + 16 * e + 8 * f + 4
            * g + 2 * h + i,
{
    assert((a << 8u64) | (b << 7u64) | (c << 6u64) | (d << 5u64) | (e << 4u64) | (f << 3u64) | (g
        << 2u64) | (h << 1u64) | i == 256 * a + 128 * b + 64 * c + 32 * d + 16 * e + 8 * f + 4 * g
        + 2 * h + i) by (bit_vector)
        requires
            a <= 1,
            b <= 1,
            c <= 1,
            d <= 1,
            e <= 1,
            f <= 1,
            g <= 1,
            h <= 1,
            i <= 1,
    ;
}

/// A one-bit extract of a `u32` is 0 or 1.
pub proof fn lemma_extract_bit_u32(x: u32, k: u64)
    requires
        k < 32,
    ensures
        (x >> k) & 1u32 <= 1,
{
    assert((x >> k) & 1u32 <= 1u32) by (bit_vector);
}

/// Facts on words below a power of two, and on masks.
pub proof fn lemma_word_facts(x: u64, y: u64, k: u64, b: u64)
    by (bit_vector)
    requires
        k < 64,
    ensures
        1u64 <= (1u64 << k),
        x & 0xffff_ffff_ffff_ffffu64 == x,
        x & (((1u64 << 0u64) - 1u64) as u64) == 0u64,
        0u64 ^ 0u64 == 0u64,
        x < (1u64 << k) && y < (1u64 << k) ==> x ^ y < (1u64 << k),
        x < (1u64 << k) && b < k ==> (x | (1u64 << b)) < (1u64 << k),
        x & !(1u64 << b) <= x,
{
}

/// Exclusive or of one-bit values.
pub proof fn lemma_small_xor()
    by (bit_vector)
    ensures
        0u64 ^ 0u64 == 0u64,
        0u64 ^ 1u64 == 1u64,
        1u64 ^ 0u64 == 1u64,
        1u64 ^ 1u64 == 0u64,
{
}

/// Two words are equal when all their bits are.
pub proof fn lemma_bits_equal(x: u64, y: u64)
    requires
        forall|b: u64| b < 64 ==> #[trigger] bit(x, b) == bit(y, b),
    ensures
        x == y,
{
    assert forall|b: u64| b < 64 implies (x >> b) & 1u64 == (y >> b) & 1u64 by {
        assert(bit(x, b) == bit(y, b));
        lemma_extract_bit(x, b);
        lemma_extract_bit(y, b);
    }
    assert(bit(x, 0) == bit(y, 0));
    assert(bit(x, 1) == bit(y, 1));
    assert(bit(x, 2) == bit(y, 2));
    assert(bit(x, 3) == bit(y, 3));
    assert(bit(x, 4) == bit(y, 4));
    assert(bit(x, 5) == bit(y, 5));
    assert(bit(x, 6) == bit(y, 6));
    assert(bit(x, 7) == bit(y, 7));
    assert(bit(x, 8) == bit(y, 8));
    assert(bit(x, 9) == bit(y, 9));
    assert(bit(x, 10) == bit(y, 10));
    assert(bit(x, 11) == bit(y, 11));
    assert(bit(x, 12) == bit(y, 12));
    assert(bit(x, 13) == bit(y, 13));
    assert(bit(x, 14) == bit(y, 14));
    assert(bit(x, 15) == bit(y, 15));
    assert(bit(x, 16) == bit(y, 16));
    assert(bit(x, 17) == bit(y, 17));
    assert(bit(x, 18) == bit(y, 18));
    assert(bit(x, 19) == bit(y, 19));
    assert(bit(x, 20) == bit(y, 20));
    assert(bit(x, 21) == bit(y, 21));
    assert(bit(x, 22) == bit(y, 22));
    assert(bit(x, 23) == bit(y, 23));
    assert(bit(x, 24) == bit(y, 24));
    assert(bit(x, 25) == bit(y, 25));
    assert(bit(x, 26) == bit(y, 26));
    assert(bit(x, 27) == bit(y, 27));
    assert(bit(x, 28) == bit(y, 28));
    assert(bit(x, 29) == bit(y, 29));
    assert(bit(x, 30) == bit(y, 30));
    assert(bit(x, 31) == bit(y, 31));
    assert(bit(x, 32) == bit(y, 32));
    assert(bit(x, 33) == bit(y, 33));
    assert(bit(x, 34) == bit(y, 34));
    assert(bit(x, 35) == bit(y, 35));
    assert(bit(x, 36) == bit(y, 36));
    assert(bit(x, 37) == bit(y, 37));
    assert(bit(x, 38) == bit(y, 38));
    assert(bit(x, 39) == bit(y, 39));
    assert(bit(x, 40) == bit(y, 40));
    assert(bit(x, 41) == bit(y, 41));
    assert(bit(x, 42) == bit(y, 42));
    assert(bit(x, 43) == bit(y, 43));
    assert(bit(x, 44) == bit(y, 44));
    assert(bit(x, 45) == bit(y, 45));
    assert(bit(x, 46) == bit(y, 46));
    assert(bit(x, 47) == bit(y, 47));
    assert(bit(x, 48) == bit(y, 48));
    assert(bit(x, 49) == bit(y, 49));
    assert(bit(x, 50) == bit(y, 50));
    assert(bit(x, 51) == bit(y, 51));
    assert(bit(x, 52) == bit(y, 52));
    assert(bit(x, 53) == bit(y, 53));
    assert(bit(x, 54) == bit(y, 54));
    assert(bit(x, 55) == bit(y, 55));
    assert(bit(x, 56) == bit(y, 56));
    assert(bit(x, 57) == bit(y, 57));
    assert(bit(x, 58) == bit(y, 58));
    assert(bit(x, 59) == bit(y, 59));
    assert(bit(x, 60) == bit(y, 60));
    assert(bit(x, 61) == bit(y, 61));
    assert(bit(x, 62) == bit(y, 62));
    assert(bit(x, 63) == bit(y, 63));
    lemma_bits_equal_each(x, y);
}

/// Two words whose 64 bits agree one by one are equal.
proof fn lemma_bits_equal_each(x: u64, y: u64)
    by (bit_vector)
    requires
        (x >> 0u64) & 1u64 == (y >> 0u64) & 1u64,
        (x >> 1u64) & 1u64 == (y >> 1u64) & 1u64,
        (x >> 2u64) & 1u64 == (y >> 2u64) & 1u64,
        (x >> 3u64) & 1u64 == (y >> 3u64) & 1u64,
        (x >> 4u64) & 1u64 == (y >> 4u64) & 1u64,
        (x >> 5u64) & 1u64 == (y >> 5u64) & 1u64,
        (x >> 6u64) & 1u64 == (y >> 6u64) & 1u64,
        (x >> 7u64) & 1u64 == (y >> 7u64) & 1u64,
        (x >> 8u64) & 1u64 == (y >> 8u64) & 1u64,
        (x >> 9u64) & 1u64 == (y >> 9u64) & 1u64,
        (x >> 10u64) & 1u64 == (y >> 10u64) & 1u64,
        (x >> 11u64) & 1u64 == (y >> 11u64) & 1u64,
        (x >> 12u64) & 1u64 == (y >> 12u64) & 1u64,
        (x >> 13u64) & 1u64 == (y >> 13u64) & 1u64,
        (x >> 14u64) & 1u64 == (y >> 14u64) & 1u64,
        (x >> 15u64) & 1u64 == (y >> 15u64) & 1u64,
        (x >> 16u64) & 1u64 == (y >> 16u64) & 1u64,
        (x >> 17u64) & 1u64 == (y >> 17u64) & 1u64,
        (x >> 18u64) & 1u64 == (y >> 18u64) & 1u64,
        (x >> 19u64) & 1u64 == (y >> 19u64) & 1u64,
        (x >> 20u64) & 1u64 == (y >> 20u64) & 1u64,
        (x >> 21u64) & 1u64 == (y >> 21u64) & 1u64,
        (x >> 22u64) & 1u64 == (y >> 22u64) & 1u64,
        (x >> 23u64) & 1u64 == (y >> 23u64) & 1u64,
        (x >> 24u64) & 1u64 == (y >> 24u64) & 1u64,
        (x >> 25u64) & 1u64 == (y >> 25u64) & 1u64,
        (x >> 26u64) & 1u64 == (y >> 26u64) & 1u64,
        (x >> 27u64) & 1u64 == (y >> 27u64) & 1u64,
        (x >> 28u64) & 1u64 == (y >> 28u64) & 1u64,
        (x >> 29u64) & 1u64 == (y >> 29u64) & 1u64,
        (x >> 30u64) & 1u64 == (y >> 30u64) & 1u64,
        (x >> 31u64) & 1u64 == (y >> 31u64) & 1u64,
        (x >> 32u64) & 1u64 == (y >> 32u64) & 1u64,
        (x >> 33u64) & 1u64 == (y >> 33u64) & 1u64,
        (x >> 34u64) & 1u64 == (y >> 34u64) & 1u64,
        (x >> 35u64) & 1u64 == (y >> 35u64) & 1u64,
        (x >> 36u64) & 1u64 == (y >> 36u64) & 1u64,
        (x >> 37u64) & 1u64 == (y >> 37u64) & 1u64,
        (x >> 38u64) & 1u64 == (y >> 38u64) & 1u64,
        (x >> 39u64) & 1u64 == (y >> 39u64) & 1u64,
        (x >> 40u64) & 1u64 == (y >> 40u64) & 1u64,
        (x >> 41u64) & 1u64 == (y >> 41u64) & 1u64,
        (x >> 42u64) & 1u64 == (y >> 42u64) & 1u64,
        (x >> 43u64) & 1u64 == (y >> 43u64) & 1u64,
        (x >> 44u64) & 1u64 == (y >> 44u64) & 1u64,
        (x >> 45u64) & 1u64 == (y >> 45u64) & 1u64,
        (x >> 46u64) & 1u64 == (y >> 46u64) & 1u64,
        (x >> 47u64) & 1u64 == (y >> 47u64) & 1u64,
        (x >> 48u64) & 1u64 == (y >> 48u64) & 1u64,
        (x >> 49u64) & 1u64 == (y >> 49u64) & 1u64,
        (x >> 50u64) & 1u64 == (y >> 50u64) & 1u64,
        (x >> 51u64) & 1u64 == (y >> 51u64) & 1u64,
        (x >> 52u64) & 1u64 == (y >> 52u64) & 1u64,
        (x >> 53u64) & 1u64 == (y >> 53u64) & 1u64,
        (x >> 54u64) & 1u64 == (y >> 54u64) & 1u64,
        (x >> 55u64) & 1u64 == (y >> 55u64) & 1u64,
        (x >> 56u64) & 1u64 == (y >> 56u64) & 1u64,
        (x >> 57u64) & 1u64 == (y >> 57u64) & 1u64,
        (x >> 58u64) & 1u64 == (y >> 58u64) & 1u64,
        (x >> 59u64) & 1u64 == (y >> 59u64) & 1u64,
        (x >> 60u64) & 1u64 == (y >> 60u64) & 1u64,
        (x >> 61u64) & 1u64 == (y >> 61u64) & 1u64,
        (x >> 62u64) & 1u64 == (y >> 62u64) & 1u64,
        (x >> 63u64) & 1u64 == (y >> 63u64) & 1u64,
    ensures
        x == y,
{
}

} // verus!
