//! Hex decoding of a challenge seed given as text: an optional `0x` or `0X`
//! prefix, then two characters per byte, each pair read as `u8::from_str_radix`
//! with radix 16 reads it (an optional `+` sign, then hex digits).
use vstd::prelude::*;

verus! {

/// The value of an ASCII hex digit (`0`-`9` are 48-57, `a`-`f` 97-102,
/// `A`-`F` 65-70).
pub open spec fn hex_digit(c: u8) -> Option<u8> {
    if 48 <= c <= 57 {
        Some((c - 48) as u8)
    } else if 97 <= c <= 102 {
        Some((c - 87) as u8)
    } else if 65 <= c <= 70 {
        Some((c - 55) as u8)
    } else {
        None
    }
}

/// The byte that the two characters `a b` denote in radix 16: either two hex
/// digits, or a `+` sign (43) followed by one.
pub open spec fn hex_pair(a: u8, b: u8) -> Option<u8> {
    if a == 43 {
        hex_digit(b)
    } else {
        match (hex_digit(a), hex_digit(b)) {
            (Some(x), Some(y)) => Some((16 * x + y) as u8),
            _ => None,
        }
    }
}

/// The text after an optional `0x` or `0X` prefix (`0` is 48, `x` 120, `X` 88).
pub open spec fn hex_body(s: Seq<u8>) -> Seq<u8> {
    if s.len() >= 2 && s[0] == 48 && (s[1] == 120 || s[1] == 88) {
        s.subrange(2, s.len() as int)
    } else {
        s
    }
}

/// A UTF-8 continuation byte: no character starts there.
pub open spec fn is_continuation(c: u8) -> bool {
    128 <= c < 192
}

/// The two bytes at `i` can be cut out of the text `s`: both lie within it
/// and the cut falls on character boundaries.
pub open spec fn pair_cut_ok(s: Seq<u8>, i: int) -> bool {
    &&& i + 2 <= s.len()
    &&& !is_continuation(s[i])
    &&& (i + 2 == s.len() || !is_continuation(s[i + 2]))
}

/// The pair at `i` can be cut out and denotes a byte.
pub open spec fn pair_ok(s: Seq<u8>, i: int) -> bool {
    pair_cut_ok(s, i) && hex_pair(s[i], s[i + 1]) is Some
}

/// Every pair that starts below `i` denotes a byte.
pub open spec fn pairs_ok_below(s: Seq<u8>, i: int) -> bool {
    forall|k: int| 0 <= k < i && k % 2 == 0 ==> #[trigger] pair_ok(s, k)
}

/// Decoding reads pairs until one does not denote a byte; each pair that it
/// reaches must be one that can be cut out.
pub open spec fn hex_decodable(s: Seq<u8>) -> bool {
    forall|i: int|
        0 <= i < s.len() && i % 2 == 0 && pairs_ok_below(s, i) ==> #[trigger] pair_cut_ok(s, i)
}

fn hex_digit_value(c: u8) -> (r: Option<u8>)
    ensures
        r == hex_digit(c),
{
    if 48 <= c && c <= 57 {
        Some(c - 48)
    } else if 97 <= c && c <= 102 {
        Some(c - 87)
    } else if 65 <= c && c <= 70 {
        Some(c - 55)
    } else {
        None
    }
}

fn hex_pair_value(a: u8, b: u8) -> (r: Option<u8>)
    ensures
        r == hex_pair(a, b),
{
    if a == 43 {
        hex_digit_value(b)
    } else {
        match (hex_digit_value(a), hex_digit_value(b)) {
            (Some(x), Some(y)) => Some(16 * x + y),
            _ => None,
        }
    }
}

fn is_continuation_byte(c: u8) -> (r: bool)
    ensures
        r == is_continuation(c),
{
    128 <= c && c < 192
}

/// Where the body of the text `s` starts: after a `0x` or `0X` prefix.
fn body_start(s: &[u8]) -> (start: usize)
    ensures
        start <= s.len(),
        hex_body(s@) == s@.subrange(start as int, s@.len() as int),
{
    if s.len() >= 2 && s[0] == 48 && (s[1] == 120 || s[1] == 88) {
        2
    } else {
        proof {
            assert(s@ == s@.subrange(0, s@.len() as int));
        }
        0
    }
}

/// Whether decoding the text `s` stays within it: every pair it reaches, up
/// to the first that does not denote a byte, can be cut out.
pub fn hex_decodable_input(s: &[u8]) -> (ok: bool)
    ensures
        ok == hex_decodable(hex_body(s@)),
{
    let start = body_start(s);
    let ghost b = hex_body(s@);
    let n = s.len();
    let mut i = start;
    while i < n
        invariant
            start <= i <= n,
            n == s.len(),
            b == s@.subrange(start as int, n as int),
            b == hex_body(s@),
            (i - start) % 2 == 0,
            pairs_ok_below(b, i - start),
            forall|k: int|
                0 <= k < i - start && k % 2 == 0 && pairs_ok_below(b, k) ==> #[trigger] pair_cut_ok(b, k),
        decreases n - i,
    {
        let ghost k = i - start;
        let cut = n - i >= 2 && !is_continuation_byte(s[i]) && (n - i == 2 || !is_continuation_byte(
            s[i + 2],
        ));
        proof {
            assert(b[k] == s@[i as int]);
            if n - i >= 2 {
                assert(b[k + 1] == s@[i + 1]);
            }
            if n - i > 2 {
                assert(b[k + 2] == s@[i + 2]);
            }
        }
        assert(cut == pair_cut_ok(b, k));
        if !cut {
            proof {
                assert(!(0 <= k < b.len() && k % 2 == 0 && pairs_ok_below(b, k) ==> pair_cut_ok(b, k)));
            }
            return false;
        }
        if hex_pair_value(s[i], s[i + 1]).is_none() {
            proof {
                assert forall|m: int|
                    0 <= m < b.len() && m % 2 == 0 && pairs_ok_below(b, m) implies #[trigger] pair_cut_ok(b, m) by {
                    if m > k {
                        assert(!pair_ok(b, k));
                    }
                }
            }
            return true;
        }
        proof {
            assert(pair_ok(b, k));
            assert forall|m: int| 0 <= m < k + 2 && m % 2 == 0 implies #[trigger] pair_ok(b, m) by {}
        }
        i = i + 2;
    }
    true
}

/// Decodes a hex string given as its bytes: `None` where a pair is not a
/// radix-16 byte, else the bytes that the pairs denote.
pub fn decode_hex(s: &[u8]) -> (r: Option<Vec<u8>>)
    requires
        hex_decodable(hex_body(s@)),
    ensures
        ({
            let b = hex_body(s@);
            &&& r is Some <==> pairs_ok_below(b, b.len() as int) && b.len() % 2 == 0
            &&& r matches Some(v) ==> v@.len() * 2 == b.len() && forall|k: int|
                0 <= k < v@.len() ==> Some(#[trigger] v@[k]) == hex_pair(b[2 * k], b[2 * k + 1])
        }),
{
    let start = body_start(s);
    let ghost b = hex_body(s@);
    let n = s.len();
    let mut out: Vec<u8> = Vec::new();
    let mut i = start;
    while i < n
        invariant
            start <= i <= n,
            n == s.len(),
            b == s@.subrange(start as int, n as int),
            b == hex_body(s@),
            hex_decodable(b),
            (i - start) % 2 == 0,
            pairs_ok_below(b, i - start),
            out@.len() * 2 == i - start,
            forall|k: int|
                0 <= k < out@.len() ==> Some(#[trigger] out@[k]) == hex_pair(b[2 * k], b[2 * k + 1]),
        decreases n - i,
    {
        let ghost k = i - start;
        assert(pair_cut_ok(b, k));
        proof {
            assert(b[k] == s@[i as int]);
            assert(b[k + 1] == s@[i + 1]);
        }
        match hex_pair_value(s[i], s[i + 1]) {
            None => {
                proof {
                    assert(!pair_ok(b, k));
                }
                return None;
            },
            Some(x) => {
                out.push(x);
                proof {
                    assert(pair_ok(b, k));
                    assert forall|m: int| 0 <= m < k + 2 && m % 2 == 0 implies #[trigger] pair_ok(
                        b,
                        m,
                    ) by {}
                    assert(out@[out@.len() - 1] == x);
                }
                i = i + 2;
            },
        }
    }
    Some(out)
}

/// The digits of radix 16 as written in lower case: `0123456789abcdef`.
pub open spec fn lower_hex_digits() -> Seq<u8> {
    seq![48u8, 49, 50, 51, 52, 53, 54, 55, 56, 57, 97, 98, 99, 100, 101, 102]
}

/// The digits of radix 16 as written in upper case: `0123456789ABCDEF`.
pub open spec fn upper_hex_digits() -> Seq<u8> {
    seq![48u8, 49, 50, 51, 52, 53, 54, 55, 56, 57, 65, 66, 67, 68, 69, 70]
}

/// The character that writes the digit `d < 16`, in upper or lower case.
pub open spec fn hex_char(d: int, upper: bool) -> u8 {
    if upper {
        upper_hex_digits()[d]
    } else {
        lower_hex_digits()[d]
    }
}

/// Each hex digit, in either case, reads as its value.
pub proof fn law_hex_digit_reads_value(d: int, upper: bool)
    requires
        0 <= d < 16,
    ensures
        hex_digit(hex_char(d, upper)) == Some(d as u8),
{
    assert(lower_hex_digits()[d] == if d < 10 {
        48 + d
    } else {
        87 + d
    });
    assert(upper_hex_digits()[d] == if d < 10 {
        48 + d
    } else {
        55 + d
    });
}

/// Only the hex digits read as values: a character that reads as `v` is the
/// digit `v` in lower or upper case.
pub proof fn law_hex_digit_only_digits(c: u8)
    ensures
        hex_digit(c) matches Some(v) ==> v < 16 && (c == hex_char(v as int, false) || c == hex_char(
            v as int,
            true,
        )),
{
    if let Some(v) = hex_digit(c) {
        assert(lower_hex_digits()[v as int] == if v < 10 {
            48 + v
        } else {
            87 + v
        });
        assert(upper_hex_digits()[v as int] == if v < 10 {
            48 + v
        } else {
            55 + v
        });
    }
}

/// Every byte written as two hex digits, in either case, reads back as that
/// byte.
pub proof fn law_hex_pair_reads_byte(v: u8, upper: bool)
    ensures
        hex_pair(hex_char(v as int / 16, upper), hex_char(v as int % 16, upper)) == Some(v),
{
    law_hex_digit_reads_value(v as int / 16, upper);
    law_hex_digit_reads_value(v as int % 16, upper);
    if v as int / 16 == 0 {
        assert(hex_char(0, upper) == 48);
    }
}

/// A pair reads as a byte only when its second character is a hex digit and
/// its first is a hex digit or a `+` sign; a sign followed by a digit reads as
/// that digit.
pub proof fn law_hex_pair_sign(d: int, upper: bool, a: u8, b: u8)
    requires
        0 <= d < 16,
    ensures
        hex_pair(43, hex_char(d, upper)) == Some(d as u8),
        hex_pair(a, b) is Some ==> hex_digit(b) is Some && (a == 43 || hex_digit(a) is Some),
{
    law_hex_digit_reads_value(d, upper);
}

} // verus!
