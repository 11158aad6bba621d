//! Test pairs derived deterministically from a 32-byte challenge seed by a
//! chain of Keccak-256 digests, so that anyone holding the seed can rebuild
//! them.
use vstd::prelude::*;
use sha3::Digest;
use crate::bits::{bit, lemma_extract_bit};
use crate::grid::lemma_cell_position;
use crate::grid2d::BitGrid2D;

verus! {

/// The Keccak-256 digest of `data`.
pub uninterp spec fn keccak256(data: Seq<u8>) -> Seq<u8>;

/// Calls `sha3::Keccak256::digest` (the `Digest` trait of the `digest` crate:
/// a fresh hasher fed `data` and finalized). The contract says that the 32
/// bytes it returns are `keccak256` of the bytes given, and nothing more of
/// their value.
#[verifier::external_body]
fn keccak256_digest(data: &[u8]) -> (r: Vec<u8>)
    ensures
        r@ == keccak256(data@),
        r@.len() == 32,
{
    sha3::Keccak256::digest(data).to_vec()
}

/// The value of the bytes `s` read big-endian.
pub open spec fn be_value(s: Seq<u8>) -> nat
    decreases s.len(),
{
    if s.len() == 0 {
        0
    } else {
        (be_value(s.drop_last()) * 256 + s.last()) as nat
    }
}

/// The 32-byte block that holds `n` big-endian in its last 8 bytes.
pub open spec fn counter_block(n: u64) -> Seq<u8> {
    Seq::new(32, |j: int| if j < 24 { 0u8 } else { ((n >> (8 * (31 - j)) as u64) & 0xffu64) as u8 })
}

/// The chain state after `i` rounds from `seed`: each round hashes the state
/// with the counter `j`, then the result with the counter `j + 100`.
pub open spec fn chain_state(seed: Seq<u8>, i: nat) -> Seq<u8>
    decreases i,
{
    if i == 0 {
        seed
    } else {
        let j = (i - 1) as nat;
        let ha = keccak256(chain_state(seed, j) + counter_block(j as u64));
        keccak256(ha + counter_block((j + 100) as u64))
    }
}

/// The first digest of round `i`.
pub open spec fn round_hash_a(seed: Seq<u8>, i: nat) -> Seq<u8> {
    keccak256(chain_state(seed, i) + counter_block(i as u64))
}

/// The value read from the last 8 bytes of a digest.
pub open spec fn tail_value(h: Seq<u8>) -> nat {
    be_value(h.subrange(24, 32))
}

/// The 8 by 8 block in the upper left corner of a `height` by `width` grid
/// that holds the bits of `v`, bit `8 y + x` at `(y, x)`; the other cells clear.
pub open spec fn block8_cells(v: nat, height: nat, width: nat) -> Seq<Seq<bool>> {
    Seq::new(
        height,
        |y: int|
            Seq::new(width, |x: int| y < 8 && x < 8 && bit(v as u64, (8 * y + x) as u64)),
    )
}

/// `be_value` of `k` bytes is below `256^k`.
pub proof fn lemma_be_value_bound(s: Seq<u8>, bound: nat)
    requires
        s.len() <= 8,
        bound == be_bound(s.len()),
    ensures
        be_value(s) < bound,
    decreases s.len(),
{
    if s.len() > 0 {
        lemma_be_value_bound(s.drop_last(), be_bound((s.len() - 1) as nat));
        assert(be_value(s.drop_last()) * 256 + s.last() < be_bound((s.len() - 1) as nat) * 256)
            by (nonlinear_arith)
            requires
                be_value(s.drop_last()) < be_bound((s.len() - 1) as nat),
                s.last() < 256,
        ;
    }
}

/// `256^k`.
pub open spec fn be_bound(k: nat) -> nat
    decreases k,
{
    if k == 0 {
        1
    } else {
        be_bound((k - 1) as nat) * 256
    }
}

/// Read 8 bytes of `bytes`, from `start`, as a big-endian `u64`.
fn read_be_u64(bytes: &[u8], start: usize) -> (v: u64)
    requires
        start + 8 <= bytes@.len(),
    ensures
        v == be_value(bytes@.subrange(start as int, start + 8)),
{
    let mut v: u64 = 0;
    let n = bytes.len();
    for k in 0..8usize
        invariant
            start + 8 <= bytes@.len(),
            n == bytes@.len(),
            v == be_value(bytes@.subrange(start as int, start + k)),
    {
        proof {
            let s = bytes@.subrange(start as int, start + k + 1);
            assert(s.drop_last() =~= bytes@.subrange(start as int, start + k));
            reveal_with_fuel(be_bound, 9);
            lemma_be_value_bound(bytes@.subrange(start as int, start + k), be_bound(k as nat));
            assert(be_bound(k as nat) <= be_bound(7)) by {
                lemma_be_bound_mono(k as nat, 7);
            }
            assert(be_bound(7) == 0x100_0000_0000_0000);
            assert(v < 0x100_0000_0000_0000);
            assert(v * 256 + 255 <= u64::MAX);
        }
        let byte = bytes[start + k] as u64;
        let shifted = v * 256;
        v = shifted + byte;
    }
    v
}

/// `256^k` grows with `k`.
pub proof fn lemma_be_bound_mono(a: nat, b: nat)
    requires
        a <= b,
    ensures
        be_bound(a) <= be_bound(b),
    decreases b,
{
    if a < b {
        lemma_be_bound_mono(a, (b - 1) as nat);
    }
}

/// The 32-byte block holding `n` big-endian in its last 8 bytes.
pub fn counter_block_bytes(n: u64) -> (r: Vec<u8>)
    ensures
        r@ == counter_block(n),
{
    let mut bytes = vec![0u8; 32];
    for k in 0..8usize
        invariant
            bytes@.len() == 32,
            forall|j: int| 0 <= j < 24 + k ==> #[trigger] bytes@[j] == counter_block(n)[j],
            forall|j: int| 24 + k <= j < 32 ==> #[trigger] bytes@[j] == 0u8,
    {
        let shift = (8 * (7 - k)) as u64;
        bytes.set(24 + k, ((n >> shift) & 0xff) as u8);
    }
    assert(bytes@ =~= counter_block(n));
    bytes
}

/// The bytes of `a` followed by those of `b`.
fn concat_bytes(a: &[u8], b: &[u8]) -> (r: Vec<u8>)
    ensures
        r@ == a@ + b@,
{
    let mut r: Vec<u8> = Vec::new();
    for k in 0..a.len()
        invariant
            r@ == a@.subrange(0, k as int),
    {
        r.push(a[k]);
        assert(r@ =~= a@.subrange(0, k + 1));
    }
    for k in 0..b.len()
        invariant
            r@ == a@ + b@.subrange(0, k as int),
    {
        r.push(b[k]);
        assert(r@ =~= a@ + b@.subrange(0, k + 1));
    }
    assert(a@.subrange(0, a@.len() as int) =~= a@);
    assert(b@.subrange(0, b@.len() as int) =~= b@);
    r
}

/// The grid of the given size holding the bits of `v` in its upper left 8 by
/// 8 block, bit `8 y + x` at `(y, x)`.
fn block8_grid(v: u64, height: usize, width: usize) -> (g: BitGrid2D)
    requires
        height >= 8,
        width >= 8,
        width + 63 <= usize::MAX,
    ensures
        g.wf(),
        g.height == height,
        g.width == width,
        g@ == block8_cells(v as nat, height as nat, width as nat),
{
    let mut g = BitGrid2D::new(height, width);
    assert(g@ =~~= Seq::new(
        height as nat,
        |yy: int| Seq::new(width as nat, |xx: int| yy < 0 && xx < 8 && bit(v, (8 * yy + xx) as u64)),
    ));
    for y in 0..8usize
        invariant
            height >= 8,
            width >= 8,
            g.wf(),
            g.height == height,
            g.width == width,
            g@ == Seq::new(
                height as nat,
                |yy: int|
                    Seq::new(width as nat, |xx: int| yy < y && xx < 8 && bit(v, (8 * yy + xx) as u64)),
            ),
    {
        assert(g@ =~~= Seq::new(
            height as nat,
            |yy: int|
                Seq::new(
                    width as nat,
                    |xx: int|
                        (yy < y || (yy == y && xx < 0)) && xx < 8 && bit(v, (8 * yy + xx) as u64),
                ),
        ));
        for x in 0..8usize
            invariant
                y < 8,
                height >= 8,
                width >= 8,
                g.wf(),
                g.height == height,
                g.width == width,
                g@ == Seq::new(
                    height as nat,
                    |yy: int|
                        Seq::new(
                            width as nat,
                            |xx: int|
                                (yy < y || (yy == y && xx < x)) && xx < 8 && bit(
                                    v,
                                    (8 * yy + xx) as u64,
                                ),
                        ),
                ),
        {
            let bit_idx = (y << 3) | x;
            proof {
                assert(bit_idx == 8 * y + x) by (bit_vector)
                    requires
                        y < 8,
                        x < 8,
                        bit_idx == (y << 3) | x,
                ;
                lemma_extract_bit(v, bit_idx as u64);
                lemma_cell_position(x as int, width as nat);
                assert(g.rows@[y as int].wf());
            }
            let bit_val = ((v >> (bit_idx as u64)) & 1) != 0;
            g.set_cell(y, x, bit_val);
            assert(g@ =~~= Seq::new(
                height as nat,
                |yy: int|
                    Seq::new(
                        width as nat,
                        |xx: int|
                            (yy < y || (yy == y && xx < x + 1)) && xx < 8 && bit(
                                v,
                                (8 * yy + xx) as u64,
                            ),
                    ),
            ));
        }
        assert(g@ =~~= Seq::new(
            height as nat,
            |yy: int|
                Seq::new(width as nat, |xx: int| yy < y + 1 && xx < 8 && bit(v, (8 * yy + xx) as u64)),
        ));
    }
    assert(g@ =~~= block8_cells(v as nat, height as nat, width as nat));
    g
}

/// One test pair from the two 32-byte digests of a round: grid A holds the
/// value of the last 8 bytes of `hash_a` (big-endian) and grid B that of
/// `hash_b`, bit `8 y + x` at `(y, x)` of the upper left 8 by 8 block.
pub fn pair_from_digests(hash_a: &[u8], hash_b: &[u8], height: usize, width: usize) -> (pair: (
    BitGrid2D,
    BitGrid2D,
))
    requires
        hash_a@.len() == 32,
        hash_b@.len() == 32,
        height >= 8,
        width >= 8,
        width + 63 <= usize::MAX,
    ensures
        pair.0.wf() && pair.0.height == height && pair.0.width == width,
        pair.1.wf() && pair.1.height == height && pair.1.width == width,
        pair.0@ == block8_cells(tail_value(hash_a@), height as nat, width as nat),
        pair.1@ == block8_cells(tail_value(hash_b@), height as nat, width as nat),
{
    let val_a = read_be_u64(hash_a, 24);
    let val_b = read_be_u64(hash_b, 24);
    (block8_grid(val_a, height, width), block8_grid(val_b, height, width))
}

/// Derive `count` pairs of test grids from a 32-byte challenge seed: round `i`
/// hashes the chain state with the counter `i` (grid A takes the last 8 bytes
/// of that digest), then that digest with the counter `i + 100` (grid B takes
/// the last 8 bytes of the new state).
pub fn generate_deterministic_test_pairs_2d(
    height: usize,
    width: usize,
    seed_bytes: [u8; 32],
    count: usize,
) -> (pairs: Vec<(BitGrid2D, BitGrid2D)>)
    requires
        height >= 8,
        width >= 8,
        width + 63 <= usize::MAX,
        count + 100 <= usize::MAX,
    ensures
        pairs.len() == count,
        forall|i: int|
            0 <= i < count ==> {
                let (a, b) = #[trigger] pairs@[i];
                &&& a.wf() && a.height == height && a.width == width
                &&& b.wf() && b.height == height && b.width == width
                &&& a@ == block8_cells(
                    tail_value(round_hash_a(seed_bytes@, i as nat)),
                    height as nat,
                    width as nat,
                )
                &&& b@ == block8_cells(
                    tail_value(chain_state(seed_bytes@, (i + 1) as nat)),
                    height as nat,
                    width as nat,
                )
            },
{
    let mut pairs: Vec<(BitGrid2D, BitGrid2D)> = Vec::new();
    let mut temp: Vec<u8> = Vec::new();
    for k in 0..32usize
        invariant
            temp@ == seed_bytes@.subrange(0, k as int),
    {
        temp.push(seed_bytes[k]);
        assert(temp@ =~= seed_bytes@.subrange(0, k + 1));
    }
    assert(temp@ =~= seed_bytes@);

    for i in 0..count
        invariant
            height >= 8,
            width >= 8,
            width + 63 <= usize::MAX,
            count + 100 <= usize::MAX,
            temp@ == chain_state(seed_bytes@, i as nat),
            temp@.len() == 32 || i == 0,
            pairs.len() == i,
            forall|j: int|
                0 <= j < i ==> {
                    let (a, b) = #[trigger] pairs@[j];
                    &&& a.wf() && a.height == height && a.width == width
                    &&& b.wf() && b.height == height && b.width == width
                    &&& a@ == block8_cells(
                        tail_value(round_hash_a(seed_bytes@, j as nat)),
                        height as nat,
                        width as nat,
                    )
                    &&& b@ == block8_cells(
                        tail_value(chain_state(seed_bytes@, (j + 1) as nat)),
                        height as nat,
                        width as nat,
                    )
                },
    {
        // 1. Generate testA[i]
        let i_bytes = counter_block_bytes(i as u64);
        let input_a = concat_bytes(&temp, &i_bytes);
        let hash_a = keccak256_digest(&input_a);

        // 2. Generate testB[i]
        let i_plus_100_bytes = counter_block_bytes((i + 100) as u64);
        let input_b = concat_bytes(&hash_a, &i_plus_100_bytes);
        let hash_b = keccak256_digest(&input_b);

        let pair = pair_from_digests(&hash_a, &hash_b, height, width);
        temp = hash_b;
        pairs.push(pair);
    }
    pairs
}

} // verus!
