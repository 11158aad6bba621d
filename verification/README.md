# ca_he_core

Encryption by second-order (Fredkin) reversible cellular automata, with its
homomorphic evaluation and the tools of a search for good rule pairs, written
in Verus and proved against its contracts.

- `src/` is the verified library. Every grid operation is specified over the
  grid's cells (`Seq<bool>` in 1D, `Seq<Seq<bool>>` in 2D); the laws
  (reversibility, decryption after encryption, XOR homomorphism of additive
  rules, repetition decoding after encoding, round trips through the C
  interface) are public proof functions named `law_*`.
  - `bits`, `grid`, `grid2d`: packed grids on a ring and on a torus.
  - `rule`, `ca`, `ca2d`: the automata, encryption and decryption.
  - `coding`: repetition coding and majority decoding.
  - `capi`: the computations behind the C interface (grids of at most 64
    cells packed into one word).
  - `linearity`: affine distance of rule tables.
  - `fitness`, `pareto`, `genetic`: the exact parts of the rule search
    (homomorphic evaluation counts, avalanche distances, Pareto ranking, the
    variation operators with their random draws as arguments).
  - `challenge`, `hex`: test pairs derived from a challenge seed by Keccak-256,
    and hex decoding of the seed.
- `app/` holds what stays outside: the `extern "C"` entry points and the two
  search programs (random draws, floating-point scores, threads, output).
- `tests/` runs the library on concrete values.
