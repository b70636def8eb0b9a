# simple_crypto_lab

Educational ring-LWE cryptography with machine-checked contracts: modular
arithmetic, the ring Z_q[X]/(X^n + 1), the negacyclic number theoretic
transform, bit packing, sampling, and three small schemes built on them
(BFV homomorphic encryption, a simplified Saber key encapsulation, and the
NewHope key encodings). Not audited, not constant-time, not for production.

## Layout

- `src/` — the library, written in Verus. Every function carries a
  `requires`/`ensures` contract that Verus proves. The laws of the library
  are public proof functions, each proved under the conditions it names:
  - the inverse transform undoes the forward one, and the product by
    transforms is the ring product, for tables that are `transform_ready`
    (a `2n`-th root of unity `omega` with `omega^n = -1`, and `omega`, `n`
    invertible modulo `q`); every prime `q > 2` with the root that
    `find_valid_omega` returns gives such tables (`fermat` proves Fermat's
    little theorem for this), and the shipped parameters are proved to;
  - BFV decryption undoes encryption when the fresh noise stays below
    `Delta / 2`, and always for parameters meeting the worst-case bound
    `worst_case_decrypts` (proved for `for_test` and `for_large`, false for
    `for_medium`, where the tests show a failing input);
  - Saber decryption undoes encryption, and decapsulation recovers the
    encapsulated shared key, when every coefficient of the rounding noise
    is small enough (`|d| p < q (p/4 - 1)`); this is not proved for all
    inputs, and the tests show a failing input for `for_test`;
  - the bit packing and the A/B encodings round-trip for coefficients of at
    most `ceil(log2 q)` bits.

  The modules:
  - `modular`, `fermat`, `ring`, `polys`, `ntt`, `ntt_blocks`, `ntt_mul`,
    `known_roots`, `encoding`, `bitwriting`, `sampling`: the primitives.
  - `bfv`, `saber`, `newhope`: the schemes.
- `tests/` — the test suite.
- `app/` — plain Rust around the library: serde/postcard forms of the
  library's types, byte-level encapsulation, and rayon-parallel variants of
  the transform and of polynomial sums.

Outside crates (`blake3`, `bytemuck`, `subtle`, `rand`, the `postcard` error
type) are reached from `src/` through a handful of small trusted wrappers,
each documented with the claim it makes about the crate it calls.
