# binary_proofs

Building blocks of proof systems over binary fields, verified with Verus.

- `src/ghash.rs`, `src/field.rs`, `src/multilinear.rs`, `src/mlecheck.rs`: the 128-bit binary field,
  multilinear polynomials given by their tables, and the round polynomials of multilinear checks.
- `src/keccak_check/`: reductions of claims on the rounds of Keccak-f\[1600\], over tables or words.
  `laws.rs`, `completeness.rs` and `honest_runs.rs` show that honest runs pass.
- `src/mldsa/`: circuits for the parts of ML-DSA verification that work on bytes and words:
  arithmetic modulo q, rounding and hints, the packed encodings, SHAKE256, and the circuit of one
  signature.
- `src/bridge/`: linear claims over the binary field as parities of sums of bits, which are reduced
  by sumchecks over a 128-bit prime field to openings of a commitment.

`tests/` runs the library on values. `app/` moves the messages through a transcript and asks a
commitment scheme to commit and to open; what it sends and checks comes from the library.
