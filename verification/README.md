# fri_oracle

Polynomial commitments for FRI, verified with Verus. A batch of polynomials is
extended over a coset, blinded if asked for, and put into a Merkle tree; the
polynomial that opens a number of batches at given points is computed from them.

- `src/oracle.rs`: `PolynomialBatch`, how it is made and read.
- `src/openings.rs`, `src/reducing.rs`: the final polynomial of an opening.
- `src/gpu.rs`: what a device is asked to do for a batch, and the batch that is
  made of what it hands back.
- `src/field.rs`, `src/goldilocks.rs`, `src/quadratic.rs`, `src/polynomial.rs`,
  `src/fft.rs`, `src/merkle.rs`, `src/bits.rs`: what these stand on.
- `src/commitment_laws.rs`, `src/opening_laws.rs`, `src/gpu_laws.rs`: what holds
  of the library as a whole.
- `app/`: worker threads, the transcript and the FRI prover, and the device.

The fields, polynomials and transforms are written here, and proved against
their definitions, because `plonky2_field` cannot be called: it needs a nightly
compiler (`#![feature(..)]`), and its traits state nothing that a proof could
use. The constants of the field and of its quadratic extension (the generators
of the multiplicative groups, which are also the coset shifts, the generators of
the subgroups of orders `2^32` and `2^33`, and `X^2 = 7`) are those of
`plonky2_field` 0.2.2. It is proved that the generators of the subgroups have
these orders.

Two functions are believed rather than proved: `sample_below` in
`src/sampling.rs`, which draws random numbers, and `share` in `src/gpu.rs`, which
clones an `Arc`.
