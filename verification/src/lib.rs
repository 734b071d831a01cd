//! Polynomial commitments for FRI: batches of polynomials, extended over a
//! coset, blinded and put into a Merkle tree, and the polynomial that opens them.

pub mod bits;
pub mod commitment_laws;
pub mod device_laws;
pub mod fft;
pub mod field;
pub mod goldilocks;
pub mod gpu;
pub mod gpu_laws;
pub mod merkle;
pub mod merkle_laws;
pub mod opening_laws;
pub mod openings;
pub mod oracle;
pub mod polynomial;
pub mod quadratic;
pub mod reducing;
pub mod sampling;
