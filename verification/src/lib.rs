//! A GKR-style interactive proof stack: multilinear evaluation tables over the
//! boolean hypercube, a sum-check protocol over sums of products of such
//! tables, an arithmetic-circuit layer model with derived wiring indicator
//! polynomials, and the layer-by-layer GKR orchestration, all over one fixed
//! prime field and a Keccak-based Fiat-Shamir transcript.

pub mod bit_format;
pub mod combined_polys;
pub mod error;
pub mod fiat_shamir;
pub mod field;
pub mod gkr;
pub mod gkr_circuit;
pub mod gkr_sum_check;
pub mod interactive;
pub mod mle;
pub mod transcript;
pub mod univar;
