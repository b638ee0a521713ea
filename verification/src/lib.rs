//! Protogalaxy folding of PLONK prover traces.
//!
//! Several instances of one circuit are folded into a single trace, which is then
//! proved as one PLONK proof corrected by an error polynomial. The library holds
//! the traces, the transforms that lift and fold them, and the folding prover as
//! a state machine; committing, hashing and constraint evaluation are left to the
//! proof system around it.
pub mod batch;
pub mod bits;
pub mod blocks;
pub mod column;
pub mod combine;
pub mod domain;
pub mod fft;
pub mod field;
pub mod fq;
mod fq_roots;
pub mod interpolation;
pub mod laws;
pub mod numerator;
mod parallel;
pub mod plonk;
pub mod poly;
pub mod prover;
pub mod roots;
pub mod trace;
pub mod zp;
