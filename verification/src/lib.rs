//! Combinatorial core of a finite spectral triple (A, H, D).
//!
//! The numerical parts of the spectral triple (complex matrices, spectra,
//! norms) are floating point; this library holds the exact structure that
//! surrounds them: the bookkeeping of algebras and Hilbert spaces, the index
//! layout of tensor products, the selection and search loops of the metric
//! and commutator computations, and the seed table of sampled observables.
//! Every floating-point test is handed in by the caller, either as a vector of
//! flags or as a predicate closure.

pub mod algebra;
pub mod commutator;
pub mod connes_distance;
pub mod dirac;
pub mod hilbert;
