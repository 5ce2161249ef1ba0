//! A model of an arithmetic circuit that proves a claimed output sequence is
//! the ascending sort of a fixed-size private input vector.
//!
//! The library describes the constraint system (columns, selectors, gates,
//! copy constraints) as plain data, computes the witness assignment for each
//! proof, and proves that the assignment satisfies the gates exactly when the
//! inputs are pairwise distinct. A thin driver outside the library feeds the
//! description to a proving backend.

pub mod chip;
pub mod circuit;
pub mod expr;
pub mod field;
pub mod sort;
pub mod util;
