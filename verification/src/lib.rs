//! Sparse symmetric linear systems.
//!
//! Coefficients are carried as IEEE 754 binary64 bit patterns, so that every
//! structural step (canonical storage, row compression, the order in which a
//! product is accumulated, the course of the iteration) is stated and proved
//! over integers, while the rounding arithmetic itself is supplied by the
//! caller.

pub mod entry;
pub mod canonical;
pub mod sorting;
pub mod rows;
pub mod sparse_symmetric_matrix;
pub mod sparse_row_matrix;
pub mod triplets;
pub mod binary64;
pub mod arithmetic;
pub mod error;
pub mod vector;
pub mod preconditioner;
pub mod solver;
