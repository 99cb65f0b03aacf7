//! MAYO: a multivariate-quadratic signature scheme over GF(16).
//!
//! The crate is organised leaf-first: field arithmetic, linear algebra over
//! the field, the byte codecs, the seed-expansion primitives, and on top of
//! them key generation, key expansion, signing and verification. What the
//! scheme guarantees is proved in the last three modules.

pub mod bytes;
pub mod error;
pub mod field;
pub mod linalg;
pub mod matrix_arithmetics;
pub mod codec;
pub mod primitives;
pub mod constants;
pub mod solver;
pub mod whipping;
pub mod forms;
pub mod keys;
pub mod target;
pub mod sign;
pub mod verify;
pub mod bilinear;
pub mod correctness;
pub mod theorems;
