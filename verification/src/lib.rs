//! Multilinear polynomials in dense evaluation form over the BLS12-381 scalar
//! field, together with the hypercube pairing-index generators that drive
//! partial evaluation, and index utilities for dense Merkle trees.

pub mod evaluation_form;
pub mod field;
pub mod merkle_util;
pub mod pairing_index;
