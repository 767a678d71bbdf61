//! Logistic regression on encrypted data.
//!
//! A data owner has labelled examples and wants a model trained on them, and
//! examples classified by it, without showing the numbers to whoever
//! computes. The numbers are encrypted under a scheme that can add two
//! ciphertexts exactly and can evaluate any function of one ciphertext by a
//! bootstrap, which also refreshes the noise; it cannot multiply, divide or
//! compare ciphertexts. This library is the layer above such a scheme: the
//! arithmetic of encrypted scalars, vectors and matrices, and the training
//! and classification that are built from it.
//!
//! The library computes with exact numbers only, and holds no key. What it
//! produces is a [`program::Program`]: the list of the operations that a
//! backend is to carry out, on plain numbers in floating point and on
//! ciphertexts under the data owner's key. Every contract says what the
//! registers of the program hold after a run, as real numbers: the exact
//! result that the backend approximates, as long as every number that is
//! encrypted lies within the range declared for it
//! ([`program::in_range`]) and what is computed from it within what its
//! encoding can hold.
//!
//! - [`number`] and [`text`]: exact decimals, and how they are read.
//! - [`program`]: operations, programs, and what a run leaves in a register.
//! - [`algebra`]: what vectors and matrices share, in the clear or not.
//! - [`zqz`]: encrypted scalars, vectors and matrices, and the crossing
//!   between the clear and the encrypted side.
//! - [`clear`]: vectors and matrices of plain numbers.
//! - [`reg`]: the file formats, training, classification and accuracy.
pub mod algebra;
pub mod clear;
pub mod number;
pub mod program;
pub mod reg;
pub mod text;
pub mod zqz;
