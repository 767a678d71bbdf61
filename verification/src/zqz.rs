//! Numbers under encryption: scalars, vectors and matrices of ciphertexts.
pub mod cipherfloat;
pub mod keys;
pub mod matrix;
pub mod vector;
