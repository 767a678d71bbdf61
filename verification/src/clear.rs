//! Numbers in the clear: vectors and matrices of plain numbers, with the
//! operations of their encrypted counterparts.
pub mod matrix;
pub mod vector;
