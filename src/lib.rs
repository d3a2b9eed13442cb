//! A reversible, key-driven pixel-permutation cipher for grayscale images.

pub mod arith;
pub mod grid;
pub mod rotate;
pub mod sub_hcie;
pub mod cipher;
pub mod properties;
