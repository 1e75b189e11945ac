//! Xoofff: a keyed deck function built from the Farfalle construction over the
//! six-round Xoodoo permutation.

pub mod block;
pub mod deck;
pub mod laws;
pub mod rolling;
pub mod xoodoo;
pub mod xoofff;

pub use crate::xoofff::Xoofff;
