//! A growable vector of bits packed into machine words.
//!
//! Bits are read, written and flipped by index; a write or a flip past the
//! end grows the vector by whole zeroed blocks, and a read past the end fails
//! with the current length.

use vstd::prelude::*;

pub mod bit_vec;
pub mod index;
pub mod laws;
pub mod word;

pub use bit_vec::{BitState, BitVec, BitVecError};

verus! {

} // verus!
