//! Building blocks of privacy-preserving approximate nearest neighbour search.
use vstd::prelude::*;

pub mod cmov;
pub mod coprime;
pub mod node;
pub mod outside;
pub mod bytes;
pub mod pool;
pub mod text;
pub mod data_read;
pub mod ppann;

verus! {
}
