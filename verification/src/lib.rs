//! Strict reading of Pak archives and planning of their merge.
use vstd::prelude::*;

pub mod digest;
pub mod lists;
pub mod merge;
pub mod ordered;
pub mod pak;
pub mod sorting;
pub mod text;

verus! {

} // verus!
