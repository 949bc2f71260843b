use vstd::prelude::*;

pub mod grid;
pub mod clipmap;
pub mod chunk;
pub mod mesh;
pub mod input;

verus! {

} // verus!
