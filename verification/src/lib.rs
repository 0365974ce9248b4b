//! Cellular sheaves on graphs: dense row-major matrices, the combinatorial
//! structure of a sheaf (stalks, edges, restriction shapes) and the block
//! layout of its coboundary operator and connection Laplacian.
use vstd::prelude::*;

pub mod matrix;
pub mod sheaf;
pub mod assembly;

verus! {

} // verus!
