use vstd::prelude::*;

pub mod number;
pub mod optimize;
pub mod program;
pub mod analysis;
pub mod block_info;
pub mod bound;
pub mod domain;
pub mod dot;
pub mod laws;
pub mod tables;

verus! {

} // verus!
