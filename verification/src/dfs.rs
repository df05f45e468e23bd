use vstd::prelude::*;

pub mod graph;
pub mod lifecycle;
pub mod res;
pub mod search;
pub mod tree;
pub mod walk;

verus! {

} // verus!
