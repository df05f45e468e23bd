use vstd::prelude::*;

pub mod bfs;
pub mod bits;
pub mod chunk_queue;
pub mod chunk_store;
pub mod dfs;
pub mod ds;
pub mod euclid;
pub mod gol;
pub mod kn_pile;
pub mod lgol;
pub mod opts;
pub mod par;
pub mod rctl;
pub mod sal;
pub mod scalar;
pub mod text;
pub mod unweighted;
pub mod validates;
pub mod weights;
pub mod zmodule;

verus! {

} // verus!
