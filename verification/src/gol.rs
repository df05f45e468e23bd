pub mod graph;
pub mod patlib;
pub mod printbag;
pub mod rows;
