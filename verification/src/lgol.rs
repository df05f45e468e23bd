pub mod axis;
pub mod bg;
pub mod constraints;
pub mod ends;
pub mod graph;
pub mod lat1;
pub mod lat2;
