pub mod help;
pub mod vals;
