use vstd::prelude::*;

verus! {

/// Names JSON as the format of saved values; the program that saves them does the encoding.
pub struct JsonSerializer();

/// Names bincode as the format of saved values; the program that saves them does the encoding.
pub struct BincodeSerializer();

} // verus!
