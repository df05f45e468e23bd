use vstd::prelude::*;

verus! {

/// A trait every type has; marker traits are built on it.
pub trait Always {
}

impl<T> Always for T {
}

} // verus!
