use vstd::prelude::*;

verus! {

/// A shared pointer compared and hashed by address rather than by what it points to.
pub struct PointerRc<T>(pub std::rc::Rc<T>);

impl<T> PointerRc<T> {
    /// Another pointer to the same value.
    pub fn share(&self) -> (r: PointerRc<T>)
        ensures
            r.0 == self.0,
    {
        PointerRc(std::rc::Rc::clone(&self.0))
    }
}

} // verus!
