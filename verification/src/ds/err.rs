use vstd::prelude::*;

use crate::text::push_str;
use crate::text::string_of;

verus! {

/// An error carried as its message.
#[derive(Debug)]
pub struct StringError {
    pub msg: String,
}

impl StringError {
    pub fn new(msg: &str) -> (r: StringError)
        ensures
            r.msg@ == msg@,
    {
        StringError { msg: string_of(msg) }
    }

    /// The same error with `s` and `": "` put in front of its message.
    pub fn label(&self, s: &str) -> (r: StringError)
        ensures
            r.msg@ == s@ + ": "@ + self.msg@,
    {
        let mut msg = string_of(s);
        push_str(&mut msg, ": ");
        push_str(&mut msg, self.msg.as_str());
        StringError { msg }
    }
}

} // verus!
