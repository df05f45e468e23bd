use vstd::prelude::*;

use crate::text::push_str;
use crate::text::string_of;

verus! {

/// `s` written as a Rust string literal, as `{:?}` prints it.
pub uninterp spec fn debug_text(s: Seq<char>) -> Seq<char>;

/// `s` written as a Rust string literal.  Trusted: `format!("{:?}", s)`, whose result is a
/// function of the characters of `s` alone (quotes around them, with escapes).
#[verifier::external_body]
fn debug_string(s: &String) -> (r: String)
    ensures
        r@ == debug_text(s@),
{
    format!("{:?}", s)
}

/// Why a value failed to validate: a message, or help text to show in its place.
pub enum ValidationError {
    Message(String),
    Help(Vec<String>),
}

pub type ValidationResult<T> = Result<T, ValidationError>;

impl ValidationError {
    /// A failed validation with message `msg`.
    pub fn message<R>(msg: &str) -> (r: ValidationResult<R>)
        ensures
            r matches Err(ValidationError::Message(m)) && m@ == msg@,
    {
        Err(ValidationError::Message(string_of(msg)))
    }

    /// A failed validation that shows `lines` as help.
    pub fn help<R>(lines: Vec<String>) -> (r: ValidationResult<R>)
        ensures
            r matches Err(ValidationError::Help(l)) && l@ == lines@,
    {
        Err(ValidationError::Help(lines))
    }

    /// A message is put after `prefix` and `": "`, quoted; help is kept as it is.
    pub fn label(self, prefix: &str) -> (r: ValidationError)
        ensures
            match self {
                ValidationError::Message(s) => r matches ValidationError::Message(m) && m@ == prefix@ + ": "@
                    + debug_text(s@),
                ValidationError::Help(lines) => r matches ValidationError::Help(l) && l@ == lines@,
            },
    {
        match self {
            ValidationError::Message(s) => {
                let mut m = string_of(prefix);
                push_str(&mut m, ": ");
                let q = debug_string(&s);
                push_str(&mut m, q.as_str());
                ValidationError::Message(m)
            },
            ValidationError::Help(lines) => ValidationError::Help(lines),
        }
    }
}

/// A value that can be checked and turned into its target.
pub trait Validates {
    type Target;

    fn validate(self) -> ValidationResult<Self::Target>;
}

} // verus!
