use vstd::prelude::*;

verus! {

/// How much a log line matters.
#[derive(Clone, Copy, PartialEq, Eq, Structural, Debug)]
pub enum LogLevel {
    INFO,
    DEBUG,
}

impl LogLevel {
    /// The level's name as printed in logs.
    pub fn name(&self) -> (r: &'static str)
        ensures
            r@ == (match *self {
                LogLevel::INFO => "INFO"@,
                LogLevel::DEBUG => "DEBUG"@,
            }),
    {
        match self {
            LogLevel::INFO => "INFO",
            LogLevel::DEBUG => "DEBUG",
        }
    }
}

} // verus!
