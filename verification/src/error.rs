//! The run's failure cases, and a small wrapper that attaches a message to
//! an error value.

use vstd::prelude::*;

verus! {

/// A configuration or data condition that aborts a run before any scoring.
#[derive(Clone, Copy, PartialEq, Eq, Structural, Debug)]
pub enum MatchError {
    /// The reference ("to") corpus is empty, so no weight model exists.
    EmptyReferenceCorpus,
    /// An n-gram window size below 2 was requested.
    InvalidNGramWindow,
}

impl MatchError {
    /// A short, stable description of the failure.
    pub fn message(&self) -> (r: &'static str)
        ensures
            *self is EmptyReferenceCorpus ==> r@ == "empty reference corpus"@,
            *self is InvalidNGramWindow ==> r@ == "invalid n-gram window"@,
    {
        match self {
            MatchError::EmptyReferenceCorpus => "empty reference corpus",
            MatchError::InvalidNGramWindow => "invalid n-gram window",
        }
    }
}

/// An error value of any type, carrying an added message.
pub struct YentaWrappedError<T> {
    pub original_error: T,
    pub msg: String,
}

/// Attach a message to an error value.
pub fn wrap_error<T>(e: T, msg: String) -> (r: YentaWrappedError<T>)
    ensures
        r.original_error == e,
        r.msg == msg,
{
    YentaWrappedError { original_error: e, msg }
}

} // verus!
