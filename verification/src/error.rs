//! The ways a request can fail.

use vstd::prelude::*;
use vstd::string::StringExecFns;

verus! {

/// What went wrong, with a human-readable detail.
#[derive(Debug)]
pub enum Error {
    /// Infrastructure or corruption. Always propagates to the caller.
    Failure(String),
    /// A sheet does not have the shape a query asks for. Fan-out skips the
    /// sheet without a trace.
    QuerySchemaMismatch(String),
    /// Malformed filter or query input.
    Invalid(String),
    /// A version is known but has not been ingested yet.
    NotReady(String),
}

impl Error {
    /// The detail carried by the error.
    pub open spec fn detail(&self) -> Seq<char> {
        match self {
            Error::Failure(d) => d@,
            Error::QuerySchemaMismatch(d) => d@,
            Error::Invalid(d) => d@,
            Error::NotReady(d) => d@,
        }
    }

    /// The fixed text that introduces each kind of error in a message.
    pub open spec fn prefix(&self) -> Seq<char> {
        match self {
            Error::Failure(_) => "failure: "@,
            Error::QuerySchemaMismatch(_) => "query <-> schema mismatch: "@,
            Error::Invalid(_) => "invalid input: "@,
            Error::NotReady(_) => "not ready: "@,
        }
    }

    /// The message of the error: its kind's prefix, then its detail.
    pub open spec fn message_text(&self) -> Seq<char> {
        self.prefix() + self.detail()
    }

    /// Whether the error stops a fan-out at once.
    pub open spec fn is_failure(&self) -> bool {
        self is Failure
    }

    /// Whether the error is dropped silently by a fan-out.
    pub open spec fn is_mismatch(&self) -> bool {
        self is QuerySchemaMismatch
    }

    /// Renders the error for a reader.
    pub fn message(&self) -> (r: String)
        ensures
            r@ == self.message_text(),
    {
        match self {
            Error::Failure(d) => String::from_str("failure: ").concat(d.as_str()),
            Error::QuerySchemaMismatch(d) => String::from_str(
                "query <-> schema mismatch: ",
            ).concat(d.as_str()),
            Error::Invalid(d) => String::from_str("invalid input: ").concat(d.as_str()),
            Error::NotReady(d) => String::from_str("not ready: ").concat(d.as_str()),
        }
    }
}

} // verus!
