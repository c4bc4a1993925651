//! The group-membership transport: its failure kinds, its protocol name
//! and the queue of membership lookups it reports.
use vstd::prelude::*;

pub mod protocol;
pub mod trans_proto;

verus! {

/// An outbound ping failure.
#[derive(Debug)]
pub enum GroupFailure {
    /// The ping timed out: no response arrived within the configured timeout.
    Timeout,
    /// The ping failed for another reason, described by `error`.
    Other { error: String },
}

impl GroupFailure {
    /// The description of the failure.
    pub fn message(&self) -> (r: String)
        ensures
            match self {
                GroupFailure::Timeout => r@ == "Ping timeout"@,
                GroupFailure::Other { error } => r@ == "Ping error: "@ + error@,
            },
    {
        match self {
            GroupFailure::Timeout => String::from_str("Ping timeout"),
            GroupFailure::Other { error } => String::from_str("Ping error: ").concat(error.as_str()),
        }
    }

    /// The description of the underlying error, if any.
    pub fn source(&self) -> (r: Option<&String>)
        ensures
            match self {
                GroupFailure::Timeout => r is None,
                GroupFailure::Other { error } => r == Some(error),
            },
    {
        match self {
            GroupFailure::Timeout => None,
            GroupFailure::Other { error } => Some(error),
        }
    }
}

} // verus!
