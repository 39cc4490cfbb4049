//! Error taxonomy of the library.

use vstd::prelude::*;

verus! {

/// Every failure the core can surface.
#[derive(Clone, Copy, Debug, PartialEq, Eq, Structural)]
pub enum AgentError {
    /// A skill name is empty or could escape the store root.
    InvalidName,
    /// A skill or file was required but absent.
    NotFound,
    /// A marker mismatch, nesting, or an unterminated section.
    MalformedDocument,
    /// A filesystem read or write failed.
    IoError,
    /// Interactive resolution was aborted by a closed input stream.
    InputClosed,
    /// An external tool exited with a failure.
    ExternalToolFailure,
}

impl AgentError {
    /// A short fixed description of the failure.
    pub fn describe(&self) -> (r: &'static str)
        ensures
            r@ == self.describe_spec(),
    {
        match self {
            AgentError::InvalidName => "invalid skill name",
            AgentError::NotFound => "not found",
            AgentError::MalformedDocument => "malformed document markers",
            AgentError::IoError => "filesystem failure",
            AgentError::InputClosed => "input closed during conflict resolution",
            AgentError::ExternalToolFailure => "external tool failed",
        }
    }

    pub open spec fn describe_spec(&self) -> Seq<char> {
        match self {
            AgentError::InvalidName => "invalid skill name"@,
            AgentError::NotFound => "not found"@,
            AgentError::MalformedDocument => "malformed document markers"@,
            AgentError::IoError => "filesystem failure"@,
            AgentError::InputClosed => "input closed during conflict resolution"@,
            AgentError::ExternalToolFailure => "external tool failed"@,
        }
    }
}

} // verus!
