use vstd::prelude::*;

verus! {

/// Failures surfaced by the credential audit.
#[derive(Clone, Copy, Debug, PartialEq, Eq, Structural)]
pub enum Error {
    /// An account line had no `:` separating login from password.
    MissingDelimiter,
    /// The breach corpus could not be reached for a needed prefix.
    CorpusUnavailable,
    /// A corpus response line did not have the `SUFFIX:COUNT` shape.
    CorpusProtocolError,
}

impl Error {
    /// A short human-readable description of the failure.
    pub fn message(&self) -> (r: &'static str)
        ensures
            *self == Error::MissingDelimiter ==> r@ == "no colon found in account line"@,
            *self == Error::CorpusUnavailable ==> r@ == "breach corpus unavailable"@,
            *self == Error::CorpusProtocolError ==> r@ == "malformed breach corpus response"@,
    {
        match self {
            Error::MissingDelimiter => "no colon found in account line",
            Error::CorpusUnavailable => "breach corpus unavailable",
            Error::CorpusProtocolError => "malformed breach corpus response",
        }
    }
}

} // verus!
