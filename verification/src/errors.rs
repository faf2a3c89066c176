//! Errors of the proxy and the HTTP status each one is answered with.
use vstd::prelude::*;

verus! {

/// An error of the proxy. The errors of other libraries are carried as their
/// message text.
#[derive(Debug, Clone, PartialEq, Eq)]
pub enum DoHError {
    Incomplete,
    InvalidData,
    TooLarge,
    UpstreamIssue,
    UpstreamTimeout,
    StaleKey,
    Hyper(String),
    Io(String),
    ODoHConfigError(String),
    TooManyTcpSessions,
}

/// The HTTP status an error is answered with.
pub open spec fn status_code_spec(e: DoHError) -> u16 {
    match e {
        DoHError::Incomplete => 422,
        DoHError::InvalidData => 400,
        DoHError::TooLarge => 413,
        DoHError::UpstreamIssue => 502,
        DoHError::UpstreamTimeout => 502,
        DoHError::StaleKey => 401,
        DoHError::Hyper(_) => 503,
        DoHError::Io(_) => 500,
        DoHError::ODoHConfigError(_) => 500,
        DoHError::TooManyTcpSessions => 503,
    }
}

/// The text of an error.
pub open spec fn error_text(e: DoHError) -> Seq<char> {
    match e {
        DoHError::Incomplete => "Incomplete"@,
        DoHError::InvalidData => "Invalid data"@,
        DoHError::TooLarge => "Too large"@,
        DoHError::UpstreamIssue => "Upstream error"@,
        DoHError::UpstreamTimeout => "Upstream timeout"@,
        DoHError::StaleKey => "Stale key material"@,
        DoHError::Hyper(m) => "HTTP error: "@ + m@,
        DoHError::Io(m) => "IO error: "@ + m@,
        DoHError::ODoHConfigError(m) => "ODoH config error: "@ + m@,
        DoHError::TooManyTcpSessions => "Too many TCP sessions"@,
    }
}

impl DoHError {
    /// The HTTP status code the error is answered with.
    pub fn status_code(&self) -> (r: u16)
        ensures
            r == status_code_spec(*self),
    {
        match self {
            DoHError::Incomplete => 422,
            DoHError::InvalidData => 400,
            DoHError::TooLarge => 413,
            DoHError::UpstreamIssue => 502,
            DoHError::UpstreamTimeout => 502,
            DoHError::StaleKey => 401,
            DoHError::Hyper(_) => 503,
            DoHError::Io(_) => 500,
            DoHError::ODoHConfigError(_) => 500,
            DoHError::TooManyTcpSessions => 503,
        }
    }

    /// The text of the error.
    pub fn to_string(&self) -> (r: String)
        ensures
            r@ == error_text(*self),
    {
        match self {
            DoHError::Incomplete => String::from_str("Incomplete"),
            DoHError::InvalidData => String::from_str("Invalid data"),
            DoHError::TooLarge => String::from_str("Too large"),
            DoHError::UpstreamIssue => String::from_str("Upstream error"),
            DoHError::UpstreamTimeout => String::from_str("Upstream timeout"),
            DoHError::StaleKey => String::from_str("Stale key material"),
            DoHError::Hyper(m) => {
                let mut s = String::from_str("HTTP error: ");
                s.append(m.as_str());
                s
            },
            DoHError::Io(m) => {
                let mut s = String::from_str("IO error: ");
                s.append(m.as_str());
                s
            },
            DoHError::ODoHConfigError(m) => {
                let mut s = String::from_str("ODoH config error: ");
                s.append(m.as_str());
                s
            },
            DoHError::TooManyTcpSessions => String::from_str("Too many TCP sessions"),
        }
    }
}

} // verus!
