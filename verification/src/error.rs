//! The error taxonomy shared by ingestion, the token services and the
//! request handlers, together with its mapping to HTTP responses.
//!
//! Failures that originate in outside code (file reads, remote fetches,
//! configuration merging, environment lookups) are carried here as their
//! message text, so the whole taxonomy is made of plain values.

use vstd::prelude::*;

verus! {

/// Everything that can go wrong in the service.
///
/// Startup errors (`Io`, `Reqwest`, `ConfigError`, `VarError`) are fatal:
/// the process must not serve without data. `Unauthorized` and
/// `InternalServerError` are per-request errors and are translated to HTTP
/// status codes by [`Error::error_response`].
#[derive(Debug)]
pub enum Error {
    /// A malformed request; the message is safe to show the client.
    BadRequest(String),
    /// An unexpected internal failure; the cause is never sent to the client.
    InternalServerError,
    /// A local read failed; holds the I/O error's message.
    Io(String),
    /// Any other failure described by a message.
    Other(String),
    /// A remote fetch failed; holds the HTTP client error's message.
    Reqwest(String),
    /// The request lacked a valid session or CSRF token.
    Unauthorized,
    /// The configuration could not be resolved; holds the merge error's message.
    ConfigError(String),
    /// A required environment variable was missing; holds its lookup error.
    VarError(String),
}

impl Error {
    /// A short description of the error, usable in logs.
    pub fn message(&self) -> (r: String)
        ensures
            match self {
                Error::BadRequest(m) => r@ == m@,
                Error::InternalServerError => r@ == "InternalServerError"@,
                Error::Io(m) => r@ == m@,
                Error::Other(m) => r@ == m@,
                Error::Reqwest(m) => r@ == m@,
                Error::Unauthorized => r@ == "Unauthorized"@,
                Error::ConfigError(m) => r@ == m@,
                Error::VarError(m) => r@ == m@,
            },
    {
        match self {
            Error::BadRequest(m) => m.clone(),
            Error::InternalServerError => "InternalServerError".to_owned(),
            Error::Io(m) => m.clone(),
            Error::Other(m) => m.clone(),
            Error::Reqwest(m) => m.clone(),
            Error::Unauthorized => "Unauthorized".to_owned(),
            Error::ConfigError(m) => m.clone(),
            Error::VarError(m) => m.clone(),
        }
    }

    /// The HTTP status code and JSON-encodable body text for this error.
    ///
    /// Only `BadRequest` leaks its message; `Unauthorized` maps to 401 with
    /// a fixed safe text, and every other variant maps to a generic 500.
    pub fn error_response(&self) -> (r: (u16, String))
        ensures
            match self {
                Error::BadRequest(m) => r.0 == 400 && r.1@ == m@,
                Error::Unauthorized => r.0 == 401 && r.1@ == "Unauthorized"@,
                _ => r.0 == 500 && r.1@ == "Internal Server Error, Please try later"@,
            },
    {
        match self {
            Error::BadRequest(m) => (400, m.clone()),
            Error::Unauthorized => (401, "Unauthorized".to_owned()),
            _ => (500, "Internal Server Error, Please try later".to_owned()),
        }
    }
}

} // verus!
