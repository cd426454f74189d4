//! The immutable settings snapshot consumed by the core.
//!
//! Settings are resolved outside this crate (configuration files, the
//! environment and command-line flags are merged by the surrounding
//! application); the core only reads the finished value.

use crate::error::Error;
use vstd::prelude::*;

verus! {

/// Relies on `std::path::Path::exists`: answers whether the path names an
/// existing file-system entry right now. The result depends on the
/// machine's disk, so nothing further is promised.
#[verifier::external_body]
pub(crate) fn path_exists(p: &str) -> bool {
    std::path::Path::new(p).exists()
}

/// General serving options: bind address, cookie domain and security flags.
#[derive(Debug)]
pub struct Default {
    pub alloworigin: String,
    pub interface: String,
    pub port: u16,
    pub domain: String,
    pub https: bool,
}

/// Where and how to read the CSV source.
#[derive(Debug)]
pub struct Csv {
    pub uri: String,
    pub delimiter: String,
    pub username: Option<String>,
    pub password: Option<String>,
}

impl Csv {
    /// Basic authentication needs both a username and a password; a username
    /// alone is a configuration error that must be reported before any
    /// network attempt.
    pub fn validate_basic_auth(&self) -> (r: Result<(), Error>)
        ensures
            r is Ok <==> !(self.username is Some && self.password is None),
            r matches Err(e) ==> e matches Error::ConfigError(m) && m@ == "Basic Auth requires a password"@,
    {
        if self.username.is_some() && self.password.is_none() {
            Err(Error::ConfigError("Basic Auth requires a password".to_owned()))
        } else {
            Ok(())
        }
    }
}

/// The signing secrets: cookie key, CSRF key and session-token key.
#[derive(Debug)]
pub struct Secrets {
    pub app: String,
    pub csrf: String,
    pub jwt: String,
}

/// The complete immutable configuration snapshot.
#[derive(Debug)]
pub struct Settings {
    pub default: Default,
    pub csv: Csv,
    pub secrets: Secrets,
}

impl Settings {
    /// Whether the CSV locator names an existing local file (as opposed to
    /// a URL to fetch). Consults the file system, so nothing is promised of
    /// the result.
    pub fn is_local(&self) -> bool {
        path_exists(self.csv.uri.as_str())
    }
}

} // verus!
