//! The command-line configuration surface.
//!
//! Flag parsing and environment fallback live in the surrounding
//! application; this type is the finished value it produces, and carries
//! the validation that must run before any fetch.

use crate::error::Error;
use crate::settings::path_exists;
use vstd::prelude::*;

verus! {

/// Options resolved from the command line and the environment.
#[derive(Debug)]
pub struct Config {
    /// csv file (local or URL)
    pub file: Option<String>,
    /// field delimiter
    pub delimiter: String,
    /// interface to bind
    pub interface: String,
    /// port to bind
    pub port: String,
    /// Access-Control-Allow-Origin header value
    pub allow_origin: Option<String>,
    /// Basic Auth username for fetching the CSV
    pub csv_username: Option<String>,
    /// Basic Auth password for fetching the CSV
    pub csv_password: Option<String>,
}

impl Config {
    /// Whether the configured file names an existing local path. Without a
    /// configured file this is always false; otherwise the file system
    /// decides and nothing further is promised.
    pub fn is_local(&self) -> (r: bool)
        ensures
            self.file is None ==> r == false,
    {
        if let Some(f) = &self.file {
            path_exists(f.as_str())
        } else {
            false
        }
    }

    /// Basic authentication needs both a username and a password; a
    /// username alone must be rejected before any network attempt.
    pub fn validate_basic_auth(&self) -> (r: Result<(), Error>)
        ensures
            r is Ok <==> !(self.csv_username is Some && self.csv_password is None),
            r matches Err(e) ==> e matches Error::ConfigError(m) && m@ == "Basic Auth requires a password"@,
    {
        if self.csv_username.is_some() && self.csv_password.is_none() {
            Err(Error::ConfigError("Basic Auth requires a password".to_owned()))
        } else {
            Ok(())
        }
    }
}

} // verus!
