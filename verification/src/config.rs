//! Configuration as typed data: the local database file, the optional
//! remote server with its static credentials, and the request timeout.
//! Reading a configuration file from disk is the embedding program's
//! concern; the library only consumes these values.

use vstd::prelude::*;

verus! {

/// Where the configuration file is looked for: an explicit path, or
/// the platform default location of the server or the client.
pub enum ConfigPath {
    Custom(String),
    ServerDefault,
    ClientDefault,
}

/// A remote instance and the static credentials for it.
#[derive(Clone, Debug, PartialEq)]
pub struct Server {
    pub url: String,
    pub username: String,
    pub password: String,
}

/// The configuration the front ends consume.
#[derive(Clone, Debug)]
pub struct Config {
    pub db_file: Option<String>,
    pub server: Option<Server>,
    pub timeout_ms: u64,
}

/// The request timeout used when the configuration names none.
pub const DEFAULT_TIMEOUT_MS: u64 = 5000;

impl Config {
    /// An empty configuration: no database path, no remote server, the
    /// default timeout.
    pub fn new() -> (c: Config)
        ensures
            c.db_file is None,
            c.server is None,
            c.timeout_ms == DEFAULT_TIMEOUT_MS,
    {
        Config { db_file: None, server: None, timeout_ms: DEFAULT_TIMEOUT_MS }
    }
}

} // verus!
