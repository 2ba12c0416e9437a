//! Server configuration: bind address, bearer token and zones file path. Reading the
//! TOML file is the application's job.

use vstd::prelude::*;
use vstd::string::*;

verus! {

/// Where to listen, the shared secret, and where the zones live.
#[derive(Debug, PartialEq, Eq)]
pub struct Config {
    /// e.g. "0.0.0.0:4040" (LAN) — the token still gates every request.
    pub bind: String,
    /// Shared secret. Clients send it as `Authorization: Bearer <token>` (or `?token=`).
    pub token: String,
    /// Path to the zones TOML file.
    pub zones_file: String,
}

impl Clone for Config {
    fn clone(&self) -> (r: Config)
        ensures
            r == *self,
    {
        Config { bind: self.bind.clone(), token: self.token.clone(), zones_file: self.zones_file.clone() }
    }
}

impl Default for Config {
    /// Development defaults: loopback, the `dev-token` secret, `./zones.toml`.
    fn default() -> (c: Config)
        ensures
            c.bind@ == "127.0.0.1:4040"@,
            c.token@ == "dev-token"@,
            c.zones_file@ == "./zones.toml"@,
    {
        Config {
            bind: String::from_str("127.0.0.1:4040"),
            token: String::from_str("dev-token"),
            zones_file: String::from_str("./zones.toml"),
        }
    }
}

} // verus!
