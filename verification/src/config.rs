//! Process configuration: where the two transport surfaces listen,
//! the capability secret, and an optional proxy origin. Loading it
//! from disk is the caller's concern; the core only carries the
//! values.

use vstd::prelude::*;

verus! {

pub struct ServerConfig {
    pub host: String,
    pub port: u16,
}

pub struct Config {
    pub web: ServerConfig,
    pub ws: ServerConfig,
    pub secret: String,
    pub proxied: Option<String>,
}

} // verus!
