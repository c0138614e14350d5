//! The server's configuration, as read from `config.yml`.
use vstd::prelude::*;

verus! {

/// The configuration of the server.
#[derive(Debug, Clone)]
pub struct GlobalConfig {
    pub host: String,
    pub port: u16,
    pub parallel_requests: usize,
    pub default_tile_size: u32,
    pub rust_log: String,
    pub rust_backtrace: String,
    pub max_capacity: Option<u64>,
    pub time_to_live: Option<u64>,
    pub time_to_idle: Option<u64>,
}

} // verus!
