//! Routing engine of a JSON-RPC reverse proxy for Ethereum-family nodes:
//! admission limiters, upstream pools, a bounded response cache and the router
//! that decides, for each request, what to do next.
use vstd::prelude::*;

pub mod cache;
pub mod jsonrpc;
pub mod laws;
pub mod limiter;
pub mod pool;
pub mod router;
pub mod upstream;

verus! {

/// Requests per minute granted to a new key unless another rate is given.
pub fn default_rpm() -> (r: usize)
    ensures
        r == 6_000_000,
{
    6_000_000
}

} // verus!
