//! One upstream RPC endpoint: its head block, its probe record and its limiter.
use crate::limiter::RateLimiter;
use vstd::prelude::*;

verus! {

/// Consecutive failed probes after which an upstream is unhealthy.
pub const PROBE_FAILURE_LIMIT: u32 = 5;

/// Where an upstream stands against its pool.
#[derive(Clone, Copy, Debug, PartialEq, Eq, Structural)]
pub enum Health {
    Healthy,
    Lagging,
    Unhealthy,
}

/// An upstream endpoint. `head_block` 0 means unknown.
pub struct Upstream {
    pub url: String,
    pub head_block: u64,
    pub soft_limit: Option<u32>,
    pub weight: u32,
    pub soft_fails: u64,
    pub probe_failures: u32,
    pub limiter: RateLimiter,
}

/// The health of an upstream at `head` with `failures` failed probes in a row,
/// in a pool whose consensus head is `consensus`.
pub open spec fn health_of(head: nat, failures: nat, consensus: nat, max_lag: nat) -> Health {
    if failures >= PROBE_FAILURE_LIMIT {
        Health::Unhealthy
    } else if consensus > head && consensus - head > max_lag {
        Health::Lagging
    } else {
        Health::Healthy
    }
}

impl Upstream {
    pub open spec fn health_spec(&self, consensus: nat, max_lag: nat) -> Health {
        health_of(self.head_block as nat, self.probe_failures as nat, consensus, max_lag)
    }

    /// A new upstream with an unknown head and a full limiter.
    pub fn new(url: String, soft_limit: Option<u32>, hard_limit: Option<u32>, weight: u32, now: u64) -> (r: Upstream)
        ensures
            r.url@ == url@,
            r.head_block == 0,
            r.soft_limit == soft_limit,
            r.weight == weight,
            r.soft_fails == 0,
            r.probe_failures == 0,
            r.limiter.wf(),
            r.limiter == RateLimiter::new_spec(hard_limit, now),
    {
        Upstream {
            url,
            head_block: 0,
            soft_limit,
            weight,
            soft_fails: 0,
            probe_failures: 0,
            limiter: RateLimiter::new(hard_limit, now),
        }
    }

    pub fn health(&self, consensus: u64, max_lag: u64) -> (r: Health)
        ensures
            r == self.health_spec(consensus as nat, max_lag as nat),
    {
        if self.probe_failures >= PROBE_FAILURE_LIMIT {
            Health::Unhealthy
        } else if consensus > self.head_block && consensus - self.head_block > max_lag {
            Health::Lagging
        } else {
            Health::Healthy
        }
    }

    /// A probe saw the endpoint at block `block`.
    pub fn record_probe_success(&mut self, block: u64)
        ensures
            *final(self) == (Upstream { head_block: block, probe_failures: 0, ..*old(self) }),
    {
        self.head_block = block;
        self.probe_failures = 0;
    }

    /// A probe failed. After the limit of failures in a row the head is reset to unknown.
    pub fn record_probe_failure(&mut self)
        ensures
            final(self).probe_failures == if old(self).probe_failures == u32::MAX {
                u32::MAX
            } else {
                (old(self).probe_failures + 1) as u32
            },
            final(self).head_block == if final(self).probe_failures >= PROBE_FAILURE_LIMIT {
                0
            } else {
                old(self).head_block
            },
            final(self).url == old(self).url,
            final(self).soft_limit == old(self).soft_limit,
            final(self).weight == old(self).weight,
            final(self).soft_fails == old(self).soft_fails,
            final(self).limiter == old(self).limiter,
    {
        self.probe_failures = self.probe_failures.saturating_add(1);
        if self.probe_failures >= PROBE_FAILURE_LIMIT {
            self.head_block = 0;
        }
    }

    /// A forwarded request failed for another reason than the limiter.
    pub fn record_request_failure(&mut self)
        ensures
            *final(self) == (Upstream {
                soft_fails: if old(self).soft_fails == u64::MAX { u64::MAX } else { (old(self).soft_fails + 1) as u64 },
                ..*old(self)
            }),
    {
        self.soft_fails = self.soft_fails.saturating_add(1);
    }
}

} // verus!
