//! Token-bucket admission limiter kept per upstream.
//!
//! Time is a monotonic reading in milliseconds. The bucket is kept in
//! thousandths of a token: a full bucket of a limit of `n` requests per second
//! holds `n * 1000` units, it refills by `n` units per millisecond, and one
//! request costs `1000` units.
use vstd::prelude::*;

verus! {

/// Units that one admitted request takes from the bucket.
pub const REQUEST_COST: u64 = 1000;

/// Milliseconds that a full refill takes.
pub const REFILL_PERIOD_MS: u64 = 1000;

pub open spec fn min_nat(a: nat, b: nat) -> nat {
    if a <= b { a } else { b }
}

/// Size of a full bucket for a limit of `limit` requests per second.
pub open spec fn bucket_size(limit: nat) -> nat {
    limit * 1000
}

/// The bucket's level at `now`, refilled from `level` held since `last`.
pub open spec fn refilled(level: nat, last: nat, limit: nat, now: nat) -> nat {
    if now <= last {
        level
    } else {
        min_nat(bucket_size(limit), (level + (now - last) * limit) as nat)
    }
}

/// `max(0, not_until - now)`.
pub open spec fn wait_spec(not_until: nat, now: nat) -> nat {
    if not_until > now { (not_until - now) as nat } else { 0 }
}

/// The first instant at which a bucket at `level` at time `t` holds one request.
pub open spec fn ready_at(level: nat, t: nat, limit: nat) -> nat
    recommends
        limit > 0,
{
    let missing = (1000 - level) as nat;
    let wait = (missing + limit - 1) as nat / limit;
    min_nat(t + wait, u64::MAX as nat)
}

/// A token bucket. `hard_limit` is in requests per second; `None` admits every request.
#[derive(Clone, Copy, Debug)]
pub struct RateLimiter {
    pub hard_limit: Option<u32>,
    pub level: u64,
    pub last: u64,
}

impl RateLimiter {
    pub open spec fn wf(&self) -> bool {
        match self.hard_limit {
            Some(l) => self.level <= bucket_size(l as nat),
            None => true,
        }
    }

    /// The level that the bucket holds at `now`.
    pub open spec fn level_at(&self, now: nat) -> nat {
        match self.hard_limit {
            Some(l) => refilled(self.level as nat, self.last as nat, l as nat, now),
            None => 0,
        }
    }

    /// The time of the bucket's own reckoning at `now`: never earlier than its last refill.
    pub open spec fn clock_at(&self, now: nat) -> nat {
        if now <= self.last { self.last as nat } else { now }
    }

    /// Whether a request at `now` is admitted.
    pub open spec fn admits(&self, now: nat) -> bool {
        match self.hard_limit {
            Some(_) => self.level_at(now) >= 1000,
            None => true,
        }
    }

    /// The bucket after one admitted request at `now`.
    pub open spec fn taken(&self, now: nat) -> RateLimiter {
        match self.hard_limit {
            Some(_) => RateLimiter {
                hard_limit: self.hard_limit,
                level: (self.level_at(now) - 1000) as u64,
                last: self.clock_at(now) as u64,
            },
            None => *self,
        }
    }

    /// The instant before which a refused request must not be retried.
    pub open spec fn not_until(&self, now: nat) -> nat {
        match self.hard_limit {
            Some(l) => if l == 0 {
                u64::MAX as nat
            } else {
                ready_at(self.level_at(now), self.clock_at(now), l as nat)
            },
            None => self.clock_at(now),
        }
    }

    /// Share of the bucket still free at `now`, in thousandths; an unlimited
    /// limiter is always wholly free and a limiter of limit zero never is.
    pub open spec fn free_share(&self, now: nat) -> nat {
        match self.hard_limit {
            Some(l) => if l == 0 {
                0
            } else {
                self.level_at(now) * 1000 / bucket_size(l as nat)
            },
            None => 1000,
        }
    }

    pub open spec fn new_spec(hard_limit: Option<u32>, now: u64) -> RateLimiter {
        RateLimiter {
            hard_limit,
            level: match hard_limit { Some(l) => bucket_size(l as nat) as u64, None => 0 },
            last: now,
        }
    }

    /// A full bucket whose clock starts at `now`.
    pub fn new(hard_limit: Option<u32>, now: u64) -> (r: RateLimiter)
        ensures
            r.wf(),
            r == RateLimiter::new_spec(hard_limit, now),
    {
        let level: u64 = match hard_limit {
            Some(l) => l as u64 * 1000,
            None => 0,
        };
        RateLimiter { hard_limit, level, last: now }
    }

    /// The level at `now`, without changing the bucket.
    pub fn current_level(&self, now: u64) -> (r: u64)
        requires
            self.wf(),
        ensures
            r == self.level_at(now as nat),
            match self.hard_limit { Some(l) => r <= bucket_size(l as nat), None => true },
    {
        match self.hard_limit {
            None => 0,
            Some(l) => {
                if now <= self.last {
                    self.level
                } else {
                    let size: u64 = l as u64 * 1000;
                    let elapsed: u64 = now - self.last;
                    if elapsed >= REFILL_PERIOD_MS {
                        proof {
                            assert(elapsed as nat * l as nat >= 1000 * l as nat) by (nonlinear_arith)
                                requires elapsed >= 1000;
                        }
                        size
                    } else {
                        proof {
                            assert(elapsed as nat * l as nat <= 1000 * l as nat) by (nonlinear_arith)
                                requires elapsed < 1000;
                        }
                        let added: u64 = elapsed * l as u64;
                        if self.level >= size - added {
                            size
                        } else {
                            self.level + added
                        }
                    }
                }
            },
        }
    }

    /// Share of the bucket still free at `now`, in thousandths.
    pub fn free_share_at(&self, now: u64) -> (r: u64)
        requires
            self.wf(),
        ensures
            r == self.free_share(now as nat),
    {
        match self.hard_limit {
            None => 1000,
            Some(l) => {
                if l == 0 {
                    0
                } else {
                    let level = self.current_level(now);
                    proof {
                        assert(level as nat * 1000 <= 1000 * (l as nat * 1000)) by (nonlinear_arith)
                            requires level <= l as nat * 1000;
                    }
                    level * 1000 / (l as u64 * 1000)
                }
            },
        }
    }

    /// The limiter's answer at `now`, without changing the bucket: `Ok` where a
    /// request would be admitted, else the instant to wait for.
    pub fn peek(&self, now: u64) -> (r: Result<(), u64>)
        requires
            self.wf(),
        ensures
            r is Ok <==> self.admits(now as nat),
            r matches Err(t) ==> t == self.not_until(now as nat),
    {
        match self.hard_limit {
            None => Ok(()),
            Some(l) => {
                let level = self.current_level(now);
                if level >= REQUEST_COST {
                    Ok(())
                } else if l == 0 {
                    Err(u64::MAX)
                } else {
                    let t: u64 = if now <= self.last { self.last } else { now };
                    let missing: u64 = REQUEST_COST - level;
                    let wait: u64 = (missing + l as u64 - 1) / l as u64;
                    Err(t.saturating_add(wait))
                }
            },
        }
    }

    /// Asks the limiter for one request at `now`. An admitted request takes its
    /// cost from the bucket; a refused one leaves the bucket as it was and
    /// carries the instant before which no retry is admitted.
    pub fn check(&mut self, now: u64) -> (r: Result<(), u64>)
        requires
            old(self).wf(),
        ensures
            final(self).wf(),
            r is Ok <==> old(self).admits(now as nat),
            r is Ok ==> *final(self) == old(self).taken(now as nat),
            r matches Err(t) ==> t == old(self).not_until(now as nat) && *final(self) == *old(self),
    {
        let answer = self.peek(now);
        if answer.is_ok() {
            if self.hard_limit.is_some() {
                let level = self.current_level(now);
                self.level = level - REQUEST_COST;
                if now > self.last {
                    self.last = now;
                }
            }
        }
        answer
    }
}

/// Time left from `now` until `not_until`: `max(0, not_until - now)`.
pub fn wait_time_from(not_until: u64, now: u64) -> (r: u64)
    ensures
        r == wait_spec(not_until as nat, now as nat),
{
    if not_until > now { not_until - now } else { 0 }
}

/// The earlier of a deadline kept so far and a new one.
pub fn earliest(kept: Option<u64>, new: u64) -> (r: Option<u64>)
    ensures
        r == Some(match kept { Some(k) => if k <= new { k } else { new }, None => new }),
{
    match kept {
        Some(k) => if k <= new { Some(k) } else { Some(new) },
        None => Some(new),
    }
}

} // verus!
