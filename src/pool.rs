//! One tier of upstreams: consensus head, health and selection.
use crate::limiter::{earliest, RateLimiter};
use crate::upstream::{Health, Upstream};
use vstd::prelude::*;

verus! {

/// The highest head block among `s`, 0 when `s` is empty.
pub open spec fn max_head(s: Seq<Upstream>) -> nat
    decreases s.len(),
{
    if s.len() == 0 {
        0
    } else {
        let m = max_head(s.drop_last());
        let h = s.last().head_block as nat;
        if h > m { h } else { m }
    }
}

/// Replacing a member by one at the same head keeps the highest head.
pub proof fn lemma_max_head_update(s: Seq<Upstream>, i: int, x: Upstream)
    requires
        0 <= i < s.len(),
        x.head_block == s[i].head_block,
    ensures
        max_head(s.update(i, x)) == max_head(s),
    decreases s.len(),
{
    let t = s.update(i, x);
    if i < s.len() - 1 {
        assert(t.drop_last() =~= s.drop_last().update(i, x));
        lemma_max_head_update(s.drop_last(), i, x);
    } else {
        assert(t.drop_last() =~= s.drop_last());
    }
}

/// `u` after one admitted request at `now`.
pub open spec fn after_take(u: Upstream, now: nat) -> Upstream {
    Upstream { limiter: u.limiter.taken(now), ..u }
}

/// An ordered tier of upstreams and the lag it tolerates.
pub struct Pool {
    pub members: Vec<Upstream>,
    pub max_lag: u64,
}

impl Pool {
    pub open spec fn wf(&self) -> bool {
        forall|i: int| 0 <= i < self.members@.len() ==> (#[trigger] self.members@[i]).limiter.wf()
    }

    pub open spec fn consensus(&self) -> nat {
        max_head(self.members@)
    }

    pub open spec fn healthy(&self, i: int) -> bool {
        self.members@[i].health_spec(self.consensus(), self.max_lag as nat) == Health::Healthy
    }

    /// Healthy and admitted by its limiter at `now`.
    pub open spec fn eligible(&self, i: int, now: nat) -> bool {
        self.healthy(i) && self.members@[i].limiter.admits(now)
    }

    pub open spec fn has_healthy(&self) -> bool {
        exists|i: int| 0 <= i < self.members@.len() && self.healthy(i)
    }

    pub open spec fn has_eligible(&self, now: nat) -> bool {
        exists|i: int| 0 <= i < self.members@.len() && self.eligible(i, now)
    }

    /// Member `a` is preferred to member `b`: more of its limiter free, then a
    /// higher weight, then earlier in the tier.
    pub open spec fn prefers(&self, a: int, b: int, now: nat) -> bool {
        let fa = self.members@[a].limiter.free_share(now);
        let fb = self.members@[b].limiter.free_share(now);
        let wa = self.members@[a].weight;
        let wb = self.members@[b].weight;
        fa > fb || (fa == fb && (wa > wb || (wa == wb && a < b)))
    }

    /// The earliest `not_until` among the healthy members before `n` whose
    /// limiter refuses at `now`.
    pub open spec fn earliest_retry(&self, n: int, now: nat) -> Option<nat>
        decreases n,
    {
        if n <= 0 {
            None
        } else {
            let prev = self.earliest_retry(n - 1, now);
            if self.healthy(n - 1) && !self.members@[n - 1].limiter.admits(now) {
                let t = self.members@[n - 1].limiter.not_until(now);
                Some(match prev { Some(p) => if p <= t { p } else { t }, None => t })
            } else {
                prev
            }
        }
    }

    /// The indices of the members eligible at `now`, among the first `n`, in order.
    pub open spec fn eligible_upto(&self, n: int, now: nat) -> Seq<usize>
        decreases n,
    {
        if n <= 0 {
            Seq::empty()
        } else if self.eligible(n - 1, now) {
            self.eligible_upto(n - 1, now).push((n - 1) as usize)
        } else {
            self.eligible_upto(n - 1, now)
        }
    }

    /// Member `b` is eligible and no eligible member is preferred to it.
    pub open spec fn is_best(&self, b: int, now: nat) -> bool {
        &&& 0 <= b < self.members@.len()
        &&& self.eligible(b, now)
        &&& forall|j: int| 0 <= j < self.members@.len() && self.eligible(j, now) ==> !self.prefers(j, b, now)
    }

    /// The member that selection picks at `now`, where one is eligible.
    pub open spec fn pick(&self, now: nat) -> int {
        choose|b: int| self.is_best(b, now)
    }

    /// Preference orders the members strictly, so at most one is best.
    pub proof fn lemma_best_unique(&self, b1: int, b2: int, now: nat)
        requires
            self.is_best(b1, now),
            self.is_best(b2, now),
        ensures
            b1 == b2,
    {
    }

    /// What a refused selection reports: the earliest retry where a healthy member exists.
    pub open spec fn refusal(&self, now: nat) -> Option<nat> {
        if self.has_healthy() { self.earliest_retry(self.members@.len() as int, now) } else { None }
    }

    /// A tier of `members` that tolerates `max_lag` blocks of lag.
    pub fn new(members: Vec<Upstream>, max_lag: u64) -> (r: Pool)
        requires
            forall|i: int| 0 <= i < members@.len() ==> (#[trigger] members@[i]).limiter.wf(),
        ensures
            r.wf(),
            r.members@ == members@,
            r.max_lag == max_lag,
    {
        Pool { members, max_lag }
    }

    /// The consensus head: the highest head block of any member.
    pub fn head_block(&self) -> (r: u64)
        ensures
            r == self.consensus(),
    {
        let mut best: u64 = 0;
        let mut i: usize = 0;
        while i < self.members.len()
            invariant
                i <= self.members@.len(),
                best == max_head(self.members@.subrange(0, i as int)),
            decreases self.members@.len() - i,
        {
            assert(self.members@.subrange(0, i + 1).drop_last() =~= self.members@.subrange(0, i as int));
            let h = self.members[i].head_block;
            if h > best {
                best = h;
            }
            i = i + 1;
        }
        assert(self.members@.subrange(0, i as int) =~= self.members@);
        best
    }

    /// Whether the tier knows a head block and holds a healthy member.
    pub fn synced(&self) -> (r: bool)
        ensures
            r == (self.consensus() > 0 && self.has_healthy()),
    {
        let consensus = self.head_block();
        if consensus == 0 {
            return false;
        }
        let mut i: usize = 0;
        while i < self.members.len()
            invariant
                i <= self.members@.len(),
                consensus == self.consensus(),
                consensus > 0,
                forall|j: int| 0 <= j < i ==> !self.healthy(j),
            decreases self.members@.len() - i,
        {
            if self.members[i].health(consensus, self.max_lag) == Health::Healthy {
                assert(self.healthy(i as int));
                return true;
            }
            i = i + 1;
        }
        false
    }

    /// Picks one member for a request at `now` and takes a request from its
    /// limiter: the preferred one among those eligible. With none eligible it
    /// reports the earliest instant at which a healthy member admits again,
    /// or `None` where no member is healthy.
    pub fn next_upstream(&mut self, now: u64) -> (r: Result<usize, Option<u64>>)
        requires
            old(self).wf(),
        ensures
            final(self).wf(),
            final(self).max_lag == old(self).max_lag,
            r is Ok <==> old(self).has_eligible(now as nat),
            r matches Ok(b) ==> {
                &&& b < old(self).members@.len()
                &&& old(self).is_best(b as int, now as nat)
                &&& b as int == old(self).pick(now as nat)
                &&& final(self).members@ == old(self).members@.update(b as int, after_take(old(self).members@[b as int], now as nat))
            },
            r matches Err(e) ==> {
                &&& *final(self) == *old(self)
                &&& match e { Some(t) => old(self).refusal(now as nat) == Some(t as nat), None => old(self).refusal(now as nat) is None }
                &&& (e is None <==> !old(self).has_healthy())
            },
    {
        let consensus = self.head_block();
        let mut best: Option<usize> = None;
        let mut best_share: u64 = 0;
        let mut best_weight: u32 = 0;
        let mut retry: Option<u64> = None;
        let mut any_healthy = false;
        let mut i: usize = 0;
        while i < self.members.len()
            invariant
                self.wf(),
                i <= self.members@.len(),
                consensus == self.consensus(),
                match best {
                    Some(b) => {
                        &&& b < i
                        &&& self.eligible(b as int, now as nat)
                        &&& best_share == self.members@[b as int].limiter.free_share(now as nat)
                        &&& best_weight == self.members@[b as int].weight
                        &&& forall|j: int| 0 <= j < i && self.eligible(j, now as nat) ==> !self.prefers(j, b as int, now as nat)
                    },
                    None => forall|j: int| 0 <= j < i ==> !self.eligible(j, now as nat),
                },
                any_healthy <==> exists|j: int| 0 <= j < i && self.healthy(j),
                any_healthy && best is None ==> retry is Some,
                match retry {
                    Some(t) => self.earliest_retry(i as int, now as nat) == Some(t as nat),
                    None => self.earliest_retry(i as int, now as nat) is None,
                },
            decreases self.members@.len() - i,
        {
            let u = &self.members[i];
            if u.health(consensus, self.max_lag) == Health::Healthy {
                assert(self.healthy(i as int));
                any_healthy = true;
                match u.limiter.peek(now) {
                    Ok(()) => {
                        let share = u.limiter.free_share_at(now);
                        let better = match best {
                            None => true,
                            Some(_) => share > best_share || (share == best_share && u.weight > best_weight),
                        };
                        if better {
                            best = Some(i);
                            best_share = share;
                            best_weight = u.weight;
                        }
                    },
                    Err(t) => {
                        retry = earliest(retry, t);
                    },
                }
            }
            proof {
                if !self.healthy(i as int) {
                    assert((exists|j: int| 0 <= j < i + 1 && self.healthy(j)) ==> (exists|j: int| 0 <= j < i && self.healthy(j)));
                }
            }
            i = i + 1;
        }
        match best {
            Some(b) => {
                let ghost pre = *self;
                proof {
                    assert(pre.is_best(b as int, now as nat));
                    pre.lemma_best_unique(b as int, pre.pick(now as nat), now as nat);
                }
                let mut u = self.members.remove(b);
                let checked = u.limiter.check(now);
                assert(checked is Ok);
                self.members.insert(b, u);
                assert(self.members@ =~= pre.members@.update(b as int, after_take(pre.members@[b as int], now as nat)));
                Ok(b)
            },
            None => {
                if any_healthy {
                    Err(retry)
                } else {
                    Err(None)
                }
            },
        }
    }

    proof fn lemma_eligible_upto(&self, n: int, now: nat)
        requires
            0 <= n <= self.members@.len(),
            n <= usize::MAX,
        ensures
            forall|k: int| 0 <= k < self.eligible_upto(n, now).len() ==> {
                &&& (#[trigger] self.eligible_upto(n, now)[k]) < n
                &&& self.eligible(self.eligible_upto(n, now)[k] as int, now)
            },
            forall|k1: int, k2: int| #![trigger self.eligible_upto(n, now)[k1], self.eligible_upto(n, now)[k2]]
                0 <= k1 < k2 < self.eligible_upto(n, now).len()
                ==> self.eligible_upto(n, now)[k1] < self.eligible_upto(n, now)[k2],
            forall|i: int| 0 <= i < n && #[trigger] self.eligible(i, now)
                ==> exists|k: int| 0 <= k < self.eligible_upto(n, now).len() && self.eligible_upto(n, now)[k] == i,
        decreases n,
    {
        if n > 0 {
            self.lemma_eligible_upto(n - 1, now);
            let prev = self.eligible_upto(n - 1, now);
            if self.eligible(n - 1, now) {
                let cur = self.eligible_upto(n, now);
                assert(cur[prev.len() as int] == n - 1);
                assert forall|i: int| 0 <= i < n && #[trigger] self.eligible(i, now)
                    implies exists|k: int| 0 <= k < cur.len() && cur[k] == i by {
                    if i < n - 1 {
                        let k = choose|k: int| 0 <= k < prev.len() && prev[k] == i;
                        assert(cur[k] == i);
                    } else {
                        assert(cur[prev.len() as int] == i);
                    }
                }
            } else {
                let cur = self.eligible_upto(n, now);
                assert(cur == prev);
                assert forall|i: int| 0 <= i < n && #[trigger] self.eligible(i, now)
                    implies exists|k: int| 0 <= k < cur.len() && cur[k] == i by {
                    assert(i < n - 1);
                    let k = choose|k: int| 0 <= k < prev.len() && prev[k] == i;
                    assert(cur[k] == i);
                }
            }
        }
    }

    /// Takes a request from the limiter of every eligible member at `now`, for a
    /// broadcast, and returns their indices in order. With none eligible it
    /// reports as `next_upstream` does.
    pub fn all_eligible_upstreams(&mut self, now: u64) -> (r: Result<Vec<usize>, Option<u64>>)
        requires
            old(self).wf(),
        ensures
            final(self).wf(),
            final(self).max_lag == old(self).max_lag,
            r is Ok <==> old(self).has_eligible(now as nat),
            r matches Ok(v) ==> {
                &&& v@ == old(self).eligible_upto(old(self).members@.len() as int, now as nat)
                &&& v@.len() > 0
                &&& final(self).members@.len() == old(self).members@.len()
                &&& forall|i: int| 0 <= i < old(self).members@.len() ==> #[trigger] final(self).members@[i] == if old(self).eligible(i, now as nat) {
                    after_take(old(self).members@[i], now as nat)
                } else {
                    old(self).members@[i]
                }
            },
            r matches Err(e) ==> {
                &&& *final(self) == *old(self)
                &&& match e { Some(t) => old(self).refusal(now as nat) == Some(t as nat), None => old(self).refusal(now as nat) is None }
                &&& (e is None <==> !old(self).has_healthy())
            },
    {
        let consensus = self.head_block();
        let mut chosen: Vec<usize> = Vec::new();
        let mut retry: Option<u64> = None;
        let mut any_healthy = false;
        let mut i: usize = 0;
        while i < self.members.len()
            invariant
                self.wf(),
                i <= self.members@.len(),
                consensus == self.consensus(),
                chosen@ == self.eligible_upto(i as int, now as nat),
                any_healthy <==> exists|j: int| 0 <= j < i && self.healthy(j),
                any_healthy && chosen@.len() == 0 ==> retry is Some,
                match retry {
                    Some(t) => self.earliest_retry(i as int, now as nat) == Some(t as nat),
                    None => self.earliest_retry(i as int, now as nat) is None,
                },
            decreases self.members@.len() - i,
        {
            let u = &self.members[i];
            if u.health(consensus, self.max_lag) == Health::Healthy {
                assert(self.healthy(i as int));
                any_healthy = true;
                match u.limiter.peek(now) {
                    Ok(()) => {
                        chosen.push(i);
                    },
                    Err(t) => {
                        retry = earliest(retry, t);
                    },
                }
            }
            proof {
                if !self.healthy(i as int) {
                    assert((exists|j: int| 0 <= j < i + 1 && self.healthy(j)) ==> (exists|j: int| 0 <= j < i && self.healthy(j)));
                }
            }
            i = i + 1;
        }
        let ghost n = self.members@.len() as int;
        proof {
            self.lemma_eligible_upto(n, now as nat);
        }
        if chosen.len() == 0 {
            proof {
                if self.has_eligible(now as nat) {
                    let j = choose|j: int| 0 <= j < n && self.eligible(j, now as nat);
                    assert(self.eligible(j, now as nat));
                }
            }
            if any_healthy {
                return Err(retry);
            } else {
                return Err(None);
            }
        }
        assert(self.eligible(chosen@[0] as int, now as nat));
        let ghost pre = *self;
        let mut k: usize = 0;
        while k < chosen.len()
            invariant
                k <= chosen@.len(),
                chosen@ == pre.eligible_upto(n, now as nat),
                n == pre.members@.len(),
                self.max_lag == pre.max_lag,
                self.members@.len() == n,
                pre.wf(),
                forall|kk: int| 0 <= kk < chosen@.len() ==> {
                    &&& (#[trigger] chosen@[kk]) < n
                    &&& pre.eligible(chosen@[kk] as int, now as nat)
                },
                forall|k1: int, k2: int| #![trigger chosen@[k1], chosen@[k2]]
                    0 <= k1 < k2 < chosen@.len() ==> chosen@[k1] < chosen@[k2],
                forall|j: int| 0 <= j < n ==> #[trigger] self.members@[j] == if exists|kk: int| 0 <= kk < k && chosen@[kk] == j {
                    after_take(pre.members@[j], now as nat)
                } else {
                    pre.members@[j]
                },
            decreases chosen@.len() - k,
        {
            let b = chosen[k];
            assert(!exists|kk: int| 0 <= kk < k && chosen@[kk] == b);
            let ghost before = self.members@;
            let mut u = self.members.remove(b);
            assert(u == pre.members@[b as int]);
            let checked = u.limiter.check(now);
            assert(checked is Ok);
            self.members.insert(b, u);
            assert forall|j: int| 0 <= j < n implies #[trigger] self.members@[j] == if exists|kk: int| 0 <= kk < k + 1 && chosen@[kk] == j {
                after_take(pre.members@[j], now as nat)
            } else {
                pre.members@[j]
            } by {
                if j == b {
                    assert(chosen@[k as int] == j);
                } else {
                    assert(self.members@[j] == before[j]);
                    if exists|kk: int| 0 <= kk < k + 1 && chosen@[kk] == j {
                        let kk = choose|kk: int| 0 <= kk < k + 1 && chosen@[kk] == j;
                        assert(kk != k);
                    }
                }
            }
            k = k + 1;
        }
        proof {
            assert forall|i: int| 0 <= i < n implies #[trigger] self.members@[i] == if pre.eligible(i, now as nat) {
                after_take(pre.members@[i], now as nat)
            } else {
                pre.members@[i]
            } by {
                if pre.eligible(i, now as nat) {
                    let kk = choose|kk: int| 0 <= kk < chosen@.len() && chosen@[kk] == i;
                    assert(chosen@[kk] == i);
                } else {
                    if exists|kk: int| 0 <= kk < chosen@.len() && chosen@[kk] == i {
                        let kk = choose|kk: int| 0 <= kk < chosen@.len() && chosen@[kk] == i;
                        assert(pre.eligible(chosen@[kk] as int, now as nat));
                    }
                }
            }
            assert forall|i: int| 0 <= i < n implies (#[trigger] self.members@[i]).limiter.wf() by {
                if pre.eligible(i, now as nat) {
                    assert(pre.members@[i].limiter.wf());
                }
            }
        }
        Ok(chosen)
    }

    /// A probe saw member `i` at block `block`.
    pub fn record_probe_success(&mut self, i: usize, block: u64)
        requires
            old(self).wf(),
            i < old(self).members@.len(),
        ensures
            final(self).wf(),
            final(self).max_lag == old(self).max_lag,
            final(self).members@ == old(self).members@.update(
                i as int,
                Upstream { head_block: block, probe_failures: 0, ..old(self).members@[i as int] },
            ),
    {
        let mut u = self.members.remove(i);
        u.record_probe_success(block);
        self.members.insert(i, u);
    }

    /// A probe of member `i` failed.
    pub fn record_probe_failure(&mut self, i: usize)
        requires
            old(self).wf(),
            i < old(self).members@.len(),
        ensures
            final(self).wf(),
            final(self).max_lag == old(self).max_lag,
            final(self).members@.len() == old(self).members@.len(),
            forall|j: int| 0 <= j < old(self).members@.len() && j != i ==> final(self).members@[j] == old(self).members@[j],
            final(self).members@[i as int].probe_failures == if old(self).members@[i as int].probe_failures == u32::MAX {
                u32::MAX
            } else {
                (old(self).members@[i as int].probe_failures + 1) as u32
            },
            final(self).members@[i as int].head_block == if final(self).members@[i as int].probe_failures >= crate::upstream::PROBE_FAILURE_LIMIT {
                0
            } else {
                old(self).members@[i as int].head_block
            },
            final(self).members@[i as int].weight == old(self).members@[i as int].weight,
            final(self).members@[i as int].soft_fails == old(self).members@[i as int].soft_fails,
            final(self).members@[i as int].limiter == old(self).members@[i as int].limiter,
    {
        let mut u = self.members.remove(i);
        u.record_probe_failure();
        self.members.insert(i, u);
    }

    /// A request forwarded to member `i` failed for another reason than its limiter.
    pub fn record_request_failure(&mut self, i: usize)
        requires
            old(self).wf(),
            i < old(self).members@.len(),
        ensures
            final(self).wf(),
            final(self).max_lag == old(self).max_lag,
            final(self).members@ == old(self).members@.update(
                i as int,
                Upstream {
                    soft_fails: if old(self).members@[i as int].soft_fails == u64::MAX {
                        u64::MAX
                    } else {
                        (old(self).members@[i as int].soft_fails + 1) as u64
                    },
                    ..old(self).members@[i as int]
                },
            ),
    {
        let mut u = self.members.remove(i);
        u.record_request_failure();
        self.members.insert(i, u);
    }
}

} // verus!
