//! The router: for each request it decides what to do next, from the state of
//! its tiers, its private relays and its cache. The caller performs the
//! decision (a forward, a broadcast or a sleep) and reports back.
use crate::cache::{inserted, lookup, CacheKey, EntryView, KeyView, ResponseCache};
use crate::jsonrpc::{
    canonical_of, canonical_params, internal_error, success, Payload, PayloadView, Request, Response,
    ResponseView, INTERNAL_ERROR,
};
use crate::limiter::earliest;
use crate::pool::{after_take, Pool};
use vstd::prelude::*;
use vstd::string::*;

verus! {

/// Milliseconds to wait when every tier refused without naming an instant.
pub const FALLBACK_SLEEP_MS: u64 = 500;

/// Whether `method` is a private-transaction submission.
pub open spec fn is_private_method(method: Seq<char>) -> bool {
    method == "eth_sendRawTransaction"@
}

pub fn is_private(method: &String) -> (r: bool)
    ensures
        r == is_private_method(method@),
{
    let private = "eth_sendRawTransaction".to_owned();
    *method == private
}

/// What the router asks its caller to do next for a request.
pub enum Step {
    /// Answer with this response, taken from the cache.
    Respond(Response),
    /// Send the request to member `upstream` of tier `tier`, then report the reply under `key`.
    Forward { tier: usize, upstream: usize, key: CacheKey },
    /// Send the request to these members of the private pool at once.
    Broadcast(Vec<usize>),
    /// Sleep until this instant, then ask again.
    SleepUntil(u64),
    /// Sleep this many milliseconds, then ask again.
    SleepFor(u64),
}

pub ghost enum Decision {
    Respond(ResponseView),
    Forward(int, int, KeyView),
    Broadcast(Seq<usize>),
    SleepUntil(nat),
    SleepFor(nat),
}

impl View for Step {
    type V = Decision;

    open spec fn view(&self) -> Decision {
        match self {
            Step::Respond(r) => Decision::Respond(r@),
            Step::Forward { tier, upstream, key } => Decision::Forward(*tier as int, *upstream as int, key@),
            Step::Broadcast(v) => Decision::Broadcast(v@),
            Step::SleepUntil(t) => Decision::SleepUntil(*t as nat),
            Step::SleepFor(d) => Decision::SleepFor(*d as nat),
        }
    }
}

/// The balanced decision from tier `t` on, with `acc` the earliest retry
/// instant seen in the tiers before it.
pub open spec fn balanced_from(
    tiers: Seq<Pool>,
    cache: Seq<EntryView>,
    id: Seq<char>,
    method: Seq<char>,
    params: Seq<char>,
    now: nat,
    t: int,
    acc: Option<nat>,
) -> Decision
    decreases tiers.len() - t,
{
    if t < 0 || t >= tiers.len() {
        match acc {
            Some(e) => Decision::SleepUntil(e),
            None => Decision::SleepFor(FALLBACK_SLEEP_MS as nat),
        }
    } else {
        let key: KeyView = (tiers[t].consensus() as u64, method, params);
        match lookup(cache, key) {
            Some(v) => Decision::Respond(ResponseView { id, payload: v.payload }),
            None => if tiers[t].has_eligible(now) {
                Decision::Forward(t, tiers[t].pick(now), key)
            } else {
                let next = match tiers[t].refusal(now) {
                    Some(r) => Some(match acc { Some(a) => if a <= r { a } else { r }, None => r }),
                    None => acc,
                };
                balanced_from(tiers, cache, id, method, params, now, t + 1, next)
            },
        }
    }
}

/// Both sequences of tiers hold the same members and lags.
pub open spec fn same_tiers(a: Seq<Pool>, b: Seq<Pool>) -> bool {
    &&& a.len() == b.len()
    &&& forall|i: int| 0 <= i < a.len() ==> (#[trigger] a[i]).members@ == b[i].members@ && a[i].max_lag == b[i].max_lag
}

/// `b` is `a` after member `u` of tier `t` admitted one request at `now`.
pub open spec fn tiers_after_forward(a: Seq<Pool>, b: Seq<Pool>, t: int, u: int, now: nat) -> bool {
    &&& a.len() == b.len()
    &&& forall|i: int| 0 <= i < a.len() ==> (#[trigger] b[i]).max_lag == a[i].max_lag && b[i].members@ == if i == t {
        a[t].members@.update(u, after_take(a[t].members@[u], now))
    } else {
        a[i].members@
    }
}

/// What came back from an upstream for a forwarded request.
pub enum UpstreamReply {
    /// The JSON text of the `result` member.
    Result(String),
    /// A well-formed JSON-RPC error envelope.
    RpcError { code: i64, message: String },
    /// The request did not get an envelope back: transport or parse failure.
    Failed(String),
}

/// The response that answers the request with id `id` for `reply`.
pub open spec fn reply_response(id: Seq<char>, reply: UpstreamReply) -> ResponseView {
    match reply {
        UpstreamReply::Result(v) => ResponseView { id, payload: PayloadView::Result(v@) },
        UpstreamReply::RpcError { code, message } => ResponseView { id, payload: PayloadView::Error(code as int, message@) },
        UpstreamReply::Failed(m) => ResponseView { id, payload: PayloadView::Error(INTERNAL_ERROR as int, m@) },
    }
}

/// Member `u` of tier `t` exists and has reached block `head`.
pub open spec fn serves_at(tiers: Seq<Pool>, t: int, u: int, head: u64) -> bool {
    &&& 0 <= t < tiers.len()
    &&& 0 <= u < tiers[t].members@.len()
    &&& tiers[t].members@[u].head_block == head
}

/// `b` is `a` after a failed request on member `u` of tier `t`: its count of
/// failures grows by one, up to the largest count.
pub open spec fn tiers_after_failure(a: Seq<Pool>, b: Seq<Pool>, t: int, u: int) -> bool {
    &&& a.len() == b.len()
    &&& forall|i: int| 0 <= i < a.len() ==> (#[trigger] b[i]).max_lag == a[i].max_lag && b[i].members@ == if i == t {
        a[t].members@.update(u, crate::upstream::Upstream {
            soft_fails: if a[t].members@[u].soft_fails == u64::MAX { u64::MAX } else { (a[t].members@[u].soft_fails + 1) as u64 },
            ..a[t].members@[u]
        })
    } else {
        a[i].members@
    }
}

/// The highest consensus head among `tiers`.
pub open spec fn max_tier_head(tiers: Seq<Pool>) -> nat
    decreases tiers.len(),
{
    if tiers.len() == 0 {
        0
    } else {
        let m = max_tier_head(tiers.drop_last());
        let h = tiers.last().consensus();
        if h > m { h } else { m }
    }
}

pub struct Router {
    pub tiers: Vec<Pool>,
    pub private_rpcs: Option<Pool>,
    pub cache: ResponseCache,
}

impl Router {
    pub open spec fn wf(&self) -> bool {
        &&& forall|i: int| 0 <= i < self.tiers@.len() ==> (#[trigger] self.tiers@[i]).wf()
        &&& match self.private_rpcs { Some(p) => p.wf(), None => true }
        &&& self.cache.wf()
    }

    /// Whether a request for `method` goes to the private relays at `now`
    /// rather than to the tiers.
    pub open spec fn goes_private(&self, method: Seq<char>, now: nat) -> bool {
        &&& is_private_method(method)
        &&& self.private_rpcs is Some
        &&& self.private_rpcs->0.has_healthy()
    }

    /// What the router decides for the request (`id`, `method`, `params`) at `now`.
    pub open spec fn decide(&self, id: Seq<char>, method: Seq<char>, params: Seq<char>, now: nat) -> Decision {
        if self.goes_private(method, now) {
            let p = self.private_rpcs->0;
            if p.has_eligible(now) {
                Decision::Broadcast(p.eligible_upto(p.members@.len() as int, now))
            } else {
                Decision::SleepUntil(p.refusal(now)->0)
            }
        } else {
            balanced_from(self.tiers@, self.cache@, id, method, canonical_of(params), now, 0, None)
        }
    }

    /// How `next` follows from `self` once the router decided `d` at `now`.
    pub open spec fn after_decision(&self, next: &Router, d: Decision, now: nat) -> bool {
        &&& next.cache@ == self.cache@
        &&& next.cache.capacity_spec() == self.cache.capacity_spec()
        &&& match d {
            Decision::Forward(t, u, _) => tiers_after_forward(self.tiers@, next.tiers@, t, u, now),
            _ => same_tiers(self.tiers@, next.tiers@),
        }
        &&& match (self.private_rpcs, next.private_rpcs) {
            (Some(p), Some(q)) => q.max_lag == p.max_lag && q.members@ == match d {
                Decision::Broadcast(_) => p.members@.map(|i: int, m| if p.eligible(i, now) { after_take(m, now) } else { m }),
                _ => p.members@,
            },
            (None, None) => true,
            _ => false,
        }
    }

    /// A router over `tiers`, with private relays if any and a cache of `cache_capacity` entries.
    pub fn new(tiers: Vec<Pool>, private_rpcs: Option<Pool>, cache_capacity: usize) -> (r: Router)
        requires
            forall|i: int| 0 <= i < tiers@.len() ==> (#[trigger] tiers@[i]).wf(),
            match private_rpcs { Some(p) => p.wf(), None => true },
            cache_capacity >= 1,
        ensures
            r.wf(),
            r.tiers@ == tiers@,
            r.private_rpcs == private_rpcs,
            r.cache@.len() == 0,
            r.cache.capacity_spec() == cache_capacity,
    {
        Router { tiers, private_rpcs, cache: ResponseCache::new(cache_capacity) }
    }

    /// Whether some tier knows a head block and holds a healthy member.
    pub fn synced(&self) -> (r: bool)
        ensures
            r == exists|t: int| 0 <= t < self.tiers@.len() && (#[trigger] self.tiers@[t]).consensus() > 0 && self.tiers@[t].has_healthy(),
    {
        let mut t: usize = 0;
        while t < self.tiers.len()
            invariant
                t <= self.tiers@.len(),
                forall|j: int| 0 <= j < t ==> !((#[trigger] self.tiers@[j]).consensus() > 0 && self.tiers@[j].has_healthy()),
            decreases self.tiers@.len() - t,
        {
            if self.tiers[t].synced() {
                return true;
            }
            t = t + 1;
        }
        false
    }

    /// The highest head block any tier agrees on.
    pub fn head_block(&self) -> (r: u64)
        ensures
            r == max_tier_head(self.tiers@),
    {
        let mut best: u64 = 0;
        let mut t: usize = 0;
        while t < self.tiers.len()
            invariant
                t <= self.tiers@.len(),
                best == max_tier_head(self.tiers@.subrange(0, t as int)),
            decreases self.tiers@.len() - t,
        {
            assert(self.tiers@.subrange(0, t + 1).drop_last() =~= self.tiers@.subrange(0, t as int));
            let h = self.tiers[t].head_block();
            if h > best {
                best = h;
            }
            t = t + 1;
        }
        assert(self.tiers@.subrange(0, t as int) =~= self.tiers@);
        best
    }

    fn balanced_step(&mut self, req: &Request, now: u64) -> (r: Step)
        requires
            old(self).wf(),
        ensures
            final(self).wf(),
            r@ == balanced_from(old(self).tiers@, old(self).cache@, req.id@, req.method@, canonical_of(req.params@), now as nat, 0, None),
            old(self).after_decision(final(self), r@, now as nat),
            final(self).private_rpcs == old(self).private_rpcs,
    {
        let params = canonical_params(&req.params);
        let ghost pre = *self;
        let mut acc: Option<u64> = None;
        let mut t: usize = 0;
        while t < self.tiers.len()
            invariant
                pre == *old(self),
                self.wf(),
                t <= self.tiers@.len(),
                self.cache@ == pre.cache@,
                self.cache.capacity_spec() == pre.cache.capacity_spec(),
                self.private_rpcs == pre.private_rpcs,
                self.tiers@ == pre.tiers@,
                params@ == canonical_of(req.params@),
                balanced_from(pre.tiers@, pre.cache@, req.id@, req.method@, params@, now as nat, 0, None)
                    == balanced_from(pre.tiers@, pre.cache@, req.id@, req.method@, params@, now as nat, t as int,
                        match acc { Some(a) => Some(a as nat), None => None }),
            decreases self.tiers@.len() - t,
        {
            let head = self.tiers[t].head_block();
            let key = CacheKey { head, method: req.method.clone(), params: params.clone() };
            assert(self.tiers@[t as int].members@ == pre.tiers@[t as int].members@);
            assert(self.tiers@[t as int].consensus() == pre.tiers@[t as int].consensus());
            match self.cache.probe(&key) {
                Some(hit) => {
                    let r = Step::Respond(hit.with_id(&req.id));
                    assert(key@ == (pre.tiers@[t as int].consensus() as u64, req.method@, params@));
                    assert(lookup(pre.cache@, key@) == Some(hit@));
                    assert(r@ == balanced_from(pre.tiers@, pre.cache@, req.id@, req.method@, params@, now as nat, t as int,
                        match acc { Some(a) => Some(a as nat), None => None }));
                    assert(same_tiers(pre.tiers@, self.tiers@));
                    assert(pre.after_decision(self, r@, now as nat));
                    return r;
                },
                None => {},
            }
            let ghost before = self.tiers@;
            let mut pool = self.tiers.remove(t);
            assert(pool == pre.tiers@[t as int]);
            let picked = pool.next_upstream(now);
            self.tiers.insert(t, pool);
            proof {
                if picked is Err {
                    assert(self.tiers@ =~= before);
                } else {
                    assert forall|i: int| 0 <= i < self.tiers@.len() && i != t implies #[trigger] self.tiers@[i] == pre.tiers@[i] by {}
                }
                assert forall|i: int| 0 <= i < self.tiers@.len() implies (#[trigger] self.tiers@[i]).wf() by {
                    if i != t {
                        assert(self.tiers@[i] == pre.tiers@[i]);
                    }
                }
            }
            match picked {
                Ok(u) => {
                    assert(tiers_after_forward(pre.tiers@, self.tiers@, t as int, u as int, now as nat));
                    return Step::Forward { tier: t, upstream: u, key };
                },
                Err(None) => {},
                Err(Some(e)) => {
                    acc = earliest(acc, e);
                },
            }
            t = t + 1;
        }
        match acc {
            Some(e) => Step::SleepUntil(e),
            None => Step::SleepFor(FALLBACK_SLEEP_MS),
        }
    }

    /// Decides what to do next for `req` at `now`. A private-transaction
    /// submission goes to every eligible private relay, or waits for one to
    /// admit; with no healthy relay, or for any other method, the tiers are
    /// tried in order: a cached response for the tier's head answers at once,
    /// else the tier's preferred eligible member takes the request; when every
    /// tier refuses, the router sleeps until the earliest instant any of them
    /// named, or for a fixed while where none did.
    pub fn step(&mut self, req: &Request, now: u64) -> (r: Step)
        requires
            old(self).wf(),
        ensures
            final(self).wf(),
            r@ == old(self).decide(req.id@, req.method@, req.params@, now as nat),
            old(self).after_decision(final(self), r@, now as nat),
    {
        if is_private(&req.method) {
            let ghost pre = *self;
            match &mut self.private_rpcs {
                Some(p) => {
                    let ghost p0 = *p;
                    let chosen = p.all_eligible_upstreams(now);
                    match chosen {
                        Ok(v) => {
                            proof {
                                let q = self.private_rpcs->0;
                                assert(q.members@ =~= p0.members@.map(|i: int, m| if p0.eligible(i, now as nat) { after_take(m, now as nat) } else { m }));
                                assert(same_tiers(pre.tiers@, self.tiers@));
                            }
                            return Step::Broadcast(v);
                        },
                        Err(Some(t)) => {
                            assert(same_tiers(pre.tiers@, self.tiers@));
                            return Step::SleepUntil(t);
                        },
                        Err(None) => {},
                    }
                },
                None => {},
            }
        }
        self.balanced_step(req, now)
    }

    /// Counts a failed request against member `upstream` of tier `tier`, where there is one.
    fn count_failure(&mut self, tier: usize, upstream: usize)
        requires
            old(self).wf(),
        ensures
            final(self).wf(),
            final(self).private_rpcs == old(self).private_rpcs,
            final(self).cache == old(self).cache,
            if tier < old(self).tiers@.len() && upstream < old(self).tiers@[tier as int].members@.len() {
                tiers_after_failure(old(self).tiers@, final(self).tiers@, tier as int, upstream as int)
            } else {
                same_tiers(old(self).tiers@, final(self).tiers@)
            },
    {
        if tier < self.tiers.len() && upstream < self.tiers[tier].members.len() {
            let ghost pre = self.tiers@;
            let mut pool = self.tiers.remove(tier);
            pool.record_request_failure(upstream);
            self.tiers.insert(tier, pool);
            proof {
                assert forall|i: int| 0 <= i < self.tiers@.len() && i != tier implies #[trigger] self.tiers@[i] == pre[i] by {}
                assert forall|i: int| 0 <= i < self.tiers@.len() implies (#[trigger] self.tiers@[i]).wf() by {
                    if i != tier {
                        assert(self.tiers@[i] == pre[i]);
                    }
                }
            }
        }
    }

    /// Turns the reply of member `upstream` of tier `tier` to a forwarded
    /// request into the response. A result is stored in the cache under
    /// `key` when the member has reached the head block that `key` names, so
    /// that nothing is cached under a block its source has not seen; an
    /// upstream's error envelope is passed on as it is and not stored; any
    /// other failure is answered with an internal error. Both kinds of failure
    /// are counted against the member.
    pub fn complete(&mut self, req: &Request, tier: usize, upstream: usize, key: CacheKey, reply: UpstreamReply) -> (r: Response)
        requires
            old(self).wf(),
        ensures
            final(self).wf(),
            r@ == reply_response(req.id@, reply),
            final(self).private_rpcs == old(self).private_rpcs,
            final(self).cache.capacity_spec() == old(self).cache.capacity_spec(),
            final(self).cache@ == match reply {
                UpstreamReply::Result(_) => if serves_at(old(self).tiers@, tier as int, upstream as int, key.head) {
                    inserted(old(self).cache@, key@, r@, old(self).cache.capacity_spec())
                } else {
                    old(self).cache@
                },
                _ => old(self).cache@,
            },
            match reply {
                UpstreamReply::Result(_) => same_tiers(old(self).tiers@, final(self).tiers@),
                _ => if tier < old(self).tiers@.len() && upstream < old(self).tiers@[tier as int].members@.len() {
                    tiers_after_failure(old(self).tiers@, final(self).tiers@, tier as int, upstream as int)
                } else {
                    same_tiers(old(self).tiers@, final(self).tiers@)
                },
            },
    {
        match reply {
            UpstreamReply::Result(v) => {
                let response = success(&req.id, v);
                if tier < self.tiers.len() && upstream < self.tiers[tier].members.len()
                    && self.tiers[tier].members[upstream].head_block == key.head {
                    self.cache.insert(key, response.duplicate());
                }
                response
            },
            UpstreamReply::RpcError { code, message } => {
                self.count_failure(tier, upstream);
                Response { id: req.id.clone(), payload: Payload::Error { code, message } }
            },
            UpstreamReply::Failed(m) => {
                self.count_failure(tier, upstream);
                internal_error(&req.id, m)
            },
        }
    }
}

/// The message of a broadcast in which every relay failed: the failures'
/// messages in the order they came, separated by `"; "`.
pub open spec fn joined(msgs: Seq<Seq<char>>) -> Seq<char>
    decreases msgs.len(),
{
    if msgs.len() == 0 {
        Seq::empty()
    } else if msgs.len() == 1 {
        msgs[0]
    } else {
        joined(msgs.drop_last()) + "; "@ + msgs.last()
    }
}

/// The replies of a private broadcast as they come in: the first result
/// answers the client at once; when every relay has failed, the failures are
/// reported together.
pub struct BroadcastRace {
    pub total: usize,
    pub pending: usize,
    pub reason: String,
    pub failures: Ghost<Seq<Seq<char>>>,
}

/// The text an error reply contributes to a failed broadcast.
pub open spec fn failure_text(reply: UpstreamReply) -> Seq<char> {
    match reply {
        UpstreamReply::Result(v) => v@,
        UpstreamReply::RpcError { message, .. } => message@,
        UpstreamReply::Failed(m) => m@,
    }
}

impl BroadcastRace {
    pub open spec fn wf(&self) -> bool {
        &&& self.reason@ == joined(self.failures@)
        &&& self.failures@.len() + self.pending == self.total
    }

    /// A race over `pending` relays.
    pub fn new(pending: usize) -> (r: BroadcastRace)
        ensures
            r.wf(),
            r.pending == pending,
            r.failures@.len() == 0,
    {
        BroadcastRace { total: pending, pending, reason: String::new(), failures: Ghost(Seq::empty()) }
    }

    /// Takes the next reply. A result answers at once, whatever is still
    /// pending. A failure is recorded; the last one outstanding answers with
    /// an internal error carrying every failure's message.
    pub fn on_reply(&mut self, id: &String, reply: UpstreamReply) -> (r: Option<Response>)
        requires
            old(self).wf(),
            old(self).pending > 0,
        ensures
            final(self).wf(),
            match reply {
                UpstreamReply::Result(v) => {
                    &&& r matches Some(resp) && resp@ == (ResponseView { id: id@, payload: PayloadView::Result(v@) })
                    &&& *final(self) == *old(self)
                },
                _ => {
                    &&& final(self).pending == old(self).pending - 1
                    &&& final(self).total == old(self).total
                    &&& final(self).failures@ == old(self).failures@.push(failure_text(reply))
                    &&& if final(self).pending == 0 {
                        r matches Some(resp) && resp@ == (ResponseView {
                            id: id@,
                            payload: PayloadView::Error(INTERNAL_ERROR as int, joined(final(self).failures@)),
                        })
                    } else {
                        r is None
                    }
                },
            },
    {
        let ghost text = failure_text(reply);
        let message = match reply {
            UpstreamReply::Result(v) => {
                return Some(success(id, v));
            },
            UpstreamReply::RpcError { code: _, message } => message,
            UpstreamReply::Failed(m) => m,
        };
        let ghost prev = self.failures@;
        if self.total == self.pending {
            self.reason = message;
        } else {
            self.reason.append("; ");
            self.reason.append(message.as_str());
        }
        self.failures = Ghost(prev.push(text));
        proof {
            let f = self.failures@;
            assert(f.drop_last() =~= prev);
        }
        self.pending = self.pending - 1;
        if self.pending == 0 {
            Some(internal_error(id, self.reason.clone()))
        } else {
            None
        }
    }
}

} // verus!
