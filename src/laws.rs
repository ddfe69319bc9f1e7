//! Properties of the router that hold across requests and states.
use crate::cache::{inserted, lemma_inserted_found, lookup, EntryView, KeyView};
use crate::jsonrpc::{canonical_of, PayloadView, ResponseView};
use crate::pool::{after_take, lemma_max_head_update, Pool};
use crate::router::{FALLBACK_SLEEP_MS, balanced_from, is_private_method, same_tiers, Decision, Router};
use vstd::prelude::*;

verus! {

/// The key under which tier `t` looks a request up.
pub open spec fn tier_key(tiers: Seq<Pool>, t: int, method: Seq<char>, params: Seq<char>) -> KeyView {
    (tiers[t].consensus() as u64, method, params)
}

proof fn lemma_reaches_answer(
    tiers: Seq<Pool>,
    cache: Seq<EntryView>,
    id: Seq<char>,
    method: Seq<char>,
    params: Seq<char>,
    now: nat,
    i: int,
    acc: Option<nat>,
    t: int,
)
    requires
        0 <= i <= t < tiers.len(),
        tiers[t].has_eligible(now) || lookup(cache, tier_key(tiers, t, method, params)) is Some,
    ensures
        balanced_from(tiers, cache, id, method, params, now, i, acc) matches Decision::Respond(_) || balanced_from(
            tiers,
            cache,
            id,
            method,
            params,
            now,
            i,
            acc,
        ) matches Decision::Forward(_, _, _),
    decreases t - i,
{
    if i < t {
        let next = match tiers[i].refusal(now) {
            Some(r) => Some(match acc { Some(a) => if a <= r { a } else { r }, None => r }),
            None => acc,
        };
        lemma_reaches_answer(tiers, cache, id, method, params, now, i + 1, next, t);
    }
}

/// A request for any method but a private-transaction submission, to a
/// router one of whose tiers holds a member that is healthy and admitted at
/// `now`, is answered in the first pass over the tiers: from the cache or by
/// forwarding, never by sleeping.
pub proof fn lemma_eligible_member_answers_at_once(
    router: Router,
    id: Seq<char>,
    method: Seq<char>,
    params: Seq<char>,
    now: nat,
    t: int,
)
    requires
        router.wf(),
        !is_private_method(method),
        0 <= t < router.tiers@.len(),
        router.tiers@[t].has_eligible(now),
    ensures
        router.decide(id, method, params, now) matches Decision::Respond(_) || router.decide(
            id,
            method,
            params,
            now,
        ) matches Decision::Forward(_, _, _),
{
    lemma_reaches_answer(router.tiers@, router.cache@, id, method, canonical_of(params), now, 0, None, t);
}

proof fn lemma_cache_answers(
    tiers: Seq<Pool>,
    cache: Seq<EntryView>,
    id: Seq<char>,
    method: Seq<char>,
    params: Seq<char>,
    now: nat,
    i: int,
    acc: Option<nat>,
    t: int,
)
    requires
        0 <= i <= t < tiers.len(),
        lookup(cache, tier_key(tiers, t, method, params)) is Some,
        forall|j: int| i <= j < t ==> !(#[trigger] tiers[j]).has_eligible(now),
    ensures
        balanced_from(tiers, cache, id, method, params, now, i, acc) matches Decision::Respond(_),
    decreases t - i,
{
    if i < t {
        let next = match tiers[i].refusal(now) {
            Some(r) => Some(match acc { Some(a) => if a <= r { a } else { r }, None => r }),
            None => acc,
        };
        lemma_cache_answers(tiers, cache, id, method, params, now, i + 1, next, t);
    }
}

/// A request forwarded to tier `t`, whose result was stored (the member that
/// served it was at the tier's head), is answered from
/// the cache when it comes again, as long as no tier changed its head and
/// the tiers before `t` still admit nothing: the second request makes no
/// upstream call.
pub proof fn lemma_repeat_served_from_cache(
    first: Router,
    forwarded: Router,
    completed: Router,
    id: Seq<char>,
    method: Seq<char>,
    params: Seq<char>,
    now: nat,
    later: nat,
    t: int,
    u: int,
    key: KeyView,
    result: Seq<char>,
)
    requires
        first.wf(),
        forwarded.wf(),
        !is_private_method(method),
        first.decide(id, method, params, now) == Decision::Forward(t, u, key),
        first.after_decision(&forwarded, Decision::Forward(t, u, key), now),
        completed.cache@ == inserted(
            forwarded.cache@,
            key,
            ResponseView { id, payload: PayloadView::Result(result) },
            forwarded.cache.capacity_spec(),
        ),
        same_tiers(forwarded.tiers@, completed.tiers@),
        forall|j: int| 0 <= j < t ==> !(#[trigger] completed.tiers@[j]).has_eligible(later),
    ensures
        completed.decide(id, method, params, later) matches Decision::Respond(_),
{
    let p = canonical_of(params);
    let tiers = first.tiers@;
    lemma_forward_tier(tiers, first.cache@, id, method, p, now, 0, None, t, u, key);
    let ct = completed.tiers@;
    let m = tiers[t].members@;
    let x = after_take(m[u], now);
    lemma_max_head_update(m, u, x);
    assert(forwarded.tiers@[t].members@ == m.update(u, x));
    assert(ct[t].members@ == m.update(u, x));
    assert(ct[t].consensus() == tiers[t].consensus());
    lemma_inserted_found(
        forwarded.cache@,
        key,
        ResponseView { id, payload: PayloadView::Result(result) },
        forwarded.cache.capacity_spec(),
    );
    lemma_cache_answers(ct, completed.cache@, id, method, p, later, 0, None, t);
}

proof fn lemma_forward_tier(
    tiers: Seq<Pool>,
    cache: Seq<EntryView>,
    id: Seq<char>,
    method: Seq<char>,
    params: Seq<char>,
    now: nat,
    i: int,
    acc: Option<nat>,
    t: int,
    u: int,
    key: KeyView,
)
    requires
        0 <= i,
        balanced_from(tiers, cache, id, method, params, now, i, acc) == Decision::Forward(t, u, key),
    ensures
        i <= t < tiers.len(),
        key == tier_key(tiers, t, method, params),
        tiers[t].is_best(u, now),
    decreases tiers.len() - i,
{
    if i < tiers.len() {
        let k = tier_key(tiers, i, method, params);
        if lookup(cache, k) is None && !tiers[i].has_eligible(now) {
            let next = match tiers[i].refusal(now) {
                Some(r) => Some(match acc { Some(a) => if a <= r { a } else { r }, None => r }),
                None => acc,
            };
            lemma_forward_tier(tiers, cache, id, method, params, now, i + 1, next, t, u, key);
        } else if lookup(cache, k) is None {
            let b = choose|b: int| tiers[i].is_best(b, now);
            assert(tiers[i].is_best(b, now)) by {
                let j = choose|j: int| 0 <= j < tiers[i].members@.len() && tiers[i].eligible(j, now);
                lemma_best_exists(tiers[i], now, j);
            }
        }
    }
}

proof fn lemma_sleep_from(
    tiers: Seq<Pool>,
    cache: Seq<EntryView>,
    id: Seq<char>,
    method: Seq<char>,
    params: Seq<char>,
    now: nat,
    i: int,
    acc: Option<nat>,
    not_before: nat,
)
    requires
        0 <= i <= tiers.len(),
        forall|t: int| 0 <= t < tiers.len() ==> !(#[trigger] tiers[t]).has_eligible(now),
        forall|t: int| 0 <= t < tiers.len() ==> lookup(cache, #[trigger] tier_key(tiers, t, method, params)) is None,
        forall|t: int| 0 <= t < tiers.len() ==> ((#[trigger] tiers[t]).refusal(now) matches Some(r) ==> r >= not_before),
        acc matches Some(a) ==> a >= not_before,
    ensures
        match balanced_from(tiers, cache, id, method, params, now, i, acc) {
            Decision::SleepUntil(e) => e >= not_before,
            Decision::SleepFor(d) => d == FALLBACK_SLEEP_MS && acc is None
                && forall|t: int| i <= t < tiers.len() ==> (#[trigger] tiers[t]).refusal(now) is None,
            _ => false,
        },
    decreases tiers.len() - i,
{
    if i < tiers.len() {
        assert(lookup(cache, tier_key(tiers, i, method, params)) is None);
        assert(!tiers[i].has_eligible(now));
        let next = match tiers[i].refusal(now) {
            Some(r) => Some(match acc { Some(a) => if a <= r { a } else { r }, None => r }),
            None => acc,
        };
        lemma_sleep_from(tiers, cache, id, method, params, now, i + 1, next, not_before);
    }
}

/// When no tier admits a request at `now` nor finds it in the cache, and no
/// tier names a retry instant before `not_before`, the router sleeps: until
/// an instant no earlier than `not_before`, or for the fixed fallback when no
/// tier named any instant.
pub proof fn lemma_sleeps_until_refusal(
    router: Router,
    id: Seq<char>,
    method: Seq<char>,
    params: Seq<char>,
    now: nat,
    not_before: nat,
)
    requires
        router.wf(),
        !is_private_method(method),
        forall|t: int| 0 <= t < router.tiers@.len() ==> !(#[trigger] router.tiers@[t]).has_eligible(now),
        forall|t: int| 0 <= t < router.tiers@.len()
            ==> lookup(router.cache@, #[trigger] tier_key(router.tiers@, t, method, canonical_of(params))) is None,
        forall|t: int| 0 <= t < router.tiers@.len()
            ==> ((#[trigger] router.tiers@[t]).refusal(now) matches Some(r) ==> r >= not_before),
    ensures
        match router.decide(id, method, params, now) {
            Decision::SleepUntil(e) => e >= not_before,
            Decision::SleepFor(d) => d == FALLBACK_SLEEP_MS
                && forall|t: int| 0 <= t < router.tiers@.len() ==> (#[trigger] router.tiers@[t]).refusal(now) is None,
            _ => false,
        },
{
    lemma_sleep_from(router.tiers@, router.cache@, id, method, canonical_of(params), now, 0, None, not_before);
}

proof fn lemma_answer_id_from(
    tiers: Seq<Pool>,
    cache: Seq<EntryView>,
    id: Seq<char>,
    method: Seq<char>,
    params: Seq<char>,
    now: nat,
    i: int,
    acc: Option<nat>,
)
    requires
        0 <= i,
    ensures
        balanced_from(tiers, cache, id, method, params, now, i, acc) matches Decision::Respond(v) ==> v.id == id,
    decreases tiers.len() - i,
{
    if i < tiers.len() {
        let next = match tiers[i].refusal(now) {
            Some(r) => Some(match acc { Some(a) => if a <= r { a } else { r }, None => r }),
            None => acc,
        };
        lemma_answer_id_from(tiers, cache, id, method, params, now, i + 1, next);
    }
}

/// A response the router gives from its cache carries the id of the request
/// it answers, whoever's request stored it.
pub proof fn lemma_cached_answer_keeps_id(
    router: Router,
    id: Seq<char>,
    method: Seq<char>,
    params: Seq<char>,
    now: nat,
)
    ensures
        router.decide(id, method, params, now) matches Decision::Respond(v) ==> v.id == id,
{
    lemma_answer_id_from(router.tiers@, router.cache@, id, method, canonical_of(params), now, 0, None);
}

proof fn lemma_best_exists(p: Pool, now: nat, j: int)
    requires
        0 <= j < p.members@.len(),
        p.eligible(j, now),
    ensures
        exists|b: int| p.is_best(b, now),
{
    let b = lemma_best_upto(p, now, p.members@.len() as int, j);
    assert(p.is_best(b, now));
}

spec fn best_among(p: Pool, b: int, n: int, now: nat) -> bool {
    &&& 0 <= b < n
    &&& p.eligible(b, now)
    &&& forall|k: int| 0 <= k < n && #[trigger] p.eligible(k, now) ==> !p.prefers(k, b, now)
}

proof fn lemma_prefers_transitive(p: Pool, a: int, b: int, c: int, now: nat)
    requires
        p.prefers(a, b, now),
        p.prefers(b, c, now),
    ensures
        p.prefers(a, c, now),
{
}

proof fn lemma_best_upto(p: Pool, now: nat, n: int, j: int) -> (b: int)
    requires
        0 <= j < n <= p.members@.len(),
        p.eligible(j, now),
    ensures
        best_among(p, b, n, now),
    decreases n,
{
    let last = n - 1;
    if j == last && !(exists|i: int| 0 <= i < last && #[trigger] p.eligible(i, now)) {
        assert forall|k: int| 0 <= k < n && #[trigger] p.eligible(k, now) implies !p.prefers(k, last, now) by {
            assert(k == last);
        }
        last
    } else {
        let i = if j < last { j } else { choose|i: int| 0 <= i < last && #[trigger] p.eligible(i, now) };
        let b = lemma_best_upto(p, now, last, i);
        if p.eligible(last, now) && p.prefers(last, b, now) {
            assert forall|k: int| 0 <= k < n && #[trigger] p.eligible(k, now) implies !p.prefers(k, last, now) by {
                if k < last && p.prefers(k, last, now) {
                    lemma_prefers_transitive(p, k, last, b, now);
                }
            }
            last
        } else {
            assert forall|k: int| 0 <= k < n && #[trigger] p.eligible(k, now) implies !p.prefers(k, b, now) by {
                if k < last {
                }
            }
            b
        }
    }
}

} // verus!
