use web3_proxy::jsonrpc::{Payload, Request, Response};
use web3_proxy::limiter::RateLimiter;
use web3_proxy::pool::Pool;
use web3_proxy::router::{BroadcastRace, Router, Step, UpstreamReply};
use web3_proxy::upstream::Upstream;

fn upstream(url: &str, hard_limit: Option<u32>, weight: u32) -> Upstream {
    Upstream::new(url.to_string(), None, hard_limit, weight, 0)
}

fn tier(urls: &[&str], head: u64) -> Pool {
    let mut pool = Pool::new(urls.iter().map(|u| upstream(u, None, 1)).collect(), 3);
    for i in 0..urls.len() {
        pool.record_probe_success(i, head);
    }
    pool
}

fn request(id: &str, method: &str, params: &str) -> Request {
    Request { id: id.to_string(), method: method.to_string(), params: params.to_string() }
}

fn result_of(r: &Response) -> &str {
    match &r.payload {
        Payload::Result(v) => v.as_str(),
        Payload::Error { .. } => panic!("expected a result"),
    }
}

/// A limiter that refuses every request until `ready`.
fn refusing_until(ready: u64) -> RateLimiter {
    RateLimiter { hard_limit: Some(1), level: 0, last: ready - 1000 }
}

#[test]
fn cache_hit_makes_one_upstream_call() {
    let mut router = Router::new(vec![tier(&["a"], 42), tier(&["b"], 42)], None, 128);
    let req = request("1", "eth_chainId", "[]");
    let mut calls = 0;
    let first = match router.step(&req, 0) {
        Step::Forward { tier, upstream, key } => {
            calls += 1;
            assert_eq!((tier, upstream, key.head), (0, 0, 42));
            router.complete(&req, tier, upstream, key, UpstreamReply::Result("\"0x1\"".to_string()))
        }
        _ => panic!("expected a forward"),
    };
    assert_eq!(first.id, "1");
    assert_eq!(result_of(&first), "\"0x1\"");
    match router.step(&req, 1) {
        Step::Respond(r) => {
            assert_eq!(r.id, "1");
            assert_eq!(result_of(&r), "\"0x1\"");
        }
        _ => panic!("expected the cached response"),
    }
    assert_eq!(calls, 1);
}

#[test]
fn rate_limited_tier_fails_over_without_sleeping() {
    let now = 50_000;
    let mut a = tier(&["a"], 10);
    a.members[0].limiter = refusing_until(now + 10_000);
    let mut router = Router::new(vec![a, tier(&["b"], 10)], None, 128);
    match router.step(&request("7", "eth_blockNumber", "[]"), now) {
        Step::Forward { tier, upstream, .. } => assert_eq!((tier, upstream), (1, 0)),
        _ => panic!("expected a forward to the second tier"),
    }
}

#[test]
fn global_backpressure_sleeps_until_earliest_refill() {
    let now = 100_000;
    let mut a = tier(&["a"], 10);
    a.members[0].limiter = refusing_until(now + 5_000);
    let mut b = tier(&["b"], 10);
    b.members[0].limiter = refusing_until(now + 2_000);
    let mut router = Router::new(vec![a, b], None, 128);
    let req = request("3", "eth_gasPrice", "[]");
    match router.step(&req, now) {
        Step::SleepUntil(t) => assert_eq!(t, now + 2_000),
        _ => panic!("expected a sleep"),
    }
    match router.step(&req, now + 2_000) {
        Step::Forward { tier, .. } => assert_eq!(tier, 1),
        _ => panic!("expected a forward after the sleep"),
    }
}

#[test]
fn no_healthy_member_sleeps_for_fallback() {
    let mut pool = tier(&["a"], 10);
    for _ in 0..5 {
        pool.record_probe_failure(0);
    }
    let mut router = Router::new(vec![pool], None, 128);
    match router.step(&request("3", "eth_gasPrice", "[]"), 0) {
        Step::SleepFor(d) => assert_eq!(d, 500),
        _ => panic!("expected the fallback sleep"),
    }
}

#[test]
fn private_broadcast_answers_with_first_success() {
    let private = tier(&["relay1", "relay2", "relay3"], 5);
    let mut router = Router::new(vec![tier(&["a"], 5)], Some(private), 128);
    let req = request("9", "eth_sendRawTransaction", "[\"0xf86c\"]");
    let upstreams = match router.step(&req, 0) {
        Step::Broadcast(v) => v,
        _ => panic!("expected a broadcast"),
    };
    assert_eq!(upstreams, vec![0, 1, 2]);
    let mut race = BroadcastRace::new(upstreams.len());
    let answer = race.on_reply(&req.id, UpstreamReply::Result("\"0xabc\"".to_string()));
    let answer = answer.expect("the first success answers at once");
    assert_eq!(answer.id, "9");
    assert_eq!(result_of(&answer), "\"0xabc\"");
    assert_eq!(race.pending, 3);
}

#[test]
fn private_broadcast_after_a_failure_still_takes_first_success() {
    let mut race = BroadcastRace::new(3);
    assert!(race.on_reply(&"4".to_string(), UpstreamReply::Failed("refused".to_string())).is_none());
    let r = race.on_reply(&"4".to_string(), UpstreamReply::Result("\"0xabc\"".to_string())).unwrap();
    assert_eq!(result_of(&r), "\"0xabc\"");
}

#[test]
fn private_broadcast_all_failed_reports_every_reason() {
    let mut race = BroadcastRace::new(2);
    let id = "5".to_string();
    assert!(race.on_reply(&id, UpstreamReply::Failed("timeout".to_string())).is_none());
    let r = race
        .on_reply(&id, UpstreamReply::RpcError { code: -32000, message: "nonce too low".to_string() })
        .unwrap();
    match r.payload {
        Payload::Error { code, message } => {
            assert_eq!(code, -32603);
            assert_eq!(message, "timeout; nonce too low");
        }
        _ => panic!("expected an error"),
    }
}

#[test]
fn private_without_healthy_relay_falls_back_to_tiers() {
    let mut private = tier(&["relay"], 5);
    for _ in 0..5 {
        private.record_probe_failure(0);
    }
    let mut router = Router::new(vec![tier(&["a"], 5)], Some(private), 128);
    match router.step(&request("1", "eth_sendRawTransaction", "[]"), 0) {
        Step::Forward { tier, .. } => assert_eq!(tier, 0),
        _ => panic!("expected the balanced path"),
    }
}

#[test]
fn private_relays_rate_limited_sleep() {
    let mut private = tier(&["relay"], 5);
    private.members[0].limiter = refusing_until(8_000);
    let mut router = Router::new(vec![tier(&["a"], 5)], Some(private), 128);
    match router.step(&request("1", "eth_sendRawTransaction", "[]"), 1_000) {
        Step::SleepUntil(t) => assert_eq!(t, 8_000),
        _ => panic!("expected a sleep"),
    }
}

#[test]
fn new_head_block_misses_the_cache() {
    let mut router = Router::new(vec![tier(&["a"], 100)], None, 128);
    let req = request("2", "eth_call", "[{\"to\":\"0x1\"}]");
    match router.step(&req, 0) {
        Step::Forward { tier, upstream, key } => {
            assert_eq!(key.head, 100);
            router.complete(&req, tier, upstream, key, UpstreamReply::Result("\"X\"".to_string()));
        }
        _ => panic!("expected a forward"),
    }
    router.tiers[0].record_probe_success(0, 101);
    match router.step(&req, 1) {
        Step::Forward { tier, upstream, key } => {
            assert_eq!(key.head, 101);
            router.complete(&req, tier, upstream, key, UpstreamReply::Result("\"Y\"".to_string()));
        }
        _ => panic!("expected a new upstream call"),
    }
    assert_eq!(router.cache.len(), 2);
}

#[test]
fn upstream_error_is_forwarded_and_not_cached() {
    let mut router = Router::new(vec![tier(&["a"], 7)], None, 128);
    let req = request("11", "eth_estimateGas", "[]");
    for _ in 0..2 {
        match router.step(&req, 0) {
            Step::Forward { tier, upstream, key } => {
                let r = router.complete(
                    &req,
                    tier,
                    upstream,
                    key,
                    UpstreamReply::RpcError { code: -32000, message: "revert".to_string() },
                );
                assert_eq!(r.id, "11");
                match r.payload {
                    Payload::Error { code, message } => {
                        assert_eq!(code, -32000);
                        assert_eq!(message, "revert");
                    }
                    _ => panic!("expected the upstream's error"),
                }
            }
            _ => panic!("expected an upstream call"),
        }
    }
    assert_eq!(router.cache.len(), 0);
    assert_eq!(router.tiers[0].members[0].soft_fails, 2);
}

#[test]
fn transport_failure_is_internal_error_and_counted() {
    let mut router = Router::new(vec![tier(&["a"], 7)], None, 128);
    let req = request("12", "eth_chainId", "[]");
    match router.step(&req, 0) {
        Step::Forward { tier, upstream, key } => {
            let r = router.complete(&req, tier, upstream, key, UpstreamReply::Failed("connection refused".to_string()));
            match r.payload {
                Payload::Error { code, message } => {
                    assert_eq!(code, -32603);
                    assert_eq!(message, "connection refused");
                }
                _ => panic!("expected an internal error"),
            }
        }
        _ => panic!("expected an upstream call"),
    }
    assert_eq!(router.tiers[0].members[0].soft_fails, 1);
    assert_eq!(router.cache.len(), 0);
}

#[test]
fn cached_response_takes_the_new_request_id() {
    let mut router = Router::new(vec![tier(&["a"], 1)], None, 128);
    let first = request("\"abc\"", "eth_chainId", "[]");
    if let Step::Forward { tier, upstream, key } = router.step(&first, 0) {
        router.complete(&first, tier, upstream, key, UpstreamReply::Result("\"0x1\"".to_string()));
    } else {
        panic!("expected a forward");
    }
    let second = request("{\"n\": 2}", "eth_chainId", "[]");
    match router.step(&second, 0) {
        Step::Respond(r) => assert_eq!(r.id, "{\"n\": 2}"),
        _ => panic!("expected the cached response"),
    }
}

#[test]
fn equivalent_params_share_a_cache_entry() {
    let mut router = Router::new(vec![tier(&["a"], 1)], None, 128);
    let first = request("1", "eth_call", "{\"b\": 1, \"a\": 2}");
    if let Step::Forward { tier, upstream, key } = router.step(&first, 0) {
        assert_eq!(key.params, "{\"a\":2,\"b\":1}");
        router.complete(&first, tier, upstream, key, UpstreamReply::Result("\"0x2\"".to_string()));
    } else {
        panic!("expected a forward");
    }
    let second = request("2", "eth_call", "{\"a\":2,\"b\":1}");
    match router.step(&second, 0) {
        Step::Respond(r) => assert_eq!(result_of(&r), "\"0x2\""),
        _ => panic!("expected the cached response"),
    }
}

#[test]
fn eligible_member_answers_in_first_pass() {
    let mut a = tier(&["a"], 3);
    a.members[0].limiter = refusing_until(9_000);
    let mut router = Router::new(vec![a, tier(&["b", "c"], 3)], None, 128);
    for n in 0..4 {
        let req = request("1", "eth_getBalance", &format!("[\"0x{}\"]", n));
        assert!(matches!(router.step(&req, 0), Step::Forward { tier: 1, .. }));
    }
}

#[test]
fn router_reports_sync_and_highest_head() {
    let mut lagging = tier(&["a"], 0);
    lagging.record_probe_failure(0);
    let router = Router::new(vec![lagging, tier(&["b"], 77), tier(&["c"], 90)], None, 128);
    assert!(router.synced());
    assert_eq!(router.head_block(), 90);
    let empty = Router::new(vec![tier(&["a"], 0)], None, 1);
    assert!(!empty.synced());
    assert_eq!(empty.head_block(), 0);
}

#[test]
fn result_from_member_behind_head_is_not_cached() {
    let mut pool = tier(&["a", "b"], 100);
    pool.record_probe_success(0, 98);
    pool.members[1].limiter = refusing_until(60_000);
    let mut router = Router::new(vec![pool], None, 128);
    let req = request("1", "eth_chainId", "[]");
    match router.step(&req, 0) {
        Step::Forward { tier, upstream, key } => {
            assert_eq!((upstream, key.head), (0, 100));
            let r = router.complete(&req, tier, upstream, key, UpstreamReply::Result("\"0x1\"".to_string()));
            assert_eq!(result_of(&r), "\"0x1\"");
        }
        _ => panic!("expected a forward"),
    }
    assert_eq!(router.cache.len(), 0);
}
