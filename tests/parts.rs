use web3_proxy::cache::{CacheKey, ResponseCache};
use web3_proxy::default_rpm;
use web3_proxy::jsonrpc::{internal_error, success, FrontendErrorResponse, Payload};
use web3_proxy::limiter::{earliest, wait_time_from, RateLimiter};
use web3_proxy::pool::Pool;
use web3_proxy::upstream::{Health, Upstream};

fn key(head: u64, method: &str) -> CacheKey {
    CacheKey { head, method: method.to_string(), params: "[]".to_string() }
}

#[test]
fn limiter_admits_up_to_its_burst_then_names_retry() {
    let mut l = RateLimiter::new(Some(2), 0);
    assert_eq!(l.check(0), Ok(()));
    assert_eq!(l.check(0), Ok(()));
    assert_eq!(l.check(0), Err(500));
    assert_eq!(l.check(499), Err(500));
    assert_eq!(l.check(500), Ok(()));
}

#[test]
fn limiter_without_hard_limit_always_admits() {
    let mut l = RateLimiter::new(None, 0);
    for t in 0..1000 {
        assert_eq!(l.check(t), Ok(()));
    }
}

#[test]
fn limiter_refill_is_capped_at_burst() {
    let mut l = RateLimiter::new(Some(3), 0);
    for _ in 0..3 {
        assert!(l.check(0).is_ok());
    }
    assert_eq!(l.current_level(1_000_000), 3000);
    assert_eq!(l.current_level(100), 300);
    assert_eq!(l.free_share_at(100), 100);
}

#[test]
fn limiter_of_zero_never_admits() {
    let mut l = RateLimiter::new(Some(0), 0);
    assert_eq!(l.check(10), Err(u64::MAX));
}

#[test]
fn wait_time_is_never_negative() {
    assert_eq!(wait_time_from(10, 3), 7);
    assert_eq!(wait_time_from(3, 10), 0);
    assert_eq!(earliest(None, 5), Some(5));
    assert_eq!(earliest(Some(4), 5), Some(4));
    assert_eq!(earliest(Some(6), 5), Some(5));
}

#[test]
fn cache_never_exceeds_capacity_and_evicts_oldest() {
    let mut c = ResponseCache::new(2);
    for h in 0..5 {
        c.insert(key(h, "m"), success(&"1".to_string(), format!("{}", h)));
        assert!(c.len() <= 2);
    }
    assert!(c.probe(&key(2, "m")).is_none());
    assert!(c.probe(&key(3, "m")).is_some());
    assert!(c.probe(&key(4, "m")).is_some());
}

#[test]
fn cache_overwrite_keeps_insertion_order() {
    let mut c = ResponseCache::new(2);
    c.insert(key(1, "a"), success(&"1".to_string(), "\"old\"".to_string()));
    c.insert(key(2, "b"), success(&"1".to_string(), "\"b\"".to_string()));
    c.insert(key(1, "a"), success(&"1".to_string(), "\"new\"".to_string()));
    assert_eq!(c.len(), 2);
    c.insert(key(3, "c"), success(&"1".to_string(), "\"c\"".to_string()));
    assert!(c.probe(&key(1, "a")).is_none());
    match c.probe(&key(2, "b")).unwrap().payload {
        Payload::Result(v) => assert_eq!(v, "\"b\""),
        _ => panic!("expected a result"),
    }
}

#[test]
fn cache_keys_differ_by_any_component() {
    let mut c = ResponseCache::new(8);
    c.insert(key(1, "a"), success(&"1".to_string(), "1".to_string()));
    assert!(c.probe(&key(2, "a")).is_none());
    assert!(c.probe(&key(1, "b")).is_none());
    let other = CacheKey { head: 1, method: "a".to_string(), params: "[1]".to_string() };
    assert!(c.probe(&other).is_none());
}

#[test]
fn five_failed_probes_make_an_upstream_unhealthy() {
    let mut u = Upstream::new("http://a".to_string(), None, None, 1, 0);
    u.record_probe_success(20);
    for n in 1..5 {
        u.record_probe_failure();
        assert_eq!(u.head_block, 20, "after {} failures", n);
    }
    u.record_probe_failure();
    assert_eq!(u.head_block, 0);
    assert_eq!(u.health(20, 3), Health::Unhealthy);
    u.record_probe_success(21);
    assert_eq!(u.health(21, 3), Health::Healthy);
}

#[test]
fn lagging_upstream_is_not_selected() {
    let mut pool = Pool::new(
        vec![
            Upstream::new("http://a".to_string(), None, None, 1, 0),
            Upstream::new("http://b".to_string(), None, None, 1, 0),
        ],
        3,
    );
    pool.record_probe_success(0, 96);
    pool.record_probe_success(1, 100);
    assert_eq!(pool.head_block(), 100);
    assert_eq!(pool.members[0].health(100, 3), Health::Lagging);
    assert_eq!(pool.next_upstream(0), Ok(1));
    pool.record_probe_success(0, 97);
    assert_eq!(pool.members[0].health(100, 3), Health::Healthy);
}

#[test]
fn selection_prefers_free_limiter_then_weight_then_order() {
    let mut pool = Pool::new(
        vec![
            Upstream::new("http://a".to_string(), None, Some(10), 1, 0),
            Upstream::new("http://b".to_string(), None, Some(10), 5, 0),
            Upstream::new("http://c".to_string(), None, Some(10), 5, 0),
        ],
        3,
    );
    for i in 0..3 {
        pool.record_probe_success(i, 1);
    }
    assert_eq!(pool.next_upstream(0), Ok(1));
    assert_eq!(pool.next_upstream(0), Ok(2));
    assert_eq!(pool.next_upstream(0), Ok(0));
    assert_eq!(pool.next_upstream(0), Ok(1));
}

#[test]
fn pool_without_healthy_member_reports_none() {
    let mut pool = Pool::new(vec![Upstream::new("http://a".to_string(), None, Some(1), 1, 0)], 3);
    for _ in 0..5 {
        pool.record_probe_failure(0);
    }
    assert_eq!(pool.next_upstream(0), Err(None));
    assert_eq!(pool.all_eligible_upstreams(0), Err(None));
    assert!(!pool.synced());
}

#[test]
fn pool_refusal_names_earliest_retry() {
    let mut pool = Pool::new(
        vec![
            Upstream::new("http://a".to_string(), None, Some(1), 1, 0),
            Upstream::new("http://b".to_string(), None, Some(4), 1, 0),
        ],
        3,
    );
    pool.record_probe_success(0, 1);
    pool.record_probe_success(1, 1);
    assert!(pool.synced());
    let taken = pool.all_eligible_upstreams(0);
    assert_eq!(taken, Ok(vec![0, 1]));
    for _ in 0..3 {
        assert_eq!(pool.next_upstream(0), Ok(1));
    }
    assert_eq!(pool.next_upstream(0), Err(Some(250)));
}

#[test]
fn frontend_errors_become_internal_errors() {
    let r = FrontendErrorResponse::Anyhow("nothing to see here".to_string()).into_response(&"null".to_string());
    assert_eq!(r.id, "null");
    match r.payload {
        Payload::Error { code, message } => {
            assert_eq!(code, -32603);
            assert_eq!(message, "nothing to see here");
        }
        _ => panic!("expected an error"),
    }
    let e = internal_error(&"3".to_string(), "boom".to_string());
    assert_eq!(e.id, "3");
}

#[test]
fn default_rpm_is_six_million() {
    assert_eq!(default_rpm(), 6_000_000);
}
