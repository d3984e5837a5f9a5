use bocik::clock::millis_rounded_up;
use bocik::execution::rpc_manager::{
    available_endpoints, available_endpoints_after, first_healthy_endpoint,
    first_healthy_endpoint_after, BreakerState, CircuitBreaker, EndpointHealth, RequestCounts, RpcError,
    DEFAULT_COOLDOWN_MS,
};

#[test]
fn breaker_starts_closed_and_never_blocks() {
    let mut b = CircuitBreaker::default();
    assert!(!b.is_open());
    assert!(!b.is_open_after(0));
    assert!(!b.is_open_after(u128::MAX));
}

#[test]
fn breaker_trips_at_fifth_consecutive_failure() {
    let mut b = CircuitBreaker::default();
    for _ in 0..4 {
        b.record_failure();
        assert!(!b.is_open());
    }
    b.record_failure();
    assert!(b.is_open());
    assert!(b.is_open_after(0));
    assert!(b.is_open_after(DEFAULT_COOLDOWN_MS as u128));
    assert!(!b.is_open_after(DEFAULT_COOLDOWN_MS as u128 + 1));
}

#[test]
fn breaker_success_resets_streak() {
    let mut b = CircuitBreaker::default();
    for _ in 0..4 {
        b.record_failure();
    }
    b.record_success();
    for _ in 0..4 {
        b.record_failure();
    }
    assert!(!b.is_open());
}

#[test]
fn breaker_success_closes_open_breaker() {
    let mut b = CircuitBreaker::default();
    for _ in 0..7 {
        b.record_failure();
    }
    assert!(b.is_open());
    b.record_success();
    assert!(!b.is_open());
    assert!(!b.is_open_after(0));
}

#[test]
fn request_counts_track_successes() {
    let mut c = RequestCounts::new();
    c.record(true);
    c.record(false);
    c.record(true);
    assert_eq!(c.total_requests, 3);
    assert_eq!(c.successes, 2);
}

#[test]
fn health_check_feeds_counts_and_breaker() {
    let mut h = EndpointHealth::new();
    for _ in 0..5 {
        h.record_health_check(false);
    }
    assert_eq!(h.counts.total_requests, 5);
    assert_eq!(h.counts.successes, 0);
    assert!(h.breaker.is_open());
    h.record_health_check(true);
    assert_eq!(h.counts.successes, 1);
    assert!(!h.breaker.is_open());
}

#[test]
fn available_endpoints_skips_tripped_ones() {
    let mut endpoints = vec![EndpointHealth::new(), EndpointHealth::new(), EndpointHealth::new()];
    for _ in 0..5 {
        endpoints[1].record_health_check(false);
    }
    assert_eq!(available_endpoints(&mut endpoints), Ok(vec![0, 2]));
}

#[test]
fn available_endpoints_fails_when_all_tripped() {
    let mut endpoints = vec![EndpointHealth::new(), EndpointHealth::new()];
    for e in endpoints.iter_mut() {
        for _ in 0..5 {
            e.record_health_check(false);
        }
    }
    assert_eq!(available_endpoints(&mut endpoints), Err(RpcError::NoEndpointsAvailable));
}

#[test]
fn available_endpoints_fails_on_empty_list() {
    let mut endpoints: Vec<EndpointHealth> = Vec::new();
    assert_eq!(available_endpoints(&mut endpoints), Err(RpcError::NoEndpointsAvailable));
}

#[test]
fn breaker_state_values_differ() {
    assert_ne!(BreakerState::Open, BreakerState::Closed);
}

#[test]
fn failed_probe_restarts_the_cooldown() {
    let long_ago = std::time::Instant::now().checked_sub(std::time::Duration::from_secs(120));
    let Some(long_ago) = long_ago else { return };
    let mut b = CircuitBreaker::default();
    for _ in 0..5 {
        b.record_failure_at(long_ago);
    }
    assert_eq!(b.state(), BreakerState::Open);
    // The cooldown has passed: a probe is let through.
    assert!(!b.is_open());
    // The probe fails: the breaker blocks again for a whole cooldown.
    b.record_failure();
    assert_eq!(b.state(), BreakerState::Open);
    assert_eq!(b.consecutive_failures(), 6);
    assert!(b.is_open());
    // A successful probe closes it.
    b.record_success();
    assert!(!b.is_open());
}

#[test]
fn selection_follows_the_readings() {
    let mut endpoints = vec![EndpointHealth::new(), EndpointHealth::new(), EndpointHealth::new()];
    for _ in 0..5 {
        endpoints[1].record_health_check(false);
        endpoints[2].record_health_check(false);
    }
    let cooldown = DEFAULT_COOLDOWN_MS as u128;
    assert_eq!(available_endpoints_after(&endpoints, &vec![0, 0, 0]), Ok(vec![0]));
    assert_eq!(available_endpoints_after(&endpoints, &vec![0, cooldown, cooldown + 1]), Ok(vec![0, 2]));
    assert_eq!(available_endpoints_after(&endpoints, &vec![0, cooldown + 1, cooldown + 1]), Ok(vec![0, 1, 2]));
    endpoints.remove(0);
    assert_eq!(
        available_endpoints_after(&endpoints, &vec![cooldown, 5]),
        Err(RpcError::NoEndpointsAvailable)
    );
    assert_eq!(available_endpoints_after(&endpoints, &vec![cooldown + 1, 5]), Ok(vec![0]));
}

#[test]
fn health_needs_more_than_eighty_percent_success() {
    let mut c = RequestCounts::new();
    assert!(c.is_healthy());
    for _ in 0..4 {
        c.record(true);
    }
    c.record(false);
    // Exactly 80%: not healthy.
    assert!(!c.is_healthy());
    c.record(true);
    assert!(c.is_healthy());
}

#[test]
fn clock_readings_round_up_to_whole_milliseconds() {
    assert_eq!(millis_rounded_up(0), 0);
    assert_eq!(millis_rounded_up(1), 1);
    assert_eq!(millis_rounded_up(1_000_000), 1);
    assert_eq!(millis_rounded_up(1_000_001), 2);
    // Exactly the 30 s limit is not past it; a nanosecond more is.
    assert!(!(millis_rounded_up(30_000_000_000) > DEFAULT_COOLDOWN_MS as u128));
    assert!(millis_rounded_up(30_000_000_001) > DEFAULT_COOLDOWN_MS as u128);
}

#[test]
fn first_healthy_endpoint_needs_a_passing_breaker_and_good_counts() {
    let mut endpoints = vec![EndpointHealth::new(), EndpointHealth::new(), EndpointHealth::new()];
    // Endpoint 0 is tripped; endpoint 1 succeeds only half the time.
    for _ in 0..5 {
        endpoints[0].record_health_check(false);
    }
    endpoints[1].record_health_check(true);
    endpoints[1].record_health_check(false);
    let cooldown = DEFAULT_COOLDOWN_MS as u128;
    assert_eq!(first_healthy_endpoint_after(&endpoints, &vec![0, 0, 0]), Some(2));
    // Past its cooldown, endpoint 0 lets a probe through, but its counts are poor.
    assert_eq!(first_healthy_endpoint_after(&endpoints, &vec![cooldown + 1, 0, 0]), Some(2));
    endpoints[2].record_health_check(false);
    assert_eq!(first_healthy_endpoint_after(&endpoints, &vec![0, 0, 0]), None);
    assert_eq!(first_healthy_endpoint(&mut endpoints), None);
    let mut fresh = vec![EndpointHealth::new()];
    assert_eq!(first_healthy_endpoint(&mut fresh), Some(0));
}
