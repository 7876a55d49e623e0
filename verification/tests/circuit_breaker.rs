use data_plane::circuit_breaker::{CircuitBreaker, CircuitBreakerManager, CircuitState};

#[test]
fn test_circuit_breaker_basic() {
    let mut breaker = CircuitBreaker::new(3, 5000);

    // Initially closed
    assert_eq!(breaker.state(), CircuitState::Closed);
    assert!(breaker.allow_request(0));

    // Record failures
    breaker.record_failure(0);
    assert_eq!(breaker.state(), CircuitState::Closed);
    breaker.record_failure(0);
    assert_eq!(breaker.state(), CircuitState::Closed);
    breaker.record_failure(0);

    // Should be open after threshold
    assert_eq!(breaker.state(), CircuitState::Open);
    assert!(!breaker.allow_request(0));
}

#[test]
fn test_circuit_breaker_recovery() {
    let mut breaker = CircuitBreaker::new(2, 100);

    // Trip circuit
    breaker.record_failure(0);
    breaker.record_failure(0);
    assert_eq!(breaker.state(), CircuitState::Open);

    // Wait for timeout
    let now = 150;

    // Should transition to half-open
    assert!(breaker.allow_request(now));
    assert_eq!(breaker.state(), CircuitState::HalfOpen);

    // Record successes to close circuit
    breaker.record_success();
    breaker.record_success();
    breaker.record_success();

    assert_eq!(breaker.state(), CircuitState::Closed);
}

#[test]
fn test_circuit_breaker_manager() {
    let mut manager = CircuitBreakerManager::new(2, 5);

    // Backend should start allowing requests
    assert!(manager.allow_request("backend1", 0));

    // Record failures
    manager.record_failure("backend1", 0);
    manager.record_failure("backend1", 0);

    // Should be blocked
    assert!(!manager.allow_request("backend1", 0));

    // Different backend should still work
    assert!(manager.allow_request("backend2", 0));
}

#[test]
fn breaker_trip_and_recover() {
    // threshold 3, timeout 100 ms
    let mut breaker = CircuitBreaker::new(3, 100);
    breaker.record_failure(0);
    breaker.record_failure(0);
    breaker.record_failure(0);
    assert_eq!(breaker.state(), CircuitState::Open);

    // 150 ms later the breaker probes recovery
    assert!(breaker.allow_request(150));
    assert_eq!(breaker.state(), CircuitState::HalfOpen);

    breaker.record_success();
    breaker.record_success();
    breaker.record_success();
    assert_eq!(breaker.state(), CircuitState::Closed);
}

#[test]
fn breaker_open_rejects_before_timeout() {
    let mut breaker = CircuitBreaker::new(1, 100);
    breaker.record_failure(10);
    assert_eq!(breaker.state(), CircuitState::Open);
    assert!(!breaker.allow_request(50));
    assert_eq!(breaker.state(), CircuitState::Open);
    assert!(breaker.allow_request(110));
    assert_eq!(breaker.state(), CircuitState::HalfOpen);
}

#[test]
fn breaker_half_open_failure_reopens() {
    let mut breaker = CircuitBreaker::new(1, 100);
    breaker.record_failure(0);
    assert!(breaker.allow_request(200));
    assert_eq!(breaker.state(), CircuitState::HalfOpen);
    breaker.record_failure(210);
    assert_eq!(breaker.state(), CircuitState::Open);
    assert!(!breaker.allow_request(250));
}

#[test]
fn breaker_reset_matches_fresh() {
    let mut breaker = CircuitBreaker::new(4, 250);
    breaker.record_failure(5);
    breaker.record_failure(6);
    breaker.record_success();
    breaker.record_failure(9);
    breaker.reset();

    let fresh = CircuitBreaker::new(4, 250);
    assert_eq!(breaker.state(), fresh.state());
    assert_eq!(breaker.failure_count(), fresh.failure_count());
    assert_eq!(breaker.success_count, fresh.success_count);
    assert_eq!(breaker.last_failure_time_ms, fresh.last_failure_time_ms);
    assert_eq!(breaker.error_threshold, fresh.error_threshold);
    assert_eq!(breaker.timeout_ms, fresh.timeout_ms);
    assert_eq!(breaker.half_open_max_requests, fresh.half_open_max_requests);
}

#[test]
fn breaker_success_clears_failures_while_closed() {
    let mut breaker = CircuitBreaker::new(3, 100);
    breaker.record_failure(0);
    breaker.record_failure(1);
    assert_eq!(breaker.failure_count(), 2);
    breaker.record_success();
    assert_eq!(breaker.failure_count(), 0);
    assert_eq!(breaker.state(), CircuitState::Closed);
}

#[test]
fn manager_reset_and_states() {
    let mut manager = CircuitBreakerManager::new(1, 5);
    manager.record_failure("a", 0);
    assert_eq!(manager.get_state("a"), Some(CircuitState::Open));
    assert_eq!(manager.get_state("missing"), None);

    let states = manager.get_all_states();
    assert_eq!(states.len(), 1);
    assert_eq!(states[0].0, "a");
    assert_eq!(states[0].1, (CircuitState::Open, 1));

    manager.reset_backend("a");
    assert_eq!(manager.get_state("a"), Some(CircuitState::Closed));

    manager.record_failure("a", 0);
    manager.record_failure("b", 0);
    manager.reset_all();
    assert_eq!(manager.get_state("a"), Some(CircuitState::Closed));
    assert_eq!(manager.get_state("b"), Some(CircuitState::Closed));
}
