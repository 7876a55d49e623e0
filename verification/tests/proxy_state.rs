use data_plane::config::{Backend, ProxyConfig, ProxyState};
use data_plane::control::drain_response;

fn sample_config() -> ProxyConfig {
    ProxyConfig {
        tcp_address: "127.0.0.1:9000".to_string(),
        udp_address: "127.0.0.1:9001".to_string(),
        backends: vec![Backend { address: "10.0.0.1:80".to_string(), weight: 1, healthy: true }],
        udp_backends: vec![],
        algorithm: "round_robin".to_string(),
        session_affinity: false,
        rate_limit_rps: 500,
        rate_limit_burst: 50,
        connect_timeout_secs: 5,
        idle_timeout_secs: 60,
        read_timeout_secs: 30,
        circuit_breaker_threshold: 3,
        circuit_breaker_timeout_secs: 10,
    }
}

#[test]
fn starts_unconfigured() {
    let state = ProxyState::new(0);
    assert!(!state.is_configured());
    assert!(state.get_config().is_none());
    assert_eq!(state.active_connection_count(), 0);
    assert!(!state.is_draining());
}

#[test]
fn update_config_then_get_config_round_trips() {
    let mut state = ProxyState::new(0);
    state.update_config(sample_config(), 0);
    assert!(state.is_configured());
    let got = state.get_config().unwrap();
    let want = sample_config();
    assert_eq!(got.tcp_address, want.tcp_address);
    assert_eq!(got.udp_address, want.udp_address);
    assert_eq!(got.backends.len(), 1);
    assert_eq!(got.backends[0].address, want.backends[0].address);
    assert_eq!(got.backends[0].weight, want.backends[0].weight);
    assert_eq!(got.backends[0].healthy, want.backends[0].healthy);
    assert_eq!(got.algorithm, want.algorithm);
    assert_eq!(got.session_affinity, want.session_affinity);
    assert_eq!(got.rate_limit_rps, want.rate_limit_rps);
    assert_eq!(got.rate_limit_burst, want.rate_limit_burst);
    assert_eq!(got.connect_timeout_secs, want.connect_timeout_secs);
    assert_eq!(got.idle_timeout_secs, want.idle_timeout_secs);
    assert_eq!(got.read_timeout_secs, want.read_timeout_secs);
    assert_eq!(got.circuit_breaker_threshold, want.circuit_breaker_threshold);
    assert_eq!(got.circuit_breaker_timeout_secs, want.circuit_breaker_timeout_secs);
}

#[test]
fn update_config_resets_admission_control() {
    let mut state = ProxyState::new(0);
    // trip a breaker and burn some global tokens under the defaults
    state.circuit_breaker.record_failure("10.0.0.1:80", 0);
    assert!(state.rate_limiter.allow_request(None, 0));
    state.update_config(sample_config(), 5);
    // fresh components parameterized by the new snapshot
    assert_eq!(state.circuit_breaker.get_state("10.0.0.1:80"), None);
    assert_eq!(state.circuit_breaker.error_threshold, 3);
    assert_eq!(state.circuit_breaker.timeout_ms, 10_000);
    let (available, capacity) = state.rate_limiter.get_global_stats(5);
    assert_eq!(capacity, 50);
    assert_eq!(available, 50);
}

#[test]
fn register_unregister_restores_count() {
    let mut state = ProxyState::new(0);
    let before = state.active_connection_count();
    let a = state.register_connection();
    let b = state.register_connection();
    assert_eq!(a, 1);
    assert_eq!(b, 2);
    assert_eq!(state.active_connection_count(), before + 2);
    state.unregister_connection(a);
    assert_eq!(state.active_connection_count(), before + 1);
    state.unregister_connection(b);
    assert_eq!(state.active_connection_count(), before);
    // unknown ids are tolerated
    state.unregister_connection(42);
    assert_eq!(state.active_connection_count(), before);
}

#[test]
fn drain_flag_round_trip() {
    let mut state = ProxyState::new(0);
    assert!(!state.is_draining());
    state.begin_drain();
    assert!(state.is_draining());
    state.reset_draining();
    assert!(!state.is_draining());
}

#[test]
fn draining_idle_plane_is_noop() {
    let mut state = ProxyState::new(0);
    let before = state.active_connection_count();
    state.begin_drain();
    let after = state.active_connection_count();
    assert_eq!(before, 0);
    assert_eq!(after, 0);
    let report = drain_response(before, after);
    assert!(report.success);
    assert_eq!(report.connections_drained, 0);
}

#[test]
fn drain_with_one_connection_reports_it() {
    let mut state = ProxyState::new(0);
    let id = state.register_connection();
    let before = state.active_connection_count();
    assert_eq!(before, 1);
    state.begin_drain();
    // the client closes; the session unregisters on its way out
    state.unregister_connection(id);
    let after = state.active_connection_count();
    let report = drain_response(before, after);
    assert!(report.success);
    assert_eq!(report.connections_drained, 1);
}
