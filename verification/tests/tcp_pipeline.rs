use data_plane::circuit_breaker::CircuitState;
use data_plane::config::{Backend, ProxyState};
use data_plane::load_balancer::LoadBalancer;
use data_plane::tcp_proxy::{admit_connection, finish_session, record_connect_outcome, TcpAdmission};

fn healthy_lb(address: &str) -> LoadBalancer {
    LoadBalancer::new(
        vec![Backend { address: address.to_string(), weight: 1, healthy: true }],
        "round_robin".to_string(),
    )
}

#[test]
fn admitted_session_restores_counts_when_finished() {
    let mut state = ProxyState::new(0);
    let mut lb = healthy_lb("10.0.0.1:80");
    let before = state.active_connection_count();

    let admission = admit_connection(&mut state, &mut lb, "1.2.3.4:5555", "1.2.3.4", 0);
    let (conn_id, backend) = match admission {
        TcpAdmission::Admitted { conn_id, backend } => (conn_id, backend),
        _ => panic!("expected admission"),
    };
    assert_eq!(backend.address, "10.0.0.1:80");
    assert_eq!(state.active_connection_count(), before + 1);
    assert_eq!(state.metrics.tcp_connections, 1);
    assert_eq!(state.metrics.active_tcp_connections, 1);
    assert_eq!(lb.get_backend_stats()[0].1, 1);

    record_connect_outcome(&mut state, "10.0.0.1:80", true, 12, 5);
    assert_eq!(
        state.circuit_breaker.get_state("10.0.0.1:80"),
        Some(CircuitState::Closed)
    );

    finish_session(&mut state, &mut lb, conn_id, "10.0.0.1:80", 100, 40, false, 10);
    // the session's end restores the pre-session counts
    assert_eq!(state.active_connection_count(), before);
    assert_eq!(state.metrics.active_tcp_connections, 0);
    assert_eq!(lb.get_backend_stats()[0].1, 0);
    assert_eq!(state.metrics.bytes_sent, 100);
    assert_eq!(state.metrics.bytes_received, 40);
}

#[test]
fn rate_limited_client_is_rejected() {
    let mut state = ProxyState::new(0);
    let mut lb = healthy_lb("10.0.0.1:80");
    // the default global burst is 100: the 101st connection in the same
    // instant is rejected, leaving no registration behind
    for _ in 0..100 {
        let admission = admit_connection(&mut state, &mut lb, "1.2.3.4:5555", "1.2.3.4", 0);
        let (conn_id, _) = match admission {
            TcpAdmission::Admitted { conn_id, backend } => (conn_id, backend),
            _ => panic!("expected admission"),
        };
        finish_session(&mut state, &mut lb, conn_id, "10.0.0.1:80", 0, 0, false, 0);
    }
    let admission = admit_connection(&mut state, &mut lb, "1.2.3.4:5555", "1.2.3.4", 0);
    assert!(matches!(admission, TcpAdmission::RateLimited));
    assert_eq!(state.active_connection_count(), 0);
    assert_eq!(state.metrics.rate_limit_denied, 1);
    assert_eq!(state.metrics.rate_limit_allowed, 100);
}

#[test]
fn no_healthy_backend_rejects_and_unwinds() {
    let mut state = ProxyState::new(0);
    let mut lb = LoadBalancer::new(
        vec![Backend { address: "10.0.0.1:80".to_string(), weight: 1, healthy: false }],
        "round_robin".to_string(),
    );
    let admission = admit_connection(&mut state, &mut lb, "1.2.3.4:5555", "1.2.3.4", 0);
    assert!(matches!(admission, TcpAdmission::NoHealthyBackend));
    assert_eq!(state.active_connection_count(), 0);
    assert_eq!(state.metrics.active_tcp_connections, 0);
    assert_eq!(state.metrics.tcp_connections, 1);
}

#[test]
fn open_breaker_rejects_connection() {
    let mut state = ProxyState::new(0);
    let mut lb = healthy_lb("10.0.0.1:80");
    // the default breaker threshold is 5
    for _ in 0..5 {
        state.circuit_breaker.record_failure("10.0.0.1:80", 0);
    }
    assert_eq!(
        state.circuit_breaker.get_state("10.0.0.1:80"),
        Some(CircuitState::Open)
    );
    let admission = admit_connection(&mut state, &mut lb, "1.2.3.4:5555", "1.2.3.4", 0);
    match admission {
        TcpAdmission::CircuitOpen { backend } => assert_eq!(backend.address, "10.0.0.1:80"),
        _ => panic!("expected a circuit-open rejection"),
    }
    assert_eq!(state.active_connection_count(), 0);
    assert_eq!(state.metrics.circuit_breaker_open, 1);
}

#[test]
fn failed_connect_feeds_the_breaker() {
    let mut state = ProxyState::new(0);
    let mut lb = healthy_lb("10.0.0.9:80");
    let admission = admit_connection(&mut state, &mut lb, "1.2.3.4:5555", "1.2.3.4", 0);
    let (conn_id, _) = match admission {
        TcpAdmission::Admitted { conn_id, backend } => (conn_id, backend),
        _ => panic!("expected admission"),
    };
    record_connect_outcome(&mut state, "10.0.0.9:80", false, 0, 1);
    assert_eq!(state.circuit_breaker.get_state("10.0.0.9:80"), Some(CircuitState::Closed));
    assert_eq!(state.metrics.get_backend_metrics()[0].1.failures, 1);
    // the embedding still unwinds the session on the failure path
    finish_session(&mut state, &mut lb, conn_id, "10.0.0.9:80", 0, 0, true, 1);
    assert_eq!(state.active_connection_count(), 0);
    assert_eq!(state.metrics.get_backend_metrics()[0].1.failures, 2);
}
