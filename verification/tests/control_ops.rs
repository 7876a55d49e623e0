use data_plane::config::{Backend, ProxyState};
use data_plane::control::{
    drain_response, reload_backends_op, resolve_config, update_config_op, CircuitBreakerInput,
    ConfigInput, ControlError, ListenInput, LoadBalancingInput, RateLimitInput, TimeoutInput,
    TrafficInput,
};

fn full_input() -> ConfigInput {
    ConfigInput {
        listen: Some(ListenInput {
            tcp_address: "127.0.0.1:9000".to_string(),
            udp_address: "127.0.0.1:9001".to_string(),
        }),
        backends: vec![
            Backend { address: "10.0.0.1:80".to_string(), weight: 2, healthy: true },
            Backend { address: "10.0.0.2:80".to_string(), weight: -3, healthy: false },
        ],
        load_balancing: Some(LoadBalancingInput {
            algorithm: "least_connections".to_string(),
            session_affinity: true,
        }),
        traffic: Some(TrafficInput {
            rate_limit: Some(RateLimitInput { requests_per_second: 200, burst: 20 }),
            timeout: Some(TimeoutInput { connect_seconds: 2, idle_seconds: 10, read_seconds: 4 }),
        }),
        circuit_breaker: Some(CircuitBreakerInput { threshold: 7, timeout_seconds: 12 }),
    }
}

#[test]
fn resolve_config_keeps_given_fields_and_clamps_weights() {
    let cfg = resolve_config(full_input());
    assert_eq!(cfg.tcp_address, "127.0.0.1:9000");
    assert_eq!(cfg.udp_address, "127.0.0.1:9001");
    assert_eq!(cfg.backends.len(), 2);
    assert_eq!(cfg.backends[0].weight, 2);
    // negative weights on the wire are read as zero
    assert_eq!(cfg.backends[1].weight, 0);
    assert_eq!(cfg.algorithm, "least_connections");
    assert!(cfg.session_affinity);
    assert_eq!(cfg.rate_limit_rps, 200);
    assert_eq!(cfg.rate_limit_burst, 20);
    assert_eq!(cfg.connect_timeout_secs, 2);
    assert_eq!(cfg.idle_timeout_secs, 10);
    assert_eq!(cfg.read_timeout_secs, 4);
    assert_eq!(cfg.circuit_breaker_threshold, 7);
    assert_eq!(cfg.circuit_breaker_timeout_secs, 12);
}

#[test]
fn resolve_config_fills_defaults_for_missing_groups() {
    let cfg = resolve_config(ConfigInput {
        listen: None,
        backends: vec![],
        load_balancing: None,
        traffic: None,
        circuit_breaker: None,
    });
    assert_eq!(cfg.tcp_address, "");
    assert_eq!(cfg.udp_address, "");
    assert_eq!(cfg.backends.len(), 0);
    assert_eq!(cfg.algorithm, "round_robin");
    assert!(!cfg.session_affinity);
    assert_eq!(cfg.rate_limit_rps, 1000);
    assert_eq!(cfg.rate_limit_burst, 100);
    assert_eq!(cfg.connect_timeout_secs, 5);
    assert_eq!(cfg.idle_timeout_secs, 60);
    assert_eq!(cfg.read_timeout_secs, 30);
    assert_eq!(cfg.circuit_breaker_threshold, 5);
    assert_eq!(cfg.circuit_breaker_timeout_secs, 30);
}

#[test]
fn update_config_op_acknowledges() {
    let mut state = ProxyState::new(0);
    let ack = update_config_op(&mut state, full_input(), 0);
    assert!(ack.success);
    assert_eq!(ack.message, "Configuration updated successfully");
    assert!(state.is_configured());
    let cfg = state.get_config().unwrap();
    assert_eq!(cfg.tcp_address, "127.0.0.1:9000");
}

#[test]
fn reload_backends_requires_configuration() {
    let mut state = ProxyState::new(0);
    let result = reload_backends_op(
        &mut state,
        vec![Backend { address: "10.1.1.1:80".to_string(), weight: 1, healthy: true }],
        0,
    );
    match result {
        Err(e) => assert_eq!(e, ControlError::NotConfigured),
        Ok(_) => panic!("reload without a configuration must fail"),
    }
}

#[test]
fn reload_backends_replaces_only_backends() {
    let mut state = ProxyState::new(0);
    update_config_op(&mut state, full_input(), 0);
    let ack = reload_backends_op(
        &mut state,
        vec![
            Backend { address: "10.1.1.1:80".to_string(), weight: 1, healthy: true },
            Backend { address: "10.1.1.2:80".to_string(), weight: 1, healthy: true },
            Backend { address: "10.1.1.3:80".to_string(), weight: 1, healthy: false },
        ],
        5,
    )
    .unwrap();
    assert!(ack.success);
    assert_eq!(ack.message, "Backends reloaded successfully");
    assert_eq!(ack.backends_loaded, 3);
    let cfg = state.get_config().unwrap();
    assert_eq!(cfg.backends.len(), 3);
    assert_eq!(cfg.backends[0].address, "10.1.1.1:80");
    // the rest of the snapshot is kept
    assert_eq!(cfg.tcp_address, "127.0.0.1:9000");
    assert_eq!(cfg.algorithm, "least_connections");
    assert_eq!(cfg.circuit_breaker_threshold, 7);
}

#[test]
fn drain_response_reports_difference() {
    let all_done = drain_response(3, 0);
    assert!(all_done.success);
    assert_eq!(all_done.connections_drained, 3);

    let leftover = drain_response(3, 2);
    assert!(!leftover.success);
    assert_eq!(leftover.connections_drained, 1);

    let idle = drain_response(0, 0);
    assert!(idle.success);
    assert_eq!(idle.connections_drained, 0);
}
