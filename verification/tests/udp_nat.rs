use data_plane::config::{Backend, ProxyConfig, ProxyState};
use data_plane::load_balancer::LoadBalancer;
use data_plane::udp_proxy::{udp_enabled, UdpNat, UdpStep, SESSION_TIMEOUT_MS};

fn one_backend_lb(address: &str) -> LoadBalancer {
    LoadBalancer::new(
        vec![Backend { address: address.to_string(), weight: 1, healthy: true }],
        "round_robin".to_string(),
    )
}

#[test]
fn udp_nat_round_trip_and_expiry() {
    let mut nat = UdpNat::new();
    let mut lb = one_backend_lb("10.0.0.1:7000");
    let client = "1.2.3.4:5555";

    // client C sends datagram D1: the engine asks for the backend address
    let step = nat.handle_datagram(client, "1.2.3.4", 3, 0, &mut lb);
    let backend_addr = match step {
        UdpStep::ResolveBackend { backend_addr } => backend_addr,
        _ => panic!("expected a backend resolution"),
    };
    assert_eq!(backend_addr, "10.0.0.1:7000");

    // the embedding resolves it and the session is created; D1 goes to B
    let send_to = nat.create_session(client, backend_addr, "10.0.0.1:7000".to_string(), 3, 0);
    assert_eq!(send_to, "10.0.0.1:7000");
    assert_eq!(nat.sessions.len(), 1);
    assert_eq!(nat.reverse_sessions.len(), 1);

    // B answers with D2 from its socket: forwarded back to C
    let step = nat.handle_datagram("10.0.0.1:7000", "10.0.0.1", 5, 10, &mut lb);
    match step {
        UdpStep::ForwardToClient { client_addr } => assert_eq!(client_addr, client),
        _ => panic!("expected a forward to the client"),
    }

    // both mappings exist while the session lives
    assert_eq!(nat.sessions[0].0, client);
    assert_eq!(nat.sessions[0].1.bytes_sent, 3);
    assert_eq!(nat.sessions[0].1.packets_sent, 1);
    assert_eq!(nat.sessions[0].1.bytes_received, 5);
    assert_eq!(nat.sessions[0].1.packets_received, 1);
    assert_eq!(nat.reverse_sessions[0].0, "10.0.0.1:7000");
    assert_eq!(nat.reverse_sessions[0].1, client);

    // after 60 s of silence both mappings are gone
    let removed = nat.remove_expired(SESSION_TIMEOUT_MS, 10 + SESSION_TIMEOUT_MS + 1);
    assert_eq!(removed.len(), 1);
    assert_eq!(removed[0].0, client);
    assert_eq!(nat.sessions.len(), 0);
    assert_eq!(nat.reverse_sessions.len(), 0);
}

#[test]
fn known_client_forwards_without_reselection() {
    let mut nat = UdpNat::new();
    let mut lb = one_backend_lb("10.0.0.2:7000");
    let step = nat.handle_datagram("9.9.9.9:1000", "9.9.9.9", 10, 0, &mut lb);
    let backend_addr = match step {
        UdpStep::ResolveBackend { backend_addr } => backend_addr,
        _ => panic!("expected a backend resolution"),
    };
    nat.create_session("9.9.9.9:1000", backend_addr, "10.0.0.2:7000".to_string(), 10, 0);

    // the second datagram from the same client goes straight through
    let step = nat.handle_datagram("9.9.9.9:1000", "9.9.9.9", 4, 100, &mut lb);
    match step {
        UdpStep::ForwardToBackend { backend_socket_addr } => {
            assert_eq!(backend_socket_addr, "10.0.0.2:7000")
        },
        _ => panic!("expected a forward to the backend"),
    }
    assert_eq!(nat.sessions[0].1.bytes_sent, 14);
    assert_eq!(nat.sessions[0].1.packets_sent, 2);
    assert_eq!(nat.sessions[0].1.last_activity_ms, 100);
}

#[test]
fn no_healthy_backend_drops_datagram() {
    let mut nat = UdpNat::new();
    let mut lb = LoadBalancer::new(
        vec![Backend { address: "10.0.0.3:7000".to_string(), weight: 1, healthy: false }],
        "round_robin".to_string(),
    );
    let step = nat.handle_datagram("8.8.8.8:53", "8.8.8.8", 1, 0, &mut lb);
    assert!(matches!(step, UdpStep::DropNoBackend));
    assert_eq!(nat.sessions.len(), 0);
    assert_eq!(nat.reverse_sessions.len(), 0);
}

#[test]
fn activity_refreshes_expiry() {
    let mut nat = UdpNat::new();
    let mut lb = one_backend_lb("10.0.0.4:7000");
    let step = nat.handle_datagram("7.7.7.7:1", "7.7.7.7", 1, 0, &mut lb);
    let backend_addr = match step {
        UdpStep::ResolveBackend { backend_addr } => backend_addr,
        _ => panic!("expected a backend resolution"),
    };
    nat.create_session("7.7.7.7:1", backend_addr, "10.0.0.4:7000".to_string(), 1, 0);

    // traffic at 50 s keeps the session alive past the original deadline
    nat.handle_datagram("7.7.7.7:1", "7.7.7.7", 1, 50_000, &mut lb);
    let removed = nat.remove_expired(SESSION_TIMEOUT_MS, 100_000);
    assert_eq!(removed.len(), 0);
    assert_eq!(nat.sessions.len(), 1);

    // a full timeout after the last packet it expires
    let removed = nat.remove_expired(SESSION_TIMEOUT_MS, 110_001);
    assert_eq!(removed.len(), 1);
    assert_eq!(nat.sessions.len(), 0);
}

#[test]
fn udp_disabled_by_empty_address() {
    let disabled = ProxyConfig {
        tcp_address: "127.0.0.1:9000".to_string(),
        udp_address: String::new(),
        backends: vec![],
        udp_backends: vec![],
        algorithm: "round_robin".to_string(),
        session_affinity: false,
        rate_limit_rps: 1000,
        rate_limit_burst: 100,
        connect_timeout_secs: 5,
        idle_timeout_secs: 60,
        read_timeout_secs: 30,
        circuit_breaker_threshold: 5,
        circuit_breaker_timeout_secs: 30,
    };
    assert!(!udp_enabled(&disabled));
    let enabled = ProxyConfig { udp_address: "127.0.0.1:9001".to_string(), ..disabled };
    assert!(udp_enabled(&enabled));
    // an unconfigured state is another reason the engine does not start
    let state = ProxyState::new(0);
    assert!(state.get_config().is_none());
}
