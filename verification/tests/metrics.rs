use data_plane::metrics::MetricsCollector;

#[test]
fn connection_and_session_gauges() {
    let mut m = MetricsCollector::new();
    m.record_tcp_connection();
    m.record_tcp_connection();
    m.close_tcp_connection();
    m.record_udp_session();
    m.close_udp_session();
    let s = m.get_summary();
    assert_eq!(s.tcp_connections, 2);
    assert_eq!(s.active_tcp_connections, 1);
    assert_eq!(s.udp_sessions, 1);
    assert_eq!(s.active_udp_sessions, 0);
}

#[test]
fn bandwidth_and_admission_counters() {
    let mut m = MetricsCollector::new();
    m.record_bytes_sent(100);
    m.record_bytes_sent(23);
    m.record_bytes_received(7);
    m.record_packet_sent();
    m.record_packet_received();
    m.record_packet_received();
    m.record_rate_limit_allowed();
    m.record_rate_limit_denied();
    m.record_circuit_breaker_open();
    m.record_circuit_breaker_half_open();
    let s = m.get_summary();
    assert_eq!(s.bytes_sent, 123);
    assert_eq!(s.bytes_received, 7);
    assert_eq!(s.packets_sent, 1);
    assert_eq!(s.packets_received, 2);
    assert_eq!(s.rate_limit_allowed, 1);
    assert_eq!(s.rate_limit_denied, 1);
    assert_eq!(s.circuit_breaker_open, 1);
    assert_eq!(s.circuit_breaker_half_open, 1);
}

#[test]
fn latency_stats_empty_is_all_zero() {
    let m = MetricsCollector::new();
    let stats = m.get_latency_stats();
    assert_eq!(stats.p50, 0);
    assert_eq!(stats.p90, 0);
    assert_eq!(stats.p99, 0);
    assert_eq!(stats.avg, 0);
}

#[test]
fn latency_stats_sorts_and_indexes() {
    let mut m = MetricsCollector::new();
    // pushed out of order; sorted they read 10, 20, 30, 40, 50
    for v in [30u64, 10, 50, 20, 40] {
        m.record_latency(v);
    }
    let stats = m.get_latency_stats();
    // p50 indexes len/2 = 2, p90 indexes (5*90)/100 = 4, p99 indexes 4
    assert_eq!(stats.p50, 30);
    assert_eq!(stats.p90, 50);
    assert_eq!(stats.p99, 50);
    assert_eq!(stats.avg, 30);
}

#[test]
fn latency_ring_keeps_last_thousand() {
    let mut m = MetricsCollector::new();
    for v in 0..1005u64 {
        m.record_latency(v);
    }
    assert_eq!(m.latency_samples.len(), 1000);
    // the oldest five samples were dropped from the front
    assert_eq!(m.latency_samples[0], 5);
    assert_eq!(m.latency_samples[999], 1004);
}

#[test]
fn backend_counters_accumulate_per_backend() {
    let mut m = MetricsCollector::new();
    m.record_backend_request("a");
    m.record_backend_request("a");
    m.record_backend_connection("a");
    m.record_backend_failure("b");
    m.record_backend_bytes_sent("a", 100);
    m.record_backend_bytes_received("a", 40);
    let per = m.get_backend_metrics();
    assert_eq!(per.len(), 2);
    assert_eq!(per[0].0, "a");
    assert_eq!(per[0].1.requests, 2);
    assert_eq!(per[0].1.connections, 1);
    assert_eq!(per[0].1.failures, 0);
    assert_eq!(per[0].1.bytes_sent, 100);
    assert_eq!(per[0].1.bytes_received, 40);
    assert_eq!(per[1].0, "b");
    assert_eq!(per[1].1.failures, 1);
}
