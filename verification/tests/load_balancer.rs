use data_plane::config::Backend;
use data_plane::load_balancer::{Algorithm, LoadBalancer};

fn backend(address: &str, weight: i32, healthy: bool) -> Backend {
    Backend { address: address.to_string(), weight, healthy }
}

#[test]
fn algorithm_tags_resolve() {
    assert_eq!(Algorithm::from_str("least_connections"), Algorithm::LeastConnections);
    assert_eq!(Algorithm::from_str("weighted_round_robin"), Algorithm::WeightedRoundRobin);
    assert_eq!(Algorithm::from_str("weighted"), Algorithm::WeightedRoundRobin);
    assert_eq!(Algorithm::from_str("consistent_hash"), Algorithm::ConsistentHash);
    assert_eq!(Algorithm::from_str("round_robin"), Algorithm::RoundRobin);
    assert_eq!(Algorithm::from_str("anything else"), Algorithm::RoundRobin);
}

#[test]
fn round_robin_over_three_healthy() {
    let backends = vec![
        backend("x", 1, true),
        backend("y", 1, true),
        backend("z", 1, true),
    ];
    let mut lb = LoadBalancer::new(backends, "round_robin".to_string());
    let picked: Vec<String> = (0..6)
        .map(|_| lb.select_backend().unwrap().address)
        .collect();
    assert_eq!(picked, vec!["x", "y", "z", "x", "y", "z"]);
}

#[test]
fn empty_healthy_set_selects_none() {
    for algorithm in ["round_robin", "least_connections", "weighted_round_robin", "consistent_hash"] {
        let backends = vec![backend("a", 1, false), backend("b", 2, false)];
        let mut lb = LoadBalancer::new(backends, algorithm.to_string());
        assert!(lb.select_backend().is_none());
        assert!(lb.select_backend_with_context(Some("1.2.3.4")).is_none());
    }
}

#[test]
fn unhealthy_backends_are_skipped() {
    let backends = vec![
        backend("down", 1, false),
        backend("up1", 1, true),
        backend("up2", 1, true),
    ];
    let mut lb = LoadBalancer::new(backends, "round_robin".to_string());
    let picked: Vec<String> = (0..4)
        .map(|_| lb.select_backend().unwrap().address)
        .collect();
    assert_eq!(picked, vec!["up1", "up2", "up1", "up2"]);
}

#[test]
fn least_connections_picks_minimum_with_stable_ties() {
    let backends = vec![
        backend("a", 1, true),
        backend("b", 1, true),
        backend("c", 1, true),
    ];
    let mut lb = LoadBalancer::new(backends, "least_connections".to_string());
    // tie: the first backend wins
    assert_eq!(lb.select_backend().unwrap().address, "a");
    lb.increment_connections("a");
    assert_eq!(lb.select_backend().unwrap().address, "b");
    lb.increment_connections("b");
    lb.increment_connections("b");
    lb.increment_connections("c");
    assert_eq!(lb.select_backend().unwrap().address, "a");
    lb.decrement_connections("b");
    lb.decrement_connections("b");
    assert_eq!(lb.select_backend().unwrap().address, "b");
}

#[test]
fn weighted_round_robin_follows_weights() {
    let backends = vec![backend("a", 2, true), backend("b", 1, true)];
    let mut lb = LoadBalancer::new(backends, "weighted_round_robin".to_string());
    let picked: Vec<String> = (0..6)
        .map(|_| lb.select_backend().unwrap().address)
        .collect();
    // counter mod 3 walks the cumulative weights [2, 3)
    assert_eq!(picked, vec!["a", "a", "b", "a", "a", "b"]);
}

#[test]
fn weight_sum_zero_falls_back_to_round_robin() {
    let backends = vec![backend("a", 0, true), backend("b", 0, true)];
    let mut lb = LoadBalancer::new(backends, "weighted_round_robin".to_string());
    let picked: Vec<String> = (0..4)
        .map(|_| lb.select_backend().unwrap().address)
        .collect();
    assert_eq!(picked, vec!["a", "b", "a", "b"]);
}

#[test]
fn consistent_hash_is_stable_for_a_context() {
    let backends = vec![
        backend("a", 1, true),
        backend("b", 1, true),
        backend("c", 1, true),
    ];
    let mut lb = LoadBalancer::new(backends, "consistent_hash".to_string());
    let first = lb.select_backend_with_context(Some("10.1.2.3")).unwrap().address;
    for _ in 0..5 {
        let again = lb.select_backend_with_context(Some("10.1.2.3")).unwrap().address;
        assert_eq!(again, first);
    }
    // a different context may differ, but stays stable too
    let other = lb.select_backend_with_context(Some("10.9.9.9")).unwrap().address;
    let other_again = lb.select_backend_with_context(Some("10.9.9.9")).unwrap().address;
    assert_eq!(other, other_again);
}

#[test]
fn consistent_hash_without_context_round_robins() {
    let backends = vec![backend("a", 1, true), backend("b", 1, true)];
    let mut lb = LoadBalancer::new(backends, "consistent_hash".to_string());
    let picked: Vec<String> = (0..4)
        .map(|_| lb.select_backend().unwrap().address)
        .collect();
    assert_eq!(picked, vec!["a", "b", "a", "b"]);
}

#[test]
fn update_backends_replaces_and_zeroes_counters() {
    let mut lb = LoadBalancer::new(vec![backend("old", 1, true)], "round_robin".to_string());
    lb.increment_connections("old");
    lb.update_backends(vec![backend("new1", 1, true), backend("new2", 1, true)]);
    let stats = lb.get_backend_stats();
    assert_eq!(stats.len(), 2);
    assert_eq!(stats[0], ("new1".to_string(), 0));
    assert_eq!(stats[1], ("new2".to_string(), 0));
}

#[test]
fn connection_counters_track_and_tolerate_unknown() {
    let mut lb = LoadBalancer::new(
        vec![backend("a", 1, true), backend("b", 1, true)],
        "round_robin".to_string(),
    );
    lb.increment_connections("a");
    lb.increment_connections("a");
    lb.increment_connections("b");
    lb.decrement_connections("b");
    lb.increment_connections("not-there");
    lb.decrement_connections("neither");
    let stats = lb.get_backend_stats();
    assert_eq!(stats[0], ("a".to_string(), 2));
    assert_eq!(stats[1], ("b".to_string(), 0));
}
