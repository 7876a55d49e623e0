use data_plane::rate_limiter::{RateLimiter, TokenBucket};

#[test]
fn test_token_bucket_basic() {
    let mut bucket = TokenBucket::new(10, 10, 0);

    // Should allow 10 requests immediately (burst)
    for _ in 0..10 {
        assert!(bucket.try_consume(1, 0));
    }

    // 11th request should fail
    assert!(!bucket.try_consume(1, 0));
}

#[test]
fn test_token_bucket_refill() {
    let mut bucket = TokenBucket::new(10, 5, 0);

    // Consume all tokens
    for _ in 0..5 {
        assert!(bucket.try_consume(1, 0));
    }

    // Wait for refill
    let now = 100;

    // Should have at least 1 token refilled
    assert!(bucket.try_consume(1, now));
}

#[test]
fn test_rate_limiter_global() {
    let mut limiter = RateLimiter::new(100, 10, 0);

    // Should allow burst
    for _ in 0..10 {
        assert!(limiter.allow_request(None, 0));
    }

    // Should reject after burst
    assert!(!limiter.allow_request(None, 0));
}

#[test]
fn test_rate_limiter_per_connection() {
    let mut limiter = RateLimiter::new(1000, 100, 0).with_per_connection_limit(5, 5);

    // Connection 1 should get 5 requests
    for _ in 0..5 {
        assert!(limiter.allow_request(Some("conn1"), 0));
    }

    // 6th request should fail
    assert!(!limiter.allow_request(Some("conn1"), 0));

    // Connection 2 should still work
    assert!(limiter.allow_request(Some("conn2"), 0));
}

#[test]
fn rate_limit_burst_recovers() {
    // 100 requests per second, burst 10
    let mut limiter = RateLimiter::new(100, 10, 0);
    for _ in 0..10 {
        assert!(limiter.allow_request(None, 0));
    }
    assert!(!limiter.allow_request(None, 0));

    // 100 ms later a token has accumulated again
    assert!(limiter.allow_request(None, 100));
}

#[test]
fn zero_capacity_bucket_never_admits() {
    let mut bucket = TokenBucket::new(10, 0, 0);
    assert!(!bucket.try_consume(1, 0));
    assert!(!bucket.try_consume(1, 1_000_000));
    assert!(!bucket.try_consume(1, u64::MAX));
}

#[test]
fn fractional_refill_accumulates() {
    // 1 token per second: after 500 ms only half a token is there
    let mut bucket = TokenBucket::new(1, 1, 0);
    assert!(bucket.try_consume(1, 0));
    assert!(!bucket.try_consume(1, 500));
    // the two half-refills add up
    assert!(bucket.try_consume(1, 1000));
}

#[test]
fn available_tokens_truncates() {
    let mut bucket = TokenBucket::new(1, 2, 0);
    assert!(bucket.try_consume(1, 0));
    // 1 token left plus 0.5 refilled: reads as 1
    assert_eq!(bucket.available_tokens(500), 1);
}

#[test]
fn global_stats_and_tracking() {
    let mut limiter = RateLimiter::new(100, 10, 0).with_per_connection_limit(5, 5);
    assert_eq!(limiter.tracked_connections(), 0);
    assert!(limiter.allow_request(Some("a"), 0));
    assert!(limiter.allow_request(Some("b"), 0));
    assert_eq!(limiter.tracked_connections(), 2);
    let (available, capacity) = limiter.get_global_stats(0);
    assert_eq!(capacity, 10);
    assert_eq!(available, 8);
}

#[test]
fn idle_buckets_evicted_after_interval() {
    let mut limiter = RateLimiter::new(1000, 100, 0).with_per_connection_limit(10, 10);
    assert!(limiter.allow_request(Some("idle"), 0));
    assert_eq!(limiter.tracked_connections(), 1);
    // 61 s later the idle client's bucket has refilled to capacity and a
    // successful admission runs the cleanup pass
    assert!(limiter.allow_request(None, 61_000));
    assert_eq!(limiter.tracked_connections(), 0);
}

#[test]
fn global_rejection_skips_client_bucket() {
    let mut limiter = RateLimiter::new(100, 2, 0).with_per_connection_limit(10, 10);
    assert!(limiter.allow_request(Some("a"), 0));
    assert!(limiter.allow_request(Some("b"), 0));
    // global bucket exhausted: a new client is rejected without a bucket
    assert!(!limiter.allow_request(Some("c"), 0));
    assert_eq!(limiter.tracked_connections(), 2);
}
