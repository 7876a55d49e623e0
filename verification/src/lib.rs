//! Core of an L4 (TCP and UDP) reverse-proxy data plane.
//!
//! The crate holds the decision-making parts of the proxy: admission control
//! (token-bucket rate limiting and per-backend circuit breaking), backend
//! selection, connection registry and drain handling, the UDP NAT session
//! table, metrics bookkeeping, and the control operations a controller may
//! invoke. Sockets, clocks and task scheduling live outside; every function
//! here works on plain values, and callers supply monotonic-clock readings in
//! milliseconds where an operation depends on time.

pub mod circuit_breaker;
pub mod config;
pub mod control;
pub mod keyed;
pub mod load_balancer;
pub mod metrics;
pub mod rate_limiter;
pub mod tcp_proxy;
pub mod udp_proxy;
