//! TCP proxy engine decisions: per-connection admission (rate limit,
//! registration, backend selection, circuit breaking) and the bookkeeping
//! for connect results and session completion.
//!
//! The embedding owns the sockets: it accepts, connects and copies bytes,
//! and calls in here at each decision point. The accept loop stops
//! accepting when `ProxyState::is_draining` reports the drain flag.

use vstd::prelude::*;

use crate::config::{id_scan, Backend, ProxyState};
use crate::load_balancer::{first_addr_index, wrap_dec, wrap_inc, BackendWithStats, LoadBalancer};
use crate::metrics::{wrap_add, wrap_sub, BackendMetrics, MetricsCollector};

verus! {

/// The outcome of admitting one accepted TCP connection.
pub enum TcpAdmission {
    /// The rate limiter refused the client; the connection is closed.
    RateLimited,
    /// No healthy backend was available; the connection is closed.
    NoHealthyBackend,
    /// The chosen backend's circuit breaker is open; the connection is
    /// closed and the failure counted against the backend.
    CircuitOpen { backend: Backend },
    /// Admitted: connect to `backend` and relay, then report the outcome
    /// through `record_connect_outcome` and `finish_session`.
    Admitted { conn_id: u64, backend: Backend },
}

/// Run the admission pipeline for a connection accepted from
/// `client_addr` (whose host part is `client_ip`, the consistent-hashing
/// context): rate-limit check first, then registration, backend selection,
/// and the backend's circuit breaker. On every rejection path the
/// bookkeeping is unwound: the registration is dropped and the live-TCP
/// gauge restored.
pub fn admit_connection(
    state: &mut ProxyState,
    lb: &mut LoadBalancer,
    client_addr: &str,
    client_ip: &str,
    now_ms: u64,
) -> (r: TcpAdmission)
    requires
        old(state).wf(),
        old(state).seen_up_to(now_ms),
        old(lb).wf(),
        old(state).connection_counter < 0xFFFF_FFFF_FFFF_FFFFu64,
    ensures
        final(state).wf(),
        final(state).seen_up_to(now_ms),
        final(lb).wf(),
        final(state).config == old(state).config,
        final(state).draining == old(state).draining,
        ({
            let rl_ok = old(state).rate_limiter.spec_allow_decision(
                Some(client_addr@),
                now_ms,
            );
            let (lb1, sel) = old(lb).spec_select(Some(client_ip@));
            match r {
                TcpAdmission::RateLimited => {
                    &&& !rl_ok
                    &&& *final(lb) == *old(lb)
                    &&& final(state).metrics == (MetricsCollector {
                        rate_limit_denied: wrap_add(old(state).metrics.rate_limit_denied, 1),
                        ..old(state).metrics
                    })
                    &&& final(state).active_connections == old(state).active_connections
                    &&& final(state).connection_counter == old(state).connection_counter
                    &&& final(state).circuit_breaker == old(state).circuit_breaker
                },
                TcpAdmission::NoHealthyBackend => {
                    &&& rl_ok
                    &&& sel is None
                    &&& *final(lb) == lb1
                    &&& final(state).metrics == (MetricsCollector {
                        rate_limit_allowed: wrap_add(old(state).metrics.rate_limit_allowed, 1),
                        tcp_connections: wrap_add(old(state).metrics.tcp_connections, 1),
                        ..old(state).metrics
                    })
                    &&& final(state).active_connections@ == old(state).active_connections@
                    &&& final(state).connection_counter == old(state).connection_counter + 1
                    &&& final(state).circuit_breaker == old(state).circuit_breaker
                },
                TcpAdmission::CircuitOpen { backend } => {
                    &&& rl_ok
                    &&& sel == Some(backend)
                    &&& !old(state).circuit_breaker.breaker_or_fresh(
                        backend.address@,
                    ).spec_allow_request(now_ms).1
                    &&& *final(lb) == lb1
                    &&& final(state).circuit_breaker.spec_get(backend.address@) == Some(
                        old(state).circuit_breaker.breaker_or_fresh(
                            backend.address@,
                        ).spec_allow_request(now_ms).0,
                    )
                    &&& final(state).metrics == (MetricsCollector {
                        rate_limit_allowed: wrap_add(old(state).metrics.rate_limit_allowed, 1),
                        tcp_connections: wrap_add(old(state).metrics.tcp_connections, 1),
                        circuit_breaker_open: wrap_add(
                            old(state).metrics.circuit_breaker_open,
                            1,
                        ),
                        backend_metrics: final(state).metrics.backend_metrics,
                        ..old(state).metrics
                    })
                    &&& final(state).metrics.spec_backend(backend.address@) == Some(
                        (BackendMetrics {
                            failures: wrap_add(
                                old(state).metrics.backend_or_zero(backend.address@).failures,
                                1,
                            ),
                            ..old(state).metrics.backend_or_zero(backend.address@)
                        }),
                    )
                    &&& final(state).active_connections@ == old(state).active_connections@
                    &&& final(state).connection_counter == old(state).connection_counter + 1
                },
                TcpAdmission::Admitted { conn_id, backend } => {
                    &&& rl_ok
                    &&& sel == Some(backend)
                    &&& old(state).circuit_breaker.breaker_or_fresh(
                        backend.address@,
                    ).spec_allow_request(now_ms).1
                    &&& conn_id == old(state).connection_counter + 1
                    &&& final(state).connection_counter == conn_id
                    &&& final(state).active_connections@ == old(
                        state,
                    ).active_connections@.push(conn_id)
                    &&& final(state).circuit_breaker.spec_get(backend.address@) == Some(
                        old(state).circuit_breaker.breaker_or_fresh(
                            backend.address@,
                        ).spec_allow_request(now_ms).0,
                    )
                    &&& final(state).metrics == (MetricsCollector {
                        rate_limit_allowed: wrap_add(old(state).metrics.rate_limit_allowed, 1),
                        tcp_connections: wrap_add(old(state).metrics.tcp_connections, 1),
                        active_tcp_connections: wrap_add(
                            old(state).metrics.active_tcp_connections,
                            1,
                        ),
                        backend_metrics: final(state).metrics.backend_metrics,
                        ..old(state).metrics
                    })
                    &&& final(state).metrics.spec_backend(backend.address@) == Some(
                        (BackendMetrics {
                            connections: wrap_add(
                                old(state).metrics.backend_or_zero(backend.address@).connections,
                                1,
                            ),
                            ..old(state).metrics.backend_or_zero(backend.address@)
                        }),
                    )
                    &&& final(lb).algorithm == lb1.algorithm
                    &&& final(lb).round_robin_counter == lb1.round_robin_counter
                    &&& final(lb).backends@ == (match first_addr_index(
                        lb1.backends@,
                        backend.address@,
                    ) {
                        Some(i) => lb1.backends@.update(
                            i,
                            BackendWithStats {
                                active_connections: wrap_inc(
                                    lb1.backends@[i].active_connections,
                                ),
                                ..lb1.backends@[i]
                            },
                        ),
                        None => lb1.backends@,
                    })
                },
            }
        }),
        final(state).rate_limiter.global_limiter == old(
            state,
        ).rate_limiter.global_limiter.spec_try_consume(1, now_ms).0,
        final(state).rate_limiter.per_connection_limit == old(
            state,
        ).rate_limiter.per_connection_limit,
        old(state).rate_limiter.global_limiter.spec_try_consume(1, now_ms).1 && old(
            state,
        ).rate_limiter.per_connection_limit is Some ==> final(state).rate_limiter.spec_get(
            client_addr@,
        ) == Some(
            old(state).rate_limiter.bucket_or_fresh(client_addr@, now_ms).spec_try_consume(
                1,
                now_ms,
            ).0,
        ),
        final(state).circuit_breaker.error_threshold == old(state).circuit_breaker.error_threshold,
        final(state).circuit_breaker.timeout_ms == old(state).circuit_breaker.timeout_ms,
{
    if !state.rate_limiter.allow_request(Some(client_addr), now_ms) {
        state.metrics.record_rate_limit_denied();
        return TcpAdmission::RateLimited;
    }
    state.metrics.record_rate_limit_allowed();
    state.metrics.record_tcp_connection();
    let conn_id = state.register_connection();
    let ghost registered = state.active_connections@;
    let backend = match lb.select_backend_with_context(Some(client_ip)) {
        Some(b) => b,
        None => {
            state.unregister_connection(conn_id);
            state.metrics.close_tcp_connection();
            proof {
                crate::config::lemma_register_unregister_restores_count(*old(state));
            }
            return TcpAdmission::NoHealthyBackend;
        },
    };
    if !state.circuit_breaker.allow_request(backend.address.as_str(), now_ms) {
        state.metrics.record_circuit_breaker_open();
        state.metrics.record_backend_failure(backend.address.as_str());
        state.unregister_connection(conn_id);
        state.metrics.close_tcp_connection();
        proof {
            crate::config::lemma_register_unregister_restores_count(*old(state));
        }
        return TcpAdmission::CircuitOpen { backend };
    }
    state.metrics.record_backend_connection(backend.address.as_str());
    lb.increment_connections(backend.address.as_str());
    TcpAdmission::Admitted { conn_id, backend }
}

/// Record the result of the connect attempt to `backend_addr`: a success
/// feeds the breaker and the latency sample; a failure (error or timeout)
/// feeds the breaker and the backend's failure count.
pub fn record_connect_outcome(
    state: &mut ProxyState,
    backend_addr: &str,
    connected: bool,
    latency_ms: u64,
    now_ms: u64,
)
    requires
        old(state).wf(),
        old(state).seen_up_to(now_ms),
    ensures
        final(state).wf(),
        final(state).seen_up_to(now_ms),
        final(state).config == old(state).config,
        final(state).draining == old(state).draining,
        final(state).rate_limiter == old(state).rate_limiter,
        final(state).active_connections == old(state).active_connections,
        final(state).connection_counter == old(state).connection_counter,
        connected ==> match old(state).circuit_breaker.spec_get(backend_addr@) {
            Some(b) => final(state).circuit_breaker.spec_get(backend_addr@) == Some(
                b.spec_record_success(),
            ),
            None => final(state).circuit_breaker == old(state).circuit_breaker,
        },
        !connected ==> final(state).circuit_breaker.spec_get(backend_addr@) == Some(
            old(state).circuit_breaker.breaker_or_fresh(backend_addr@).spec_record_failure(
                now_ms,
            ),
        ),
        forall|k2: Seq<char>|
            k2 != backend_addr@ ==> final(state).circuit_breaker.spec_get(k2) == old(
                state,
            ).circuit_breaker.spec_get(k2),
        connected ==> final(state).metrics.latency_samples@ == (if old(
            state,
        ).metrics.latency_samples@.len() < 1000 {
            old(state).metrics.latency_samples@.push(latency_ms)
        } else {
            old(state).metrics.latency_samples@.push(latency_ms).drop_first()
        }) && final(state).metrics.spec_backend(backend_addr@) == Some(
            (BackendMetrics {
                requests: wrap_add(old(state).metrics.backend_or_zero(backend_addr@).requests, 1),
                ..old(state).metrics.backend_or_zero(backend_addr@)
            }),
        ),
        !connected ==> final(state).metrics.latency_samples@ == old(
            state,
        ).metrics.latency_samples@ && final(state).metrics.spec_backend(backend_addr@) == Some(
            (BackendMetrics {
                failures: wrap_add(old(state).metrics.backend_or_zero(backend_addr@).failures, 1),
                ..old(state).metrics.backend_or_zero(backend_addr@)
            }),
        ),
        forall|k2: Seq<char>|
            k2 != backend_addr@ ==> final(state).metrics.spec_backend(k2) == old(
                state,
            ).metrics.spec_backend(k2),
{
    if connected {
        state.circuit_breaker.record_success(backend_addr);
        state.metrics.record_backend_request(backend_addr);
        state.metrics.record_latency(latency_ms);
    } else {
        state.circuit_breaker.record_failure(backend_addr, now_ms);
        state.metrics.record_backend_failure(backend_addr);
    }
}

/// Close the books on a relay session: fold the per-direction byte totals
/// into the global and per-backend counters, feed the breaker (a failure if
/// either copy direction failed, a success on a clean close), restore the
/// live-TCP gauge, release the backend's connection slot, and unregister
/// the connection.
pub fn finish_session(
    state: &mut ProxyState,
    lb: &mut LoadBalancer,
    conn_id: u64,
    backend_addr: &str,
    bytes_to_backend: u64,
    bytes_to_client: u64,
    had_error: bool,
    now_ms: u64,
)
    requires
        old(state).wf(),
        old(state).seen_up_to(now_ms),
        old(lb).wf(),
    ensures
        final(state).wf(),
        final(state).seen_up_to(now_ms),
        final(lb).wf(),
        final(state).config == old(state).config,
        final(state).draining == old(state).draining,
        final(state).rate_limiter == old(state).rate_limiter,
        final(state).connection_counter == old(state).connection_counter,
        ({
            let s = old(state).active_connections@;
            if id_scan(s, conn_id) < s.len() {
                final(state).active_connections@ == s.remove(id_scan(s, conn_id))
            } else {
                final(state).active_connections@ == s
            }
        }),
        !had_error ==> match old(state).circuit_breaker.spec_get(backend_addr@) {
            Some(b) => final(state).circuit_breaker.spec_get(backend_addr@) == Some(
                b.spec_record_success(),
            ),
            None => final(state).circuit_breaker == old(state).circuit_breaker,
        },
        had_error ==> final(state).circuit_breaker.spec_get(backend_addr@) == Some(
            old(state).circuit_breaker.breaker_or_fresh(backend_addr@).spec_record_failure(
                now_ms,
            ),
        ),
        forall|k2: Seq<char>|
            k2 != backend_addr@ ==> final(state).circuit_breaker.spec_get(k2) == old(
                state,
            ).circuit_breaker.spec_get(k2),
        final(state).metrics == (MetricsCollector {
            bytes_sent: wrap_add(old(state).metrics.bytes_sent, bytes_to_backend),
            bytes_received: wrap_add(old(state).metrics.bytes_received, bytes_to_client),
            active_tcp_connections: wrap_sub(old(state).metrics.active_tcp_connections, 1),
            backend_metrics: final(state).metrics.backend_metrics,
            ..old(state).metrics
        }),
        ({
            let base = old(state).metrics.backend_or_zero(backend_addr@);
            let with_bytes = BackendMetrics {
                bytes_sent: wrap_add(base.bytes_sent, bytes_to_backend),
                bytes_received: wrap_add(base.bytes_received, bytes_to_client),
                ..base
            };
            final(state).metrics.spec_backend(backend_addr@) == Some(
                if had_error {
                    BackendMetrics { failures: wrap_add(with_bytes.failures, 1), ..with_bytes }
                } else {
                    with_bytes
                },
            )
        }),
        forall|k2: Seq<char>|
            k2 != backend_addr@ ==> final(state).metrics.spec_backend(k2) == old(
                state,
            ).metrics.spec_backend(k2),
        final(lb).algorithm == old(lb).algorithm,
        final(lb).round_robin_counter == old(lb).round_robin_counter,
        final(lb).backends@ == (match first_addr_index(old(lb).backends@, backend_addr@) {
            Some(i) => old(lb).backends@.update(
                i,
                BackendWithStats {
                    active_connections: wrap_dec(old(lb).backends@[i].active_connections),
                    ..old(lb).backends@[i]
                },
            ),
            None => old(lb).backends@,
        }),
{
    state.metrics.record_bytes_sent(bytes_to_backend);
    state.metrics.record_backend_bytes_sent(backend_addr, bytes_to_backend);
    let ghost ma = state.metrics;
    state.metrics.record_bytes_received(bytes_to_client);
    state.metrics.record_backend_bytes_received(backend_addr, bytes_to_client);
    let ghost mb = state.metrics;
    if had_error {
        state.circuit_breaker.record_failure(backend_addr, now_ms);
        state.metrics.record_backend_failure(backend_addr);
    } else {
        state.circuit_breaker.record_success(backend_addr);
    }
    let ghost mc = state.metrics;
    state.metrics.close_tcp_connection();
    lb.decrement_connections(backend_addr);
    state.unregister_connection(conn_id);
    proof {
        assert forall|k2: Seq<char>| k2 != backend_addr@ implies state.metrics.spec_backend(k2)
            == old(state).metrics.spec_backend(k2) by {
            assert(ma.spec_backend(k2) == old(state).metrics.spec_backend(k2));
            assert(mb.spec_backend(k2) == ma.spec_backend(k2));
            assert(mc.spec_backend(k2) == mb.spec_backend(k2));
            assert(state.metrics.spec_backend(k2) == mc.spec_backend(k2));
        }
    }
}

} // verus!
