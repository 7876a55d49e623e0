//! Control operations a controller may invoke: apply a full configuration,
//! reload the backend set, and report on draining. The transport that
//! carries these messages lives outside; the semantic messages and their
//! effects are decided here.

use vstd::prelude::*;

use crate::config::{Backend, ProxyConfig, ProxyState};

verus! {

/// The listen addresses of a configuration message.
pub struct ListenInput {
    pub tcp_address: String,
    pub udp_address: String,
}

/// The load-balancing group of a configuration message.
pub struct LoadBalancingInput {
    pub algorithm: String,
    pub session_affinity: bool,
}

/// The rate-limit group of a configuration message.
#[derive(Debug, Clone, Copy, PartialEq, Eq, Structural)]
pub struct RateLimitInput {
    pub requests_per_second: i32,
    pub burst: i32,
}

/// The timeout group of a configuration message.
#[derive(Debug, Clone, Copy, PartialEq, Eq, Structural)]
pub struct TimeoutInput {
    pub connect_seconds: i32,
    pub idle_seconds: i32,
    pub read_seconds: i32,
}

/// The traffic-policy group of a configuration message.
#[derive(Debug, Clone, Copy, PartialEq, Eq, Structural)]
pub struct TrafficInput {
    pub rate_limit: Option<RateLimitInput>,
    pub timeout: Option<TimeoutInput>,
}

/// The circuit-breaker group of a configuration message.
#[derive(Debug, Clone, Copy, PartialEq, Eq, Structural)]
pub struct CircuitBreakerInput {
    pub threshold: u32,
    pub timeout_seconds: u32,
}

/// A full configuration message, with each optional group as the wire
/// format carries it. Missing groups fall back to built-in defaults.
pub struct ConfigInput {
    pub listen: Option<ListenInput>,
    pub backends: Vec<Backend>,
    pub load_balancing: Option<LoadBalancingInput>,
    pub traffic: Option<TrafficInput>,
    pub circuit_breaker: Option<CircuitBreakerInput>,
}

/// Acknowledgement of a configuration update.
pub struct ConfigAck {
    pub success: bool,
    pub message: String,
}

/// Acknowledgement of a backend reload.
pub struct ReloadAck {
    pub success: bool,
    pub message: String,
    pub backends_loaded: i32,
}

/// Report of a drain request.
#[derive(Debug, Clone, Copy, PartialEq, Eq, Structural)]
pub struct DrainResponse {
    pub success: bool,
    pub connections_drained: i32,
}

/// Failures of control operations.
#[derive(Debug, Clone, Copy, PartialEq, Eq, Structural)]
pub enum ControlError {
    /// The operation needs a configuration and none has arrived.
    NotConfigured,
}

/// A non-negative weight: negative weights on the wire are read as zero.
pub open spec fn clamped_weight(w: i32) -> i32 {
    if w < 0 {
        0i32
    } else {
        w
    }
}

/// Does `cfg` read as the resolution of the message `input`, with every
/// missing group replaced by the built-in defaults (round-robin, no session
/// affinity, 1000 requests per second with burst 100, timeouts of 5, 60 and
/// 30 seconds, breaker threshold 5 with a 30 second timeout)?
pub open spec fn resolves_to(input: ConfigInput, cfg: ProxyConfig) -> bool {
    &&& cfg.tcp_address@ == match input.listen {
        Some(l) => l.tcp_address@,
        None => Seq::<char>::empty(),
    }
    &&& cfg.udp_address@ == match input.listen {
        Some(l) => l.udp_address@,
        None => Seq::<char>::empty(),
    }
    &&& cfg.backends@.len() == input.backends@.len()
    &&& forall|i: int|
        0 <= i < input.backends@.len() ==> (#[trigger] cfg.backends@[i]).address@
            == input.backends@[i].address@ && cfg.backends@[i].healthy
            == input.backends@[i].healthy && cfg.backends@[i].weight == clamped_weight(
            input.backends@[i].weight,
        )
    &&& cfg.udp_backends@.len() == 0
    &&& cfg.algorithm@ == match input.load_balancing {
        Some(lb) => lb.algorithm@,
        None => "round_robin"@,
    }
    &&& cfg.session_affinity == match input.load_balancing {
        Some(lb) => lb.session_affinity,
        None => false,
    }
    &&& cfg.rate_limit_rps == match input.traffic {
        Some(t) => match t.rate_limit {
            Some(rl) => clamped_weight(rl.requests_per_second),
            None => 1000i32,
        },
        None => 1000i32,
    }
    &&& cfg.rate_limit_burst == match input.traffic {
        Some(t) => match t.rate_limit {
            Some(rl) => clamped_weight(rl.burst),
            None => 100i32,
        },
        None => 100i32,
    }
    &&& cfg.connect_timeout_secs == match input.traffic {
        Some(t) => match t.timeout {
            Some(to) => to.connect_seconds,
            None => 5i32,
        },
        None => 5i32,
    }
    &&& cfg.idle_timeout_secs == match input.traffic {
        Some(t) => match t.timeout {
            Some(to) => to.idle_seconds,
            None => 60i32,
        },
        None => 60i32,
    }
    &&& cfg.read_timeout_secs == match input.traffic {
        Some(t) => match t.timeout {
            Some(to) => to.read_seconds,
            None => 30i32,
        },
        None => 30i32,
    }
    &&& cfg.circuit_breaker_threshold == match input.circuit_breaker {
        Some(cb) => cb.threshold,
        None => 5u32,
    }
    &&& cfg.circuit_breaker_timeout_secs == match input.circuit_breaker {
        Some(cb) => cb.timeout_seconds,
        None => 30u32,
    }
}

/// Resolve a configuration message into a snapshot, filling in defaults
/// for every missing group and reading negative weights and rates as zero.
pub fn resolve_config(input: ConfigInput) -> (cfg: ProxyConfig)
    ensures
        resolves_to(input, cfg),
        cfg.rate_limit_rps >= 0,
        cfg.rate_limit_burst >= 0,
{
    let (tcp_address, udp_address) = match input.listen {
        Some(l) => (l.tcp_address, l.udp_address),
        None => (String::new(), String::new()),
    };
    let mut backends: Vec<Backend> = Vec::new();
    let n = input.backends.len();
    let mut i: usize = 0;
    while i < n
        invariant
            n == input.backends@.len(),
            i <= n,
            backends@.len() == i,
            forall|j: int|
                0 <= j < i ==> (#[trigger] backends@[j]).address@ == input.backends@[j].address@
                    && backends@[j].healthy == input.backends@[j].healthy && backends@[j].weight
                    == clamped_weight(input.backends@[j].weight),
        decreases n - i,
    {
        let b = &input.backends[i];
        let weight: i32 = if b.weight < 0 {
            0
        } else {
            b.weight
        };
        backends.push(Backend { address: b.address.clone(), weight, healthy: b.healthy });
        i = i + 1;
    }
    let (algorithm, session_affinity) = match input.load_balancing {
        Some(lb) => (lb.algorithm, lb.session_affinity),
        None => (String::from_str("round_robin"), false),
    };
    let (rate_limit_rps, rate_limit_burst) = match &input.traffic {
        Some(t) => match t.rate_limit {
            Some(rl) => (
                if rl.requests_per_second < 0 {
                    0
                } else {
                    rl.requests_per_second
                },
                if rl.burst < 0 {
                    0
                } else {
                    rl.burst
                },
            ),
            None => (1000, 100),
        },
        None => (1000, 100),
    };
    let (connect_timeout_secs, idle_timeout_secs, read_timeout_secs) = match &input.traffic {
        Some(t) => match t.timeout {
            Some(to) => (to.connect_seconds, to.idle_seconds, to.read_seconds),
            None => (5, 60, 30),
        },
        None => (5, 60, 30),
    };
    let (circuit_breaker_threshold, circuit_breaker_timeout_secs) = match input.circuit_breaker {
        Some(cb) => (cb.threshold, cb.timeout_seconds),
        None => (5, 30),
    };
    ProxyConfig {
        tcp_address,
        udp_address,
        backends,
        udp_backends: Vec::new(),
        algorithm,
        session_affinity,
        rate_limit_rps,
        rate_limit_burst,
        connect_timeout_secs,
        idle_timeout_secs,
        read_timeout_secs,
        circuit_breaker_threshold,
        circuit_breaker_timeout_secs,
    }
}

/// Apply a full configuration message: resolve it, replace the snapshot
/// (admission control resets with it), and acknowledge. A well-formed
/// message always succeeds.
pub fn update_config_op(state: &mut ProxyState, input: ConfigInput, now_ms: u64) -> (r: ConfigAck)
    requires
        old(state).wf(),
    ensures
        final(state).wf(),
        final(state).seen_up_to(now_ms),
        r.success == true,
        r.message@ == "Configuration updated successfully"@,
        final(state).config matches Some(c) && resolves_to(input, c),
        final(state).circuit_breaker.breakers@.len() == 0,
        final(state).rate_limiter.per_connection_limiters@.len() == 0,
        final(state).active_connections == old(state).active_connections,
        final(state).draining == old(state).draining,
        final(state).metrics == old(state).metrics,
{
    let cfg = resolve_config(input);
    state.update_config(cfg, now_ms);
    ConfigAck { success: true, message: String::from_str("Configuration updated successfully") }
}

/// Replace only the backend set, keeping every other field of the current
/// snapshot, through a full configuration update (admission control resets
/// with it). Fails exactly when no configuration has arrived yet.
pub fn reload_backends_op(state: &mut ProxyState, backends: Vec<Backend>, now_ms: u64) -> (r:
    Result<ReloadAck, ControlError>)
    requires
        old(state).wf(),
    ensures
        final(state).wf(),
        r is Err <==> old(state).config is None,
        r matches Err(e) ==> e == ControlError::NotConfigured && *final(state) == *old(state),
        r matches Ok(ack) ==> {
            &&& ack.success == true
            &&& ack.message@ == "Backends reloaded successfully"@
            &&& ack.backends_loaded == backends@.len() as i32
            &&& final(state).seen_up_to(now_ms)
            &&& final(state).config matches Some(c2) && c2.backends@ == backends@
                && c2.tcp_address == old(state).config->Some_0.tcp_address && c2.udp_address
                == old(state).config->Some_0.udp_address && c2.algorithm == old(
                state,
            ).config->Some_0.algorithm && c2.session_affinity == old(
                state,
            ).config->Some_0.session_affinity && c2.rate_limit_rps == old(
                state,
            ).config->Some_0.rate_limit_rps && c2.rate_limit_burst == old(
                state,
            ).config->Some_0.rate_limit_burst && c2.connect_timeout_secs == old(
                state,
            ).config->Some_0.connect_timeout_secs && c2.idle_timeout_secs == old(
                state,
            ).config->Some_0.idle_timeout_secs && c2.read_timeout_secs == old(
                state,
            ).config->Some_0.read_timeout_secs && c2.circuit_breaker_threshold == old(
                state,
            ).config->Some_0.circuit_breaker_threshold && c2.circuit_breaker_timeout_secs == old(
                state,
            ).config->Some_0.circuit_breaker_timeout_secs
            &&& final(state).circuit_breaker.breakers@.len() == 0
            &&& final(state).rate_limiter.per_connection_limiters@.len() == 0
            &&& final(state).active_connections == old(state).active_connections
            &&& final(state).draining == old(state).draining
            &&& final(state).metrics == old(state).metrics
        },
{
    match state.get_config() {
        None => Err(ControlError::NotConfigured),
        Some(cfg) => {
            let count = backends.len();
            let new_cfg = ProxyConfig { backends, ..cfg };
            state.update_config(new_cfg, now_ms);
            Ok(
                ReloadAck {
                    success: true,
                    message: String::from_str("Backends reloaded successfully"),
                    backends_loaded: #[verifier::truncate] (count as i32),
                },
            )
        },
    }
}

/// How many connections a drain pass reports, never below zero.
pub open spec fn spec_drained(active_before: usize, active_after: usize) -> i32 {
    (if active_before >= active_after {
        active_before - active_after
    } else {
        0
    }) as i32
}

/// Report of a drain request: it succeeded exactly when no connection is
/// left, and it drained the difference between the counts observed before
/// and after.
pub fn drain_response(active_before: usize, active_after: usize) -> (r: DrainResponse)
    ensures
        r.success == (active_after == 0),
        r.connections_drained == spec_drained(active_before, active_after),
{
    let drained: usize = if active_before >= active_after {
        active_before - active_after
    } else {
        0
    };
    DrainResponse { success: active_after == 0, connections_drained: #[verifier::truncate] (
        drained as i32) }
}

/// After a configuration update stored `cfg`, the copy that `get_config`
/// hands back reads equal to `cfg`, field for field: updating and then
/// reading the configuration round-trips.
pub proof fn lemma_update_then_get_roundtrip(s: ProxyState, cfg: ProxyConfig, returned: ProxyConfig)
    requires
        s.config == Some(cfg),
        returned.equiv(s.config->Some_0),
    ensures
        returned.equiv(cfg),
{
}

/// Draining an idle data plane is a no-op: entering drain mode touches only
/// the flag, so the registry stays empty, and the report reads success with
/// zero connections drained.
pub proof fn lemma_drain_idle_noop(s: ProxyState)
    requires
        s.active_connections@.len() == 0,
    ensures
        (ProxyState { draining: true, ..s }).active_connections@.len() == 0,
        spec_drained(0, 0) == 0,
        (DrainResponse { success: true, connections_drained: 0 }) == (DrainResponse {
            success: (0usize == 0),
            connections_drained: spec_drained(0, 0),
        }),
{
}

} // verus!
