//! Proxy configuration data model and the shared proxy state: the current
//! configuration snapshot, the connection registry, the drain flag, and the
//! admission-control components parameterized by the configuration.

use vstd::prelude::*;

use crate::circuit_breaker::CircuitBreakerManager;
use crate::metrics::MetricsCollector;
use crate::rate_limiter::{RateLimiter, MAX_BURST, MAX_RATE};

verus! {

/// A downstream server the proxy forwards traffic to. Weight zero means
/// eligible only when every weight is zero; health is authoritative from the
/// controller.
#[derive(Debug)]
pub struct Backend {
    pub address: String,
    pub weight: i32,
    pub healthy: bool,
}

impl Clone for Backend {
    fn clone(&self) -> (res: Self)
        ensures
            res == *self,
    {
        Backend { address: self.address.clone(), weight: self.weight, healthy: self.healthy }
    }
}

/// An immutable configuration snapshot. An empty `udp_address` disables the
/// UDP engine.
#[derive(Debug)]
pub struct ProxyConfig {
    pub tcp_address: String,
    pub udp_address: String,
    pub backends: Vec<Backend>,
    pub udp_backends: Vec<Backend>,
    pub algorithm: String,
    pub session_affinity: bool,
    pub rate_limit_rps: i32,
    pub rate_limit_burst: i32,
    pub connect_timeout_secs: i32,
    pub idle_timeout_secs: i32,
    pub read_timeout_secs: i32,
    pub circuit_breaker_threshold: u32,
    pub circuit_breaker_timeout_secs: u32,
}

/// An exact copy of a backend list.
pub fn clone_backends(v: &Vec<Backend>) -> (r: Vec<Backend>)
    ensures
        r@ == v@,
{
    let mut r: Vec<Backend> = Vec::new();
    let n = v.len();
    proof {
        assert(r@ =~= v@.take(0));
    }
    let mut i: usize = 0;
    while i < n
        invariant
            n == v@.len(),
            i <= n,
            r@ == v@.take(i as int),
        decreases n - i,
    {
        r.push(v[i].clone());
        proof {
            assert(r@ =~= v@.take(i + 1));
        }
        i = i + 1;
    }
    proof {
        assert(v@.take(n as int) =~= v@);
    }
    r
}

impl ProxyConfig {
    /// Observational equality of two snapshots: every field reads the same.
    /// Backend lists are compared by contents, so a copy is `equiv` to its
    /// original.
    pub open spec fn equiv(self, other: ProxyConfig) -> bool {
        &&& self.tcp_address == other.tcp_address
        &&& self.udp_address == other.udp_address
        &&& self.backends@ == other.backends@
        &&& self.udp_backends@ == other.udp_backends@
        &&& self.algorithm == other.algorithm
        &&& self.session_affinity == other.session_affinity
        &&& self.rate_limit_rps == other.rate_limit_rps
        &&& self.rate_limit_burst == other.rate_limit_burst
        &&& self.connect_timeout_secs == other.connect_timeout_secs
        &&& self.idle_timeout_secs == other.idle_timeout_secs
        &&& self.read_timeout_secs == other.read_timeout_secs
        &&& self.circuit_breaker_threshold == other.circuit_breaker_threshold
        &&& self.circuit_breaker_timeout_secs == other.circuit_breaker_timeout_secs
    }
}

impl Clone for ProxyConfig {
    fn clone(&self) -> (res: Self)
        ensures
            res.equiv(*self),
    {
        ProxyConfig {
            tcp_address: self.tcp_address.clone(),
            udp_address: self.udp_address.clone(),
            backends: clone_backends(&self.backends),
            udp_backends: clone_backends(&self.udp_backends),
            algorithm: self.algorithm.clone(),
            session_affinity: self.session_affinity,
            rate_limit_rps: self.rate_limit_rps,
            rate_limit_burst: self.rate_limit_burst,
            connect_timeout_secs: self.connect_timeout_secs,
            idle_timeout_secs: self.idle_timeout_secs,
            read_timeout_secs: self.read_timeout_secs,
            circuit_breaker_threshold: self.circuit_breaker_threshold,
            circuit_breaker_timeout_secs: self.circuit_breaker_timeout_secs,
        }
    }
}

/// Index of the first occurrence of `id` in the registry; the length if
/// absent.
pub open spec fn id_scan(s: Seq<u64>, id: u64) -> int
    decreases s.len(),
{
    if s.len() == 0 {
        0
    } else if s[0] == id {
        0
    } else {
        1 + id_scan(s.drop_first(), id)
    }
}

proof fn lemma_id_scan_first(s: Seq<u64>, id: u64)
    ensures
        0 <= id_scan(s, id) <= s.len(),
        id_scan(s, id) < s.len() ==> s[id_scan(s, id)] == id,
        forall|j: int| 0 <= j < id_scan(s, id) ==> s[j] != id,
    decreases s.len(),
{
    if s.len() > 0 && s[0] != id {
        lemma_id_scan_first(s.drop_first(), id);
        assert forall|j: int| 0 <= j < id_scan(s, id) implies s[j] != id by {
            if j > 0 {
                assert(s[j] == s.drop_first()[j - 1]);
            }
        }
    }
}

/// The shared proxy state: the configuration snapshot, the registry of live
/// connection ids, the drain flag, and the admission-control components.
/// Replacing the configuration also replaces the circuit breakers and rate
/// limiter with fresh ones built from the new admission parameters.
pub struct ProxyState {
    pub config: Option<ProxyConfig>,
    pub active_connections: Vec<u64>,
    pub connection_counter: u64,
    pub draining: bool,
    pub circuit_breaker: CircuitBreakerManager,
    pub rate_limiter: RateLimiter,
    pub metrics: MetricsCollector,
}

impl ProxyState {
    /// Registered ids are unique and no larger than the id counter, and the
    /// components are well-formed.
    pub open spec fn wf(self) -> bool {
        &&& (self.config matches Some(c) ==> c.rate_limit_rps >= 0 && c.rate_limit_burst >= 0)
        &&& forall|i: int, j: int|
            0 <= i < j < self.active_connections@.len() ==> self.active_connections@[i]
                != self.active_connections@[j]
        &&& forall|i: int|
            0 <= i < self.active_connections@.len() ==> (#[trigger] self.active_connections@[i])
                <= self.connection_counter
        &&& self.circuit_breaker.wf()
        &&& self.rate_limiter.wf()
        &&& self.metrics.wf()
    }

    /// Every clock reading stored in the admission components is no later
    /// than `now_ms`.
    pub open spec fn seen_up_to(self, now_ms: u64) -> bool {
        &&& self.circuit_breaker.seen_up_to(now_ms)
        &&& self.rate_limiter.seen_up_to(now_ms)
    }

    /// Number of live registered connections.
    pub open spec fn spec_count(self) -> int {
        self.active_connections@.len() as int
    }

    /// A state with no configuration, an empty registry, and default
    /// admission parameters.
    pub fn new(now_ms: u64) -> (r: ProxyState)
        ensures
            r.config == None::<ProxyConfig>,
            r.active_connections@.len() == 0,
            r.connection_counter == 0,
            r.draining == false,
            r.circuit_breaker.breakers@.len() == 0,
            r.circuit_breaker.error_threshold == 5,
            r.circuit_breaker.timeout_ms == 30000,
            r.rate_limiter.global_limiter.capacity == 100,
            r.rate_limiter.global_limiter.refill_rate == 1000,
            r.metrics.tcp_connections == 0,
            r.wf(),
            r.seen_up_to(now_ms),
    {
        ProxyState {
            config: None,
            active_connections: Vec::new(),
            connection_counter: 0,
            draining: false,
            circuit_breaker: CircuitBreakerManager::new(5, 30),
            rate_limiter: RateLimiter::new(1000, 100, now_ms),
            metrics: MetricsCollector::new(),
        }
    }

    /// Replace the configuration snapshot, and with it the circuit-breaker
    /// manager and rate limiter, parameterized by the new admission
    /// settings. Breakers and buckets accumulated so far are wiped.
    pub fn update_config(&mut self, config: ProxyConfig, now_ms: u64)
        requires
            old(self).wf(),
            config.rate_limit_rps >= 0,
            config.rate_limit_burst >= 0,
        ensures
            final(self).wf(),
            final(self).seen_up_to(now_ms),
            final(self).config == Some(config),
            final(self).circuit_breaker.breakers@.len() == 0,
            final(self).circuit_breaker.error_threshold == config.circuit_breaker_threshold,
            final(self).circuit_breaker.timeout_ms == config.circuit_breaker_timeout_secs as u64
                * 1000,
            final(self).rate_limiter.global_limiter == crate::rate_limiter::TokenBucket::fresh(
                config.rate_limit_rps as u64,
                config.rate_limit_burst as u64,
                now_ms,
            ),
            final(self).rate_limiter.per_connection_limiters@.len() == 0,
            final(self).rate_limiter.per_connection_limit == None::<(u64, u64)>,
            final(self).active_connections == old(self).active_connections,
            final(self).connection_counter == old(self).connection_counter,
            final(self).draining == old(self).draining,
            final(self).metrics == old(self).metrics,
    {
        proof {
            assert(config.rate_limit_rps as u64 <= MAX_RATE);
            assert(config.rate_limit_burst as u64 <= MAX_BURST);
        }
        self.circuit_breaker = CircuitBreakerManager::new(
            config.circuit_breaker_threshold,
            config.circuit_breaker_timeout_secs,
        );
        self.rate_limiter = RateLimiter::new(
            config.rate_limit_rps as u64,
            config.rate_limit_burst as u64,
            now_ms,
        );
        self.config = Some(config);
    }

    /// A copy of the current configuration snapshot, if one has arrived.
    pub fn get_config(&self) -> (r: Option<ProxyConfig>)
        ensures
            match r {
                Some(c) => self.config is Some && c.equiv(self.config->Some_0),
                None => self.config is None,
            },
    {
        match &self.config {
            Some(c) => Some(c.clone()),
            None => None,
        }
    }

    /// Has a configuration arrived?
    pub fn is_configured(&self) -> (r: bool)
        ensures
            r == (self.config is Some),
    {
        match &self.config {
            Some(_) => true,
            None => false,
        }
    }

    /// Register a live connection, returning its fresh id.
    pub fn register_connection(&mut self) -> (id: u64)
        requires
            old(self).wf(),
            old(self).connection_counter < 0xFFFF_FFFF_FFFF_FFFFu64,
        ensures
            final(self).wf(),
            id == old(self).connection_counter + 1,
            final(self).connection_counter == id,
            final(self).active_connections@ == old(self).active_connections@.push(id),
            *final(self) == (ProxyState {
                active_connections: final(self).active_connections,
                connection_counter: id,
                ..*old(self)
            }),
    {
        self.connection_counter = self.connection_counter + 1;
        let id = self.connection_counter;
        self.active_connections.push(id);
        id
    }

    /// Drop a connection id from the registry; unknown ids are tolerated.
    #[verifier::loop_isolation(false)]
    pub fn unregister_connection(&mut self, id: u64)
        requires
            old(self).wf(),
        ensures
            final(self).wf(),
            ({
                let s = old(self).active_connections@;
                if id_scan(s, id) < s.len() {
                    final(self).active_connections@ == s.remove(id_scan(s, id))
                } else {
                    final(self).active_connections@ == s
                }
            }),
            *final(self) == (ProxyState {
                active_connections: final(self).active_connections,
                ..*old(self)
            }),
    {
        proof {
            lemma_id_scan_first(self.active_connections@, id);
        }
        let n = self.active_connections.len();
        let mut i: usize = 0;
        while i < n
            invariant
                i <= n,
                *self == *old(self),
                forall|j: int| 0 <= j < i ==> self.active_connections@[j] != id,
            decreases n - i,
        {
            if self.active_connections[i] == id {
                self.active_connections.remove(i);
                proof {
                    assert(id_scan(old(self).active_connections@, id) == i);
                }
                return ;
            }
            i = i + 1;
        }
    }

    /// Number of live registered connections.
    pub fn active_connection_count(&self) -> (n: usize)
        ensures
            n == self.active_connections@.len(),
    {
        self.active_connections.len()
    }

    /// Is the data plane refusing new connections?
    pub fn is_draining(&self) -> (r: bool)
        ensures
            r == self.draining,
    {
        self.draining
    }

    /// Enter drain mode: new connections are refused while in-flight
    /// sessions run to their natural end. Callers poll
    /// `active_connection_count` until it reaches zero.
    pub fn begin_drain(&mut self)
        ensures
            *final(self) == (ProxyState { draining: true, ..*old(self) }),
    {
        self.draining = true;
    }

    /// Leave drain mode.
    pub fn reset_draining(&mut self)
        ensures
            *final(self) == (ProxyState { draining: false, ..*old(self) }),
    {
        self.draining = false;
    }

    /// The metrics collector.
    pub fn get_metrics(&self) -> (r: &MetricsCollector)
        ensures
            r == self.metrics,
    {
        &self.metrics
    }
}

/// Registering a connection and then unregistering it leaves the registry,
/// and with it the live-connection count, exactly as it was: the fresh id is
/// found at the end of the registry, and removing it restores the registry
/// `register_connection` started from.
pub proof fn lemma_register_unregister_restores_count(s: ProxyState)
    requires
        s.wf(),
        s.connection_counter < 0xFFFF_FFFF_FFFF_FFFFu64,
    ensures
        ({
            let id = (s.connection_counter + 1) as u64;
            let after = s.active_connections@.push(id);
            id_scan(after, id) == after.len() - 1 && after.remove(after.len() - 1)
                == s.active_connections@
        }),
{
    let id = (s.connection_counter + 1) as u64;
    let before = s.active_connections@;
    let after = before.push(id);
    assert forall|j: int| 0 <= j < before.len() implies before[j] != id by {
        assert(before[j] <= s.connection_counter);
    }
    lemma_id_scan_first(after, id);
    assert(after[after.len() - 1] == id);
    assert forall|j: int| 0 <= j < after.len() - 1 implies after[j] != id by {
        assert(after[j] == before[j]);
    }
    assert(id_scan(after, id) == after.len() - 1);
    assert(after.remove(after.len() - 1) =~= before);
}

} // verus!
