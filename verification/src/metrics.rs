//! Metrics bookkeeping: monotone counters, per-backend counter maps, and a
//! bounded ring of latency samples with percentile statistics.
//!
//! Latencies are whole milliseconds. Counters wrap around on overflow, as
//! atomic adds do.

use vstd::prelude::*;

use crate::keyed::{
    assoc_get, distinct_keys, find_key, has_key, key_index, lemma_key_index_is_first_match,
    lemma_key_index_push, lemma_key_index_same_keys, lemma_push_distinct,
};

verus! {

/// A 64-bit counter after adding `n`, wrapping as an atomic add does.
pub open spec fn wrap_add(c: u64, n: u64) -> u64 {
    if c + n > 0xFFFF_FFFF_FFFF_FFFFu64 {
        (c + n - 0x1_0000_0000_0000_0000) as u64
    } else {
        (c + n) as u64
    }
}

/// A 64-bit counter after subtracting `n`, wrapping as an atomic subtract
/// does.
pub open spec fn wrap_sub(c: u64, n: u64) -> u64 {
    if c - n < 0 {
        (c - n + 0x1_0000_0000_0000_0000) as u64
    } else {
        (c - n) as u64
    }
}

/// Per-backend counters.
#[derive(Debug, Clone, Copy, PartialEq, Eq, Structural)]
pub struct BackendMetrics {
    pub connections: u64,
    pub requests: u64,
    pub failures: u64,
    pub bytes_sent: u64,
    pub bytes_received: u64,
}

impl BackendMetrics {
    /// The zeroed counters a backend starts with.
    pub open spec fn zero() -> BackendMetrics {
        BackendMetrics { connections: 0, requests: 0, failures: 0, bytes_sent: 0, bytes_received: 0 }
    }

    pub fn new() -> (r: BackendMetrics)
        ensures
            r == BackendMetrics::zero(),
    {
        BackendMetrics { connections: 0, requests: 0, failures: 0, bytes_sent: 0, bytes_received: 0 }
    }
}

/// Percentiles and mean of the recorded latency samples, in milliseconds.
#[derive(Debug, Clone, Copy, PartialEq, Eq, Structural)]
pub struct LatencyStats {
    pub p50: u64,
    pub p90: u64,
    pub p99: u64,
    pub avg: u64,
}

impl Default for LatencyStats {
    /// All zeros, as reported when no sample has been recorded.
    fn default() -> (r: Self)
        ensures
            r == (LatencyStats { p50: 0u64, p90: 0u64, p99: 0u64, avg: 0u64 }),
    {
        LatencyStats { p50: 0, p90: 0, p99: 0, avg: 0 }
    }
}

/// A point-in-time reading of every counter.
#[derive(Debug, Clone, Copy, PartialEq, Eq, Structural)]
pub struct MetricsSummary {
    pub tcp_connections: u64,
    pub udp_sessions: u64,
    pub active_tcp_connections: u64,
    pub active_udp_sessions: u64,
    pub bytes_sent: u64,
    pub bytes_received: u64,
    pub packets_sent: u64,
    pub packets_received: u64,
    pub rate_limit_allowed: u64,
    pub rate_limit_denied: u64,
    pub circuit_breaker_open: u64,
    pub circuit_breaker_half_open: u64,
    pub latency: LatencyStats,
}

/// `x` inserted into `s` before the first element it does not exceed.
pub open spec fn sorted_insert(s: Seq<u64>, x: u64) -> Seq<u64>
    decreases s.len(),
{
    if s.len() == 0 {
        seq![x]
    } else if x <= s[0] {
        seq![x] + s
    } else {
        seq![s[0]] + sorted_insert(s.drop_first(), x)
    }
}

/// Insertion sort of a sequence, inserting elements left to right.
pub open spec fn sort_spec(s: Seq<u64>) -> Seq<u64>
    decreases s.len(),
{
    if s.len() == 0 {
        Seq::empty()
    } else {
        sorted_insert(sort_spec(s.drop_last()), s.last())
    }
}

/// The sum of a sequence of samples.
pub open spec fn sum_seq(s: Seq<u64>) -> int
    decreases s.len(),
{
    if s.len() == 0 {
        0
    } else {
        sum_seq(s.drop_last()) + s.last()
    }
}

/// Non-decreasing order.
pub open spec fn is_sorted(s: Seq<u64>) -> bool {
    forall|i: int, j: int| 0 <= i <= j < s.len() ==> s[i] <= s[j]
}

/// Inserting into a sequence puts the element at the first position whose
/// element it does not exceed.
proof fn lemma_sorted_insert_at(s: Seq<u64>, x: u64, idx: int)
    requires
        0 <= idx <= s.len(),
        forall|j: int| 0 <= j < idx ==> s[j] < x,
        idx < s.len() ==> x <= s[idx],
    ensures
        sorted_insert(s, x) == s.insert(idx, x),
    decreases s.len(),
{
    if s.len() == 0 {
        assert(sorted_insert(s, x) =~= s.insert(0, x));
    } else if x <= s[0] {
        assert(idx == 0);
        assert(sorted_insert(s, x) =~= s.insert(0, x));
    } else {
        let s1 = s.drop_first();
        assert forall|j: int| 0 <= j < idx - 1 implies s1[j] < x by {
            assert(s1[j] == s[j + 1]);
        }
        lemma_sorted_insert_at(s1, x, idx - 1);
        assert(seq![s[0]] + s1.insert(idx - 1, x) =~= s.insert(idx, x));
    }
}

/// Insertion keeps a sorted sequence sorted.
proof fn lemma_sorted_insert_sorted(s: Seq<u64>, x: u64)
    requires
        is_sorted(s),
    ensures
        is_sorted(sorted_insert(s, x)),
    decreases s.len(),
{
    if s.len() > 0 && !(x <= s[0]) {
        let s1 = s.drop_first();
        assert(is_sorted(s1)) by {
            assert forall|i: int, j: int| 0 <= i <= j < s1.len() implies s1[i] <= s1[j] by {
                assert(s1[i] == s[i + 1]);
                assert(s1[j] == s[j + 1]);
            }
        }
        lemma_sorted_insert_sorted(s1, x);
        let out = seq![s[0]] + sorted_insert(s1, x);
        assert forall|i: int, j: int| 0 <= i <= j < out.len() implies out[i] <= out[j] by {
            if i == 0 && j > 0 {
                let t = sorted_insert(s1, x);
                assert(out[j] == t[j - 1]);
                if s1.len() == 0 {
                    assert(t[0] == x);
                } else if x <= s1[0] {
                    assert(t == seq![x] + s1);
                    if j - 1 == 0 {
                        assert(out[j] == x);
                    } else {
                        assert(t[j - 1] == s1[j - 2]);
                        assert(s[0] <= s[j - 1]);
                    }
                } else {
                    assert(t == seq![s1[0]] + sorted_insert(s1.drop_first(), x));
                    assert(is_sorted(t));
                    assert(t[0] == s1[0]);
                    assert(s[0] <= s1[0]);
                    assert(t[0] <= t[j - 1]);
                }
            } else if i > 0 {
                let t = sorted_insert(s1, x);
                assert(out[i] == t[i - 1]);
                assert(out[j] == t[j - 1]);
            }
        }
    }
}

/// The result of the sort is sorted.
pub proof fn lemma_sort_spec_sorted(s: Seq<u64>)
    ensures
        is_sorted(sort_spec(s)),
        sort_spec(s).len() == s.len(),
    decreases s.len(),
{
    if s.len() > 0 {
        lemma_sort_spec_sorted(s.drop_last());
        lemma_sorted_insert_len(sort_spec(s.drop_last()), s.last());
        lemma_sorted_insert_sorted(sort_spec(s.drop_last()), s.last());
    }
}

/// Inserting grows the length by one.
proof fn lemma_sorted_insert_len(s: Seq<u64>, x: u64)
    ensures
        sorted_insert(s, x).len() == s.len() + 1,
    decreases s.len(),
{
    if s.len() > 0 && !(x <= s[0]) {
        lemma_sorted_insert_len(s.drop_first(), x);
    }
}

/// Insert `x` into an already-sorted vector, keeping it sorted.
#[verifier::loop_isolation(false)]
fn insert_sorted(v: &mut Vec<u64>, x: u64)
    ensures
        final(v)@ == sorted_insert(old(v)@, x),
{
    let n = v.len();
    let mut idx: usize = 0;
    while idx < n && v[idx] < x
        invariant
            idx <= n,
            *v == *old(v),
            forall|j: int| 0 <= j < idx ==> v@[j] < x,
        decreases n - idx,
    {
        idx = idx + 1;
    }
    proof {
        lemma_sorted_insert_at(v@, x, idx as int);
    }
    v.insert(idx, x);
}

/// Sort a copy of the samples by insertion.
#[verifier::loop_isolation(false)]
fn sort_samples(v: &Vec<u64>) -> (r: Vec<u64>)
    ensures
        r@ == sort_spec(v@),
{
    let mut r: Vec<u64> = Vec::new();
    let n = v.len();
    let mut i: usize = 0;
    while i < n
        invariant
            i <= n,
            r@ == sort_spec(v@.take(i as int)),
        decreases n - i,
    {
        insert_sorted(&mut r, v[i]);
        proof {
            assert(v@.take(i + 1).drop_last() =~= v@.take(i as int));
            assert(v@.take(i + 1).last() == v@[i as int]);
        }
        i = i + 1;
    }
    proof {
        assert(v@.take(n as int) =~= v@);
    }
    r
}

/// Sum the samples.
#[verifier::loop_isolation(false)]
fn sum_samples(v: &Vec<u64>) -> (s: u128)
    requires
        v@.len() <= 1000,
    ensures
        s == sum_seq(v@),
{
    let mut s: u128 = 0;
    let n = v.len();
    let mut i: usize = 0;
    while i < n
        invariant
            i <= n,
            s == sum_seq(v@.take(i as int)),
            s <= (i as int) * 0xFFFF_FFFF_FFFF_FFFF,
        decreases n - i,
    {
        proof {
            assert(v@.take(i + 1).drop_last() =~= v@.take(i as int));
            assert(v@.take(i + 1).last() == v@[i as int]);
            assert((i as int) * 0xFFFF_FFFF_FFFF_FFFF + 0xFFFF_FFFF_FFFF_FFFF == (i + 1)
                * 0xFFFF_FFFF_FFFF_FFFF) by (nonlinear_arith);
        }
        s = s + (v[i] as u128);
        i = i + 1;
    }
    proof {
        assert(v@.take(n as int) =~= v@);
    }
    s
}

/// The percentile statistics of a sample sequence: percentiles index into
/// the sorted copy, and the mean is the integer quotient of the sum.
pub open spec fn spec_latency_stats(samples: Seq<u64>) -> LatencyStats {
    if samples.len() == 0 {
        LatencyStats { p50: 0, p90: 0, p99: 0, avg: 0 }
    } else {
        let s = sort_spec(samples);
        let n = samples.len() as int;
        LatencyStats {
            p50: s[n / 2],
            p90: s[(n * 90) / 100],
            p99: s[(n * 99) / 100],
            avg: (sum_seq(s) / n) as u64,
        }
    }
}

/// Counters for proxy operations. All plain reads and writes; callers share
/// the collector behind whatever synchronization the embedding uses.
pub struct MetricsCollector {
    pub tcp_connections: u64,
    pub udp_sessions: u64,
    pub active_tcp_connections: u64,
    pub active_udp_sessions: u64,
    pub bytes_sent: u64,
    pub bytes_received: u64,
    pub packets_sent: u64,
    pub packets_received: u64,
    pub latency_samples: Vec<u64>,
    pub backend_metrics: Vec<(String, BackendMetrics)>,
    pub rate_limit_allowed: u64,
    pub rate_limit_denied: u64,
    pub circuit_breaker_open: u64,
    pub circuit_breaker_half_open: u64,
}

impl MetricsCollector {
    /// The latency ring is bounded and backend keys are unique.
    pub open spec fn wf(self) -> bool {
        &&& self.latency_samples@.len() <= 1000
        &&& distinct_keys(self.backend_metrics@)
    }

    /// The stored counters for a backend, if any.
    pub open spec fn spec_backend(self, k: Seq<char>) -> Option<BackendMetrics> {
        assoc_get(self.backend_metrics@, k)
    }

    /// The counters an update for backend `k` acts on.
    pub open spec fn backend_or_zero(self, k: Seq<char>) -> BackendMetrics {
        match self.spec_backend(k) {
            Some(m) => m,
            None => BackendMetrics::zero(),
        }
    }

    pub fn new() -> (r: MetricsCollector)
        ensures
            r.tcp_connections == 0,
            r.udp_sessions == 0,
            r.active_tcp_connections == 0,
            r.active_udp_sessions == 0,
            r.bytes_sent == 0,
            r.bytes_received == 0,
            r.packets_sent == 0,
            r.packets_received == 0,
            r.latency_samples@.len() == 0,
            r.backend_metrics@.len() == 0,
            r.rate_limit_allowed == 0,
            r.rate_limit_denied == 0,
            r.circuit_breaker_open == 0,
            r.circuit_breaker_half_open == 0,
            r.wf(),
    {
        MetricsCollector {
            tcp_connections: 0,
            udp_sessions: 0,
            active_tcp_connections: 0,
            active_udp_sessions: 0,
            bytes_sent: 0,
            bytes_received: 0,
            packets_sent: 0,
            packets_received: 0,
            latency_samples: Vec::new(),
            backend_metrics: Vec::new(),
            rate_limit_allowed: 0,
            rate_limit_denied: 0,
            circuit_breaker_open: 0,
            circuit_breaker_half_open: 0,
        }
    }

    /// A TCP connection was accepted: one more ever opened, one more live.
    pub fn record_tcp_connection(&mut self)
        requires
            old(self).wf(),
        ensures
            final(self).wf(),
            *final(self) == (MetricsCollector {
                tcp_connections: wrap_add(old(self).tcp_connections, 1),
                active_tcp_connections: wrap_add(old(self).active_tcp_connections, 1),
                ..*old(self)
            }),
    {
        self.tcp_connections = self.tcp_connections.wrapping_add(1);
        self.active_tcp_connections = self.active_tcp_connections.wrapping_add(1);
    }

    /// A TCP connection ended: one less live.
    pub fn close_tcp_connection(&mut self)
        requires
            old(self).wf(),
        ensures
            final(self).wf(),
            *final(self) == (MetricsCollector {
                active_tcp_connections: wrap_sub(old(self).active_tcp_connections, 1),
                ..*old(self)
            }),
    {
        self.active_tcp_connections = self.active_tcp_connections.wrapping_sub(1);
    }

    /// A UDP session was created: one more ever opened, one more live.
    pub fn record_udp_session(&mut self)
        requires
            old(self).wf(),
        ensures
            final(self).wf(),
            *final(self) == (MetricsCollector {
                udp_sessions: wrap_add(old(self).udp_sessions, 1),
                active_udp_sessions: wrap_add(old(self).active_udp_sessions, 1),
                ..*old(self)
            }),
    {
        self.udp_sessions = self.udp_sessions.wrapping_add(1);
        self.active_udp_sessions = self.active_udp_sessions.wrapping_add(1);
    }

    /// A UDP session expired: one less live.
    pub fn close_udp_session(&mut self)
        requires
            old(self).wf(),
        ensures
            final(self).wf(),
            *final(self) == (MetricsCollector {
                active_udp_sessions: wrap_sub(old(self).active_udp_sessions, 1),
                ..*old(self)
            }),
    {
        self.active_udp_sessions = self.active_udp_sessions.wrapping_sub(1);
    }

    pub fn record_bytes_sent(&mut self, bytes: u64)
        requires
            old(self).wf(),
        ensures
            final(self).wf(),
            *final(self) == (MetricsCollector {
                bytes_sent: wrap_add(old(self).bytes_sent, bytes),
                ..*old(self)
            }),
    {
        self.bytes_sent = self.bytes_sent.wrapping_add(bytes);
    }

    pub fn record_bytes_received(&mut self, bytes: u64)
        requires
            old(self).wf(),
        ensures
            final(self).wf(),
            *final(self) == (MetricsCollector {
                bytes_received: wrap_add(old(self).bytes_received, bytes),
                ..*old(self)
            }),
    {
        self.bytes_received = self.bytes_received.wrapping_add(bytes);
    }

    pub fn record_packet_sent(&mut self)
        requires
            old(self).wf(),
        ensures
            final(self).wf(),
            *final(self) == (MetricsCollector {
                packets_sent: wrap_add(old(self).packets_sent, 1),
                ..*old(self)
            }),
    {
        self.packets_sent = self.packets_sent.wrapping_add(1);
    }

    pub fn record_packet_received(&mut self)
        requires
            old(self).wf(),
        ensures
            final(self).wf(),
            *final(self) == (MetricsCollector {
                packets_received: wrap_add(old(self).packets_received, 1),
                ..*old(self)
            }),
    {
        self.packets_received = self.packets_received.wrapping_add(1);
    }

    /// Push a latency sample, in milliseconds; only the last 1000 samples
    /// are kept.
    pub fn record_latency(&mut self, duration_ms: u64)
        requires
            old(self).wf(),
        ensures
            final(self).wf(),
            final(self).latency_samples@ == if old(self).latency_samples@.len() < 1000 {
                old(self).latency_samples@.push(duration_ms)
            } else {
                old(self).latency_samples@.push(duration_ms).drop_first()
            },
            *final(self) == (MetricsCollector {
                latency_samples: final(self).latency_samples,
                ..*old(self)
            }),
    {
        self.latency_samples.push(duration_ms);
        if self.latency_samples.len() > 1000 {
            self.latency_samples.remove(0);
            proof {
                assert(old(self).latency_samples@.push(duration_ms).remove(0)
                    =~= old(self).latency_samples@.push(duration_ms).drop_first());
            }
        }
    }

    /// Percentiles and mean over a sorted copy of the samples; all zeros
    /// when no sample has been recorded.
    pub fn get_latency_stats(&self) -> (r: LatencyStats)
        requires
            self.wf(),
        ensures
            r == spec_latency_stats(self.latency_samples@),
    {
        let len = self.latency_samples.len();
        if len == 0 {
            return LatencyStats::default();
        }
        let sorted = sort_samples(&self.latency_samples);
        proof {
            lemma_sort_spec_sorted(self.latency_samples@);
        }
        let total = sum_samples(&sorted);
        proof {
            lemma_sum_seq_bounds(sorted@);
            assert(sorted@.len() == len);
            assert((sum_seq(sorted@) / len as int) <= 0xFFFF_FFFF_FFFF_FFFF)
                by (nonlinear_arith)
                requires
                    sum_seq(sorted@) <= (len as int) * 0xFFFF_FFFF_FFFF_FFFF,
                    sum_seq(sorted@) >= 0,
                    len >= 1,
            ;
        }
        let avg = (total / (len as u128)) as u64;
        LatencyStats {
            p50: sorted[len / 2],
            p90: sorted[(len * 90) / 100],
            p99: sorted[(len * 99) / 100],
            avg,
        }
    }

    /// Count a request routed to a backend.
    pub fn record_backend_request(&mut self, backend: &str)
        requires
            old(self).wf(),
        ensures
            final(self).wf(),
            final(self).spec_backend(backend@) == Some(
                (BackendMetrics {
                    requests: wrap_add(old(self).backend_or_zero(backend@).requests, 1),
                    ..old(self).backend_or_zero(backend@)
                }),
            ),
            forall|k2: Seq<char>|
                k2 != backend@ ==> final(self).spec_backend(k2) == old(self).spec_backend(k2),
            *final(self) == (MetricsCollector {
                backend_metrics: final(self).backend_metrics,
                ..*old(self)
            }),
    {
        let base = self.backend_entry(backend);
        let updated = BackendMetrics { requests: base.requests.wrapping_add(1), ..base };
        self.set_backend_entry(backend, updated);
    }

    /// Count a connection opened to a backend.
    pub fn record_backend_connection(&mut self, backend: &str)
        requires
            old(self).wf(),
        ensures
            final(self).wf(),
            final(self).spec_backend(backend@) == Some(
                (BackendMetrics {
                    connections: wrap_add(old(self).backend_or_zero(backend@).connections, 1),
                    ..old(self).backend_or_zero(backend@)
                }),
            ),
            forall|k2: Seq<char>|
                k2 != backend@ ==> final(self).spec_backend(k2) == old(self).spec_backend(k2),
            *final(self) == (MetricsCollector {
                backend_metrics: final(self).backend_metrics,
                ..*old(self)
            }),
    {
        let base = self.backend_entry(backend);
        let updated = BackendMetrics { connections: base.connections.wrapping_add(1), ..base };
        self.set_backend_entry(backend, updated);
    }

    /// Count a failure against a backend.
    pub fn record_backend_failure(&mut self, backend: &str)
        requires
            old(self).wf(),
        ensures
            final(self).wf(),
            final(self).spec_backend(backend@) == Some(
                (BackendMetrics {
                    failures: wrap_add(old(self).backend_or_zero(backend@).failures, 1),
                    ..old(self).backend_or_zero(backend@)
                }),
            ),
            forall|k2: Seq<char>|
                k2 != backend@ ==> final(self).spec_backend(k2) == old(self).spec_backend(k2),
            *final(self) == (MetricsCollector {
                backend_metrics: final(self).backend_metrics,
                ..*old(self)
            }),
    {
        let base = self.backend_entry(backend);
        let updated = BackendMetrics { failures: base.failures.wrapping_add(1), ..base };
        self.set_backend_entry(backend, updated);
    }

    /// Count bytes sent towards a backend.
    pub fn record_backend_bytes_sent(&mut self, backend: &str, bytes: u64)
        requires
            old(self).wf(),
        ensures
            final(self).wf(),
            final(self).spec_backend(backend@) == Some(
                (BackendMetrics {
                    bytes_sent: wrap_add(old(self).backend_or_zero(backend@).bytes_sent, bytes),
                    ..old(self).backend_or_zero(backend@)
                }),
            ),
            forall|k2: Seq<char>|
                k2 != backend@ ==> final(self).spec_backend(k2) == old(self).spec_backend(k2),
            *final(self) == (MetricsCollector {
                backend_metrics: final(self).backend_metrics,
                ..*old(self)
            }),
    {
        let base = self.backend_entry(backend);
        let updated = BackendMetrics { bytes_sent: base.bytes_sent.wrapping_add(bytes), ..base };
        self.set_backend_entry(backend, updated);
    }

    /// Count bytes received from a backend.
    pub fn record_backend_bytes_received(&mut self, backend: &str, bytes: u64)
        requires
            old(self).wf(),
        ensures
            final(self).wf(),
            final(self).spec_backend(backend@) == Some(
                (BackendMetrics {
                    bytes_received: wrap_add(
                        old(self).backend_or_zero(backend@).bytes_received,
                        bytes,
                    ),
                    ..old(self).backend_or_zero(backend@)
                }),
            ),
            forall|k2: Seq<char>|
                k2 != backend@ ==> final(self).spec_backend(k2) == old(self).spec_backend(k2),
            *final(self) == (MetricsCollector {
                backend_metrics: final(self).backend_metrics,
                ..*old(self)
            }),
    {
        let base = self.backend_entry(backend);
        let updated = BackendMetrics {
            bytes_received: base.bytes_received.wrapping_add(bytes),
            ..base
        };
        self.set_backend_entry(backend, updated);
    }

    /// Every backend's counters, for monitoring.
    pub fn get_backend_metrics(&self) -> (r: Vec<(String, BackendMetrics)>)
        ensures
            r@.len() == self.backend_metrics@.len(),
            forall|i: int|
                0 <= i < r@.len() ==> (#[trigger] r@[i]) == (
                    self.backend_metrics@[i].0,
                    self.backend_metrics@[i].1,
                ),
    {
        let ghost target = Seq::new(
            self.backend_metrics@.len(),
            |i: int| (self.backend_metrics@[i].0, self.backend_metrics@[i].1),
        );
        let mut r: Vec<(String, BackendMetrics)> = Vec::new();
        let n = self.backend_metrics.len();
        proof {
            assert(r@ =~= target.take(0));
        }
        let mut i: usize = 0;
        while i < n
            invariant
                n == self.backend_metrics@.len(),
                i <= n,
                target == Seq::new(
                    self.backend_metrics@.len(),
                    |j: int| (self.backend_metrics@[j].0, self.backend_metrics@[j].1),
                ),
                r@ == target.take(i as int),
            decreases n - i,
        {
            let pair = &self.backend_metrics[i];
            r.push((pair.0.clone(), pair.1));
            proof {
                assert(r@ =~= target.take(i + 1));
            }
            i = i + 1;
        }
        proof {
            assert(target.take(n as int) =~= target);
            assert forall|i2: int| 0 <= i2 < r@.len() implies (#[trigger] r@[i2]) == (
                self.backend_metrics@[i2].0,
                self.backend_metrics@[i2].1,
            ) by {
                assert(r@[i2] == target[i2]);
            }
        }
        r
    }

    pub fn record_rate_limit_allowed(&mut self)
        requires
            old(self).wf(),
        ensures
            final(self).wf(),
            *final(self) == (MetricsCollector {
                rate_limit_allowed: wrap_add(old(self).rate_limit_allowed, 1),
                ..*old(self)
            }),
    {
        self.rate_limit_allowed = self.rate_limit_allowed.wrapping_add(1);
    }

    pub fn record_rate_limit_denied(&mut self)
        requires
            old(self).wf(),
        ensures
            final(self).wf(),
            *final(self) == (MetricsCollector {
                rate_limit_denied: wrap_add(old(self).rate_limit_denied, 1),
                ..*old(self)
            }),
    {
        self.rate_limit_denied = self.rate_limit_denied.wrapping_add(1);
    }

    pub fn record_circuit_breaker_open(&mut self)
        requires
            old(self).wf(),
        ensures
            final(self).wf(),
            *final(self) == (MetricsCollector {
                circuit_breaker_open: wrap_add(old(self).circuit_breaker_open, 1),
                ..*old(self)
            }),
    {
        self.circuit_breaker_open = self.circuit_breaker_open.wrapping_add(1);
    }

    pub fn record_circuit_breaker_half_open(&mut self)
        requires
            old(self).wf(),
        ensures
            final(self).wf(),
            *final(self) == (MetricsCollector {
                circuit_breaker_half_open: wrap_add(old(self).circuit_breaker_half_open, 1),
                ..*old(self)
            }),
    {
        self.circuit_breaker_half_open = self.circuit_breaker_half_open.wrapping_add(1);
    }

    /// A reading of every counter, with latency statistics.
    pub fn get_summary(&self) -> (r: MetricsSummary)
        requires
            self.wf(),
        ensures
            r == (MetricsSummary {
                tcp_connections: self.tcp_connections,
                udp_sessions: self.udp_sessions,
                active_tcp_connections: self.active_tcp_connections,
                active_udp_sessions: self.active_udp_sessions,
                bytes_sent: self.bytes_sent,
                bytes_received: self.bytes_received,
                packets_sent: self.packets_sent,
                packets_received: self.packets_received,
                rate_limit_allowed: self.rate_limit_allowed,
                rate_limit_denied: self.rate_limit_denied,
                circuit_breaker_open: self.circuit_breaker_open,
                circuit_breaker_half_open: self.circuit_breaker_half_open,
                latency: spec_latency_stats(self.latency_samples@),
            }),
    {
        MetricsSummary {
            tcp_connections: self.tcp_connections,
            udp_sessions: self.udp_sessions,
            active_tcp_connections: self.active_tcp_connections,
            active_udp_sessions: self.active_udp_sessions,
            bytes_sent: self.bytes_sent,
            bytes_received: self.bytes_received,
            packets_sent: self.packets_sent,
            packets_received: self.packets_received,
            rate_limit_allowed: self.rate_limit_allowed,
            rate_limit_denied: self.rate_limit_denied,
            circuit_breaker_open: self.circuit_breaker_open,
            circuit_breaker_half_open: self.circuit_breaker_half_open,
            latency: self.get_latency_stats(),
        }
    }

    /// The counters currently stored for `backend`, or zeros if none are.
    fn backend_entry(&self, backend: &str) -> (r: BackendMetrics)
        ensures
            r == self.backend_or_zero(backend@),
    {
        match find_key(&self.backend_metrics, backend) {
            Some(i) => self.backend_metrics[i].1,
            None => BackendMetrics::new(),
        }
    }

    /// Store `value` under `backend`, updating the entry in place or
    /// appending a new one.
    fn set_backend_entry(&mut self, backend: &str, value: BackendMetrics)
        requires
            old(self).wf(),
        ensures
            final(self).wf(),
            final(self).spec_backend(backend@) == Some(value),
            forall|k2: Seq<char>|
                k2 != backend@ ==> final(self).spec_backend(k2) == old(self).spec_backend(k2),
            *final(self) == (MetricsCollector {
                backend_metrics: final(self).backend_metrics,
                ..*old(self)
            }),
    {
        match find_key(&self.backend_metrics, backend) {
            Some(i) => {
                let ghost old_entries = self.backend_metrics@;
                let pair = &mut self.backend_metrics[i];
                pair.1 = value;
                proof {
                    self.lemma_updated_backend(old_entries, i as int);
                }
            },
            None => {
                let ghost old_entries = self.backend_metrics@;
                self.backend_metrics.push((backend.to_owned(), value));
                proof {
                    self.lemma_pushed_backend(old_entries, backend@);
                }
            },
        }
    }

    /// After updating the entry at `i` in place (key untouched), lookups of
    /// other keys are unchanged and distinctness survives.
    proof fn lemma_updated_backend(&self, old_entries: Seq<(String, BackendMetrics)>, i: int)
        requires
            distinct_keys(old_entries),
            0 <= i < old_entries.len(),
            self.backend_metrics@.len() == old_entries.len(),
            forall|j: int|
                0 <= j < old_entries.len() ==> self.backend_metrics@[j].0@ == old_entries[j].0@,
            forall|j: int|
                0 <= j < old_entries.len() && j != i ==> self.backend_metrics@[j]
                    == old_entries[j],
        ensures
            distinct_keys(self.backend_metrics@),
            assoc_get(self.backend_metrics@, old_entries[i].0@) == Some(
                self.backend_metrics@[i].1,
            ),
            forall|k2: Seq<char>|
                k2 != old_entries[i].0@ ==> assoc_get(self.backend_metrics@, k2) == assoc_get(
                    old_entries,
                    k2,
                ),
    {
        assert forall|a: int, b: int|
            0 <= a < b < self.backend_metrics@.len() implies self.backend_metrics@[a].0@
            != self.backend_metrics@[b].0@ by {
            assert(self.backend_metrics@[a].0@ == old_entries[a].0@);
            assert(self.backend_metrics@[b].0@ == old_entries[b].0@);
        }
        let k = old_entries[i].0@;
        lemma_key_index_same_keys(self.backend_metrics@, old_entries, k);
        lemma_key_index_is_first_match(self.backend_metrics@, k);
        lemma_key_index_is_first_match(old_entries, k);
        assert forall|k2: Seq<char>| k2 != k implies assoc_get(self.backend_metrics@, k2)
            == assoc_get(old_entries, k2) by {
            lemma_key_index_same_keys(self.backend_metrics@, old_entries, k2);
            lemma_key_index_is_first_match(old_entries, k2);
        }
    }

    /// After pushing an entry with the fresh key `k`, lookups of other keys
    /// are unchanged and distinctness survives.
    proof fn lemma_pushed_backend(&self, old_entries: Seq<(String, BackendMetrics)>, k: Seq<char>)
        requires
            distinct_keys(old_entries),
            !has_key(old_entries, k),
            self.backend_metrics@.len() == old_entries.len() + 1,
            self.backend_metrics@ == old_entries.push(self.backend_metrics@.last()),
            self.backend_metrics@.last().0@ == k,
        ensures
            distinct_keys(self.backend_metrics@),
            assoc_get(self.backend_metrics@, k) == Some(self.backend_metrics@.last().1),
            forall|k2: Seq<char>|
                k2 != k ==> assoc_get(self.backend_metrics@, k2) == assoc_get(old_entries, k2),
    {
        let e = self.backend_metrics@.last();
        lemma_push_distinct(old_entries, e);
        lemma_key_index_push(old_entries, e, k);
        lemma_key_index_is_first_match(old_entries, k);
        assert forall|k2: Seq<char>| k2 != k implies assoc_get(self.backend_metrics@, k2)
            == assoc_get(old_entries, k2) by {
            lemma_key_index_push(old_entries, e, k2);
            lemma_key_index_is_first_match(old_entries, k2);
            lemma_key_index_is_first_match(self.backend_metrics@, k2);
        }
    }
}

impl Default for MetricsCollector {
    /// A collector with every counter at zero.
    fn default() -> (r: Self)
        ensures
            r.wf(),
            r.tcp_connections == 0,
            r.latency_samples@.len() == 0,
            r.backend_metrics@.len() == 0,
    {
        MetricsCollector::new()
    }
}

/// Sample sums are non-negative and bounded by the count of samples times
/// the largest sample value.
pub proof fn lemma_sum_seq_bounds(s: Seq<u64>)
    ensures
        0 <= sum_seq(s) <= s.len() * 0xFFFF_FFFF_FFFF_FFFF,
    decreases s.len(),
{
    if s.len() > 0 {
        lemma_sum_seq_bounds(s.drop_last());
        assert((s.len() - 1) * 0xFFFF_FFFF_FFFF_FFFF + 0xFFFF_FFFF_FFFF_FFFF == s.len()
            * 0xFFFF_FFFF_FFFF_FFFF) by (nonlinear_arith);
    }
}

} // verus!
