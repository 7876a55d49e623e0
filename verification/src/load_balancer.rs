//! Backend selection: four strategies sharing one healthy-subset view and
//! per-backend connection counters.

use vstd::arithmetic::div_mod::{
    lemma_fundamental_div_mod, lemma_fundamental_div_mod_converse_mod, lemma_mod_bound,
};
use vstd::prelude::*;

use crate::config::Backend;
use crate::keyed::str_eq;

verus! {

/// Load-balancing algorithms for distributing traffic across backends.
#[derive(Debug, Clone, Copy, PartialEq, Eq, Structural)]
pub enum Algorithm {
    RoundRobin,
    LeastConnections,
    WeightedRoundRobin,
    ConsistentHash,
}

impl Algorithm {
    /// The algorithm a configuration tag names; unknown tags fall back to
    /// round-robin.
    pub open spec fn spec_from_str(s: Seq<char>) -> Algorithm {
        if s == "least_connections"@ {
            Algorithm::LeastConnections
        } else if s == "weighted_round_robin"@ || s == "weighted"@ {
            Algorithm::WeightedRoundRobin
        } else if s == "consistent_hash"@ {
            Algorithm::ConsistentHash
        } else {
            Algorithm::RoundRobin
        }
    }

    pub fn from_str(s: &str) -> (r: Algorithm)
        ensures
            r == Algorithm::spec_from_str(s@),
    {
        if str_eq(s, "least_connections") {
            Algorithm::LeastConnections
        } else if str_eq(s, "weighted_round_robin") || str_eq(s, "weighted") {
            Algorithm::WeightedRoundRobin
        } else if str_eq(s, "consistent_hash") {
            Algorithm::ConsistentHash
        } else {
            Algorithm::RoundRobin
        }
    }
}

/// A backend together with its live-connection counter, used by the
/// least-connections strategy.
#[derive(Debug)]
pub struct BackendWithStats {
    pub backend: Backend,
    pub active_connections: u64,
}

impl Clone for BackendWithStats {
    fn clone(&self) -> (res: Self)
        ensures
            res == *self,
    {
        BackendWithStats {
            backend: self.backend.clone(),
            active_connections: self.active_connections,
        }
    }
}

/// Offset basis of the 64-bit FNV-1a hash.
pub const FNV_OFFSET: u64 = 0xcbf29ce484222325;

/// Prime of the 64-bit FNV-1a hash.
pub const FNV_PRIME: u64 = 0x100000001b3;

/// FNV-1a over the first `m` characters: fold each character into the hash
/// with xor, then multiply by the prime, keeping the low 64 bits.
pub open spec fn fnv1a_prefix(s: Seq<char>, m: int) -> u64
    decreases m,
{
    if m <= 0 {
        FNV_OFFSET
    } else {
        ((((fnv1a_prefix(s, m - 1) ^ (s[m - 1] as u64)) as u128) * (FNV_PRIME as u128)) as u64)
    }
}

/// The 64-bit FNV-1a hash of a string, used to give consistent hashing a
/// context hash that is stable across calls.
pub open spec fn fnv1a(s: Seq<char>) -> u64 {
    fnv1a_prefix(s, s.len() as int)
}

/// Hash a selection context.
#[verifier::loop_isolation(false)]
pub fn hash_context(s: &str) -> (h: u64)
    ensures
        h == fnv1a(s@),
{
    let n = s.unicode_len();
    let mut h: u64 = FNV_OFFSET;
    let mut i: usize = 0;
    while i < n
        invariant
            i <= n,
            h == fnv1a_prefix(s@, i as int),
        decreases n - i,
    {
        let c = s.get_char(i);
        let mixed: u64 = h ^ (c as u64);
        proof {
            assert((mixed as int) * (FNV_PRIME as int)
                < 0x1_0000_0000_0000_0000_0000_0000_0000_0000int) by (nonlinear_arith)
                requires
                    mixed <= 0xFFFF_FFFF_FFFF_FFFFu64,
            ;
        }
        let prod: u128 = (mixed as u128) * (FNV_PRIME as u128);
        h = #[verifier::truncate] (prod as u64);
        proof {
            assert(h == fnv1a_prefix(s@, i + 1));
        }
        i = i + 1;
    }
    h
}

/// The indices below `m` of healthy backends, in order.
pub open spec fn healthy_prefix(s: Seq<BackendWithStats>, m: int) -> Seq<usize>
    decreases m,
{
    if m <= 0 {
        Seq::empty()
    } else {
        let rest = healthy_prefix(s, m - 1);
        if s[m - 1].backend.healthy {
            rest.push((m - 1) as usize)
        } else {
            rest
        }
    }
}

/// The healthy subset, as indices into the backend vector, in order.
pub open spec fn healthy_idxs(s: Seq<BackendWithStats>) -> Seq<usize> {
    healthy_prefix(s, s.len() as int)
}

/// Entries of the healthy index list are in range, healthy, and strictly
/// increasing; the list is no longer than the prefix; every healthy index
/// below `m` is listed.
pub proof fn lemma_healthy_prefix_props(s: Seq<BackendWithStats>, m: int)
    requires
        0 <= m <= s.len(),
        s.len() <= usize::MAX as int,
    ensures
        healthy_prefix(s, m).len() <= m,
        forall|j: int|
            0 <= j < healthy_prefix(s, m).len() ==> (#[trigger] healthy_prefix(s, m)[j]) < m
                && s[healthy_prefix(s, m)[j] as int].backend.healthy,
        forall|j1: int, j2: int|
            0 <= j1 < j2 < healthy_prefix(s, m).len() ==> healthy_prefix(s, m)[j1]
                < healthy_prefix(s, m)[j2],
        forall|i: int|
            0 <= i < m && s[i].backend.healthy ==> exists|j: int|
                0 <= j < healthy_prefix(s, m).len() && healthy_prefix(s, m)[j] == i as usize,
    decreases m,
{
    if m > 0 {
        lemma_healthy_prefix_props(s, m - 1);
        let rest = healthy_prefix(s, m - 1);
        let hp = healthy_prefix(s, m);
        if s[m - 1].backend.healthy {
            assert(hp == rest.push((m - 1) as usize));
            assert forall|j: int| 0 <= j < hp.len() implies (#[trigger] hp[j]) < m && s[hp[j] as int].backend.healthy by {
                if j < rest.len() {
                    assert(hp[j] == rest[j]);
                } else {
                    assert(hp[j] == (m - 1) as usize);
                }
            }
            assert forall|j1: int, j2: int| 0 <= j1 < j2 < hp.len() implies hp[j1] < hp[j2] by {
                assert(hp[j1] == rest[j1]);
                if j2 < rest.len() {
                    assert(hp[j2] == rest[j2]);
                } else {
                    assert(hp[j2] == (m - 1) as usize);
                    assert(rest[j1] < m - 1);
                }
            }
            assert forall|i: int| 0 <= i < m && s[i].backend.healthy implies exists|j: int|
                0 <= j < hp.len() && hp[j] == i as usize by {
                if i == m - 1 {
                    assert(hp[rest.len() as int] == (m - 1) as usize);
                } else {
                    let j = choose|j: int| 0 <= j < rest.len() && rest[j] == i as usize;
                    assert(hp[j] == i as usize);
                }
            }
        }
    }
}

/// The sum of the weights of the first `m` healthy backends.
pub open spec fn weight_sum(s: Seq<BackendWithStats>, hs: Seq<usize>, m: int) -> int
    decreases m,
{
    if m <= 0 {
        0
    } else {
        weight_sum(s, hs, m - 1) + s[hs[m - 1] as int].backend.weight
    }
}

/// With non-negative weights, partial weight sums are non-negative, grow
/// with `m`, and stay below `m` times the largest single weight.
pub proof fn lemma_weight_sum_bounds(s: Seq<BackendWithStats>, hs: Seq<usize>, m: int)
    requires
        0 <= m <= hs.len(),
        forall|j: int| 0 <= j < hs.len() ==> (#[trigger] hs[j]) < s.len(),
        forall|i: int| 0 <= i < s.len() ==> (#[trigger] s[i].backend.weight) >= 0,
    ensures
        0 <= weight_sum(s, hs, m) <= m * 0x7FFF_FFFF,
        forall|m1: int, m2: int|
            0 <= m1 <= m2 <= m ==> weight_sum(s, hs, m1) <= weight_sum(s, hs, m2),
    decreases m,
{
    if m > 0 {
        lemma_weight_sum_bounds(s, hs, m - 1);
        assert((m - 1) * 0x7FFF_FFFF + 0x7FFF_FFFF == m * 0x7FFF_FFFF) by (nonlinear_arith);
        assert(s[hs[m - 1] as int].backend.weight >= 0);
        assert forall|m1: int, m2: int|
            0 <= m1 <= m2 <= m implies weight_sum(s, hs, m1) <= weight_sum(s, hs, m2) by {
            if m2 == m && m1 < m {
                assert(weight_sum(s, hs, m1) <= weight_sum(s, hs, m - 1));
            }
        }
    }
}

/// The position (within the healthy list) of the first backend with the
/// fewest active connections among the first `m`.
pub open spec fn argmin_upto(s: Seq<BackendWithStats>, hs: Seq<usize>, m: int) -> int
    decreases m,
{
    if m <= 1 {
        0
    } else {
        let p = argmin_upto(s, hs, m - 1);
        if s[hs[m - 1] as int].active_connections < s[hs[p] as int].active_connections {
            m - 1
        } else {
            p
        }
    }
}

/// The argmin position is in range.
pub proof fn lemma_argmin_range(s: Seq<BackendWithStats>, hs: Seq<usize>, m: int)
    requires
        m >= 1,
    ensures
        0 <= argmin_upto(s, hs, m) < m,
    decreases m,
{
    if m > 1 {
        lemma_argmin_range(s, hs, m - 1);
    }
}

/// The position (within the healthy list) of the backend whose cumulative
/// weight range contains `k`, scanning from position `j`.
pub open spec fn wrr_pos_from(s: Seq<BackendWithStats>, hs: Seq<usize>, k: int, j: int) -> int
    decreases hs.len() - j,
{
    if j < 0 || j >= hs.len() {
        j
    } else if k < weight_sum(s, hs, j + 1) {
        j
    } else {
        wrr_pos_from(s, hs, k, j + 1)
    }
}

/// The weighted pick for `k` below the total weight: the scan stops at a
/// position in range whose cumulative weight range contains `k`.
pub proof fn lemma_wrr_pos_props(s: Seq<BackendWithStats>, hs: Seq<usize>, k: int, j: int)
    requires
        0 <= j <= hs.len(),
        weight_sum(s, hs, j) <= k < weight_sum(s, hs, hs.len() as int),
        forall|m1: int, m2: int|
            0 <= m1 <= m2 <= hs.len() ==> weight_sum(s, hs, m1) <= weight_sum(s, hs, m2),
    ensures
        j <= wrr_pos_from(s, hs, k, j) < hs.len(),
        weight_sum(s, hs, wrr_pos_from(s, hs, k, j)) <= k < weight_sum(
            s,
            hs,
            wrr_pos_from(s, hs, k, j) + 1,
        ),
    decreases hs.len() - j,
{
    if j < hs.len() && !(k < weight_sum(s, hs, j + 1)) {
        lemma_wrr_pos_props(s, hs, k, j + 1);
    }
}

/// Distributes traffic across a backend vector under one of four
/// strategies. The round-robin counter is shared by the round-robin and
/// weighted strategies, and advances once per selection that consults it.
pub struct LoadBalancer {
    pub backends: Vec<BackendWithStats>,
    pub algorithm: Algorithm,
    pub round_robin_counter: u64,
}

impl LoadBalancer {
    /// Weights are non-negative and the vector is small enough that weight
    /// sums cannot overflow.
    pub open spec fn wf(self) -> bool {
        &&& self.backends@.len() <= 0xFFFF_FFFF
        &&& forall|i: int|
            0 <= i < self.backends@.len() ==> (#[trigger] self.backends@[i].backend.weight) >= 0
    }

    /// The healthy subset of this balancer's backends, as indices.
    pub open spec fn spec_healthy(self) -> Seq<usize> {
        healthy_idxs(self.backends@)
    }

    /// The balancer after one counter advance (the counter wraps).
    pub open spec fn spec_advance(self) -> LoadBalancer {
        LoadBalancer {
            round_robin_counter: if self.round_robin_counter == 0xFFFF_FFFF_FFFF_FFFFu64 {
                0
            } else {
                (self.round_robin_counter + 1) as u64
            },
            ..self
        }
    }

    /// The round-robin pick over the healthy list `hs`: position counter
    /// modulo healthy count.
    pub open spec fn spec_rr_pick(self, hs: Seq<usize>) -> Backend {
        self.backends@[hs[self.round_robin_counter as int % hs.len() as int] as int].backend
    }

    /// What one selection does: the balancer after the call and the chosen
    /// backend.
    ///
    /// With no healthy backend the selection returns nothing, whatever the
    /// algorithm. Round-robin cycles the counter over the healthy list.
    /// Least-connections takes the first backend with the fewest active
    /// connections. Weighted round-robin resolves the counter modulo the
    /// weight sum against cumulative weights, falling back to round-robin
    /// when the weights sum to zero. Consistent hashing resolves the hashed
    /// context modulo the healthy count, falling back to round-robin when no
    /// context is given.
    pub open spec fn spec_select(self, context: Option<Seq<char>>) -> (LoadBalancer, Option<
        Backend,
    >) {
        let hs = self.spec_healthy();
        if hs.len() == 0 {
            (self, None)
        } else {
            match self.algorithm {
                Algorithm::RoundRobin => (self.spec_advance(), Some(self.spec_rr_pick(hs))),
                Algorithm::LeastConnections => (
                    self,
                    Some(
                        self.backends@[hs[argmin_upto(
                            self.backends@,
                            hs,
                            hs.len() as int,
                        )] as int].backend,
                    ),
                ),
                Algorithm::WeightedRoundRobin => {
                    let w = weight_sum(self.backends@, hs, hs.len() as int);
                    if w == 0 {
                        (self.spec_advance(), Some(self.spec_rr_pick(hs)))
                    } else {
                        let k = self.round_robin_counter as int % w;
                        (
                            self.spec_advance(),
                            Some(
                                self.backends@[hs[wrr_pos_from(
                                    self.backends@,
                                    hs,
                                    k,
                                    0,
                                )] as int].backend,
                            ),
                        )
                    }
                },
                Algorithm::ConsistentHash => match context {
                    None => (self.spec_advance(), Some(self.spec_rr_pick(hs))),
                    Some(c) => (
                        self,
                        Some(self.backends@[hs[fnv1a(c) as int % hs.len() as int] as int].backend),
                    ),
                },
            }
        }
    }

    pub fn new(backends: Vec<Backend>, algorithm: String) -> (r: LoadBalancer)
        requires
            backends@.len() <= 0xFFFF_FFFF,
            forall|i: int| 0 <= i < backends@.len() ==> (#[trigger] backends@[i].weight) >= 0,
        ensures
            r.backends@.len() == backends@.len(),
            forall|i: int|
                0 <= i < backends@.len() ==> #[trigger] r.backends@[i] == (BackendWithStats {
                    backend: backends@[i],
                    active_connections: 0u64,
                }),
            r.algorithm == Algorithm::spec_from_str(algorithm@),
            r.round_robin_counter == 0,
            r.wf(),
    {
        let mut with_stats: Vec<BackendWithStats> = Vec::new();
        let n = backends.len();
        let ghost target = Seq::new(
            backends@.len(),
            |i: int| BackendWithStats { backend: backends@[i], active_connections: 0u64 },
        );
        proof {
            assert(with_stats@ =~= target.take(0));
        }
        let mut i: usize = 0;
        while i < n
            invariant
                n == backends@.len(),
                i <= n,
                target == Seq::new(
                    backends@.len(),
                    |j: int| BackendWithStats { backend: backends@[j], active_connections: 0u64 },
                ),
                with_stats@ == target.take(i as int),
            decreases n - i,
        {
            with_stats.push(BackendWithStats { backend: backends[i].clone(), active_connections: 0 });
            proof {
                assert(with_stats@ =~= target.take(i + 1));
            }
            i = i + 1;
        }
        proof {
            assert(target.take(n as int) =~= target);
        }
        LoadBalancer {
            backends: with_stats,
            algorithm: Algorithm::from_str(algorithm.as_str()),
            round_robin_counter: 0,
        }
    }

    /// The healthy subset, snapshotted as indices into the backend vector.
    fn healthy_list(&self) -> (hs: Vec<usize>)
        ensures
            hs@ == self.spec_healthy(),
    {
        let mut hs: Vec<usize> = Vec::new();
        let n = self.backends.len();
        let mut i: usize = 0;
        while i < n
            invariant
                n == self.backends@.len(),
                i <= n,
                hs@ == healthy_prefix(self.backends@, i as int),
            decreases n - i,
        {
            if self.backends[i].backend.healthy {
                hs.push(i);
            }
            i = i + 1;
        }
        hs
    }

    /// Select a backend under the configured algorithm.
    pub fn select_backend(&mut self) -> (r: Option<Backend>)
        requires
            old(self).wf(),
        ensures
            final(self).wf(),
            (*final(self), r) == old(self).spec_select(None::<Seq<char>>),
    {
        self.select_backend_with_context(None)
    }

    /// Select a backend, with an optional context (such as the client's IP)
    /// for consistent hashing.
    pub fn select_backend_with_context(&mut self, context: Option<&str>) -> (r: Option<Backend>)
        requires
            old(self).wf(),
        ensures
            final(self).wf(),
            (*final(self), r) == old(self).spec_select(
                match context {
                    Some(c) => Some(c@),
                    None => None::<Seq<char>>,
                },
            ),
    {
        let hs = self.healthy_list();
        if hs.len() == 0 {
            return None;
        }
        let total = self.backends.len();
        proof {
            lemma_healthy_prefix_props(self.backends@, total as int);
        }
        match self.algorithm {
            Algorithm::RoundRobin => Some(self.round_robin(&hs)),
            Algorithm::LeastConnections => Some(self.least_connections(&hs)),
            Algorithm::WeightedRoundRobin => Some(self.weighted_round_robin(&hs)),
            Algorithm::ConsistentHash => match context {
                Some(c) => {
                    let h = hash_context(c);
                    let idx = (h % (hs.len() as u64)) as usize;
                    Some(self.backends[hs[idx]].backend.clone())
                },
                None => Some(self.round_robin(&hs)),
            },
        }
    }

    /// Advance the shared counter and pick its position in the healthy list.
    fn round_robin(&mut self, hs: &Vec<usize>) -> (r: Backend)
        requires
            old(self).wf(),
            hs@ == old(self).spec_healthy(),
            hs@.len() > 0,
        ensures
            final(self).wf(),
            *final(self) == old(self).spec_advance(),
            r == old(self).spec_rr_pick(hs@),
    {
        let total = self.backends.len();
        proof {
            lemma_healthy_prefix_props(self.backends@, total as int);
        }
        let idx = (self.round_robin_counter % (hs.len() as u64)) as usize;
        let picked = self.backends[hs[idx]].backend.clone();
        if self.round_robin_counter == 0xFFFF_FFFF_FFFF_FFFF {
            self.round_robin_counter = 0;
        } else {
            self.round_robin_counter = self.round_robin_counter + 1;
        }
        picked
    }

    /// Pick the first healthy backend with the fewest active connections.
    #[verifier::loop_isolation(false)]
    fn least_connections(&mut self, hs: &Vec<usize>) -> (r: Backend)
        requires
            old(self).wf(),
            hs@ == old(self).spec_healthy(),
            hs@.len() > 0,
        ensures
            *final(self) == *old(self),
            r == old(self).backends@[hs@[argmin_upto(
                old(self).backends@,
                hs@,
                hs@.len() as int,
            )] as int].backend,
    {
        let total = self.backends.len();
        proof {
            lemma_healthy_prefix_props(self.backends@, total as int);
            lemma_argmin_range(self.backends@, hs@, hs@.len() as int);
        }
        let n = hs.len();
        let mut best: usize = 0;
        let mut j: usize = 1;
        while j < n
            invariant
                1 <= j <= n,
                best == argmin_upto(self.backends@, hs@, j as int),
                best < j,
            decreases n - j,
        {
            proof {
                lemma_argmin_range(self.backends@, hs@, j as int);
            }
            if self.backends[hs[j]].active_connections
                < self.backends[hs[best]].active_connections {
                best = j;
            }
            j = j + 1;
        }
        self.backends[hs[best]].backend.clone()
    }

    /// Resolve the advanced counter against cumulative weights; weight sum
    /// zero falls back to round-robin.
    #[verifier::loop_isolation(false)]
    fn weighted_round_robin(&mut self, hs: &Vec<usize>) -> (r: Backend)
        requires
            old(self).wf(),
            hs@ == old(self).spec_healthy(),
            hs@.len() > 0,
        ensures
            final(self).wf(),
            *final(self) == old(self).spec_advance(),
            ({
                let w = weight_sum(old(self).backends@, hs@, hs@.len() as int);
                if w == 0 {
                    r == old(self).spec_rr_pick(hs@)
                } else {
                    r == old(self).backends@[hs@[wrr_pos_from(
                        old(self).backends@,
                        hs@,
                        old(self).round_robin_counter as int % w,
                        0,
                    )] as int].backend
                }
            }),
    {
        let total = self.backends.len();
        proof {
            lemma_healthy_prefix_props(self.backends@, total as int);
            lemma_weight_sum_bounds(self.backends@, hs@, hs@.len() as int);
        }
        let n = hs.len();
        let mut total_weight: u64 = 0;
        let mut j: usize = 0;
        while j < n
            invariant
                j <= n,
                total_weight == weight_sum(self.backends@, hs@, j as int),
            decreases n - j,
        {
            proof {
                lemma_weight_sum_bounds(self.backends@, hs@, j + 1);
            }
            total_weight = total_weight + (self.backends[hs[j]].backend.weight as u64);
            j = j + 1;
        }
        if total_weight == 0 {
            return self.round_robin(hs);
        }
        let ghost pick = wrr_pos_from(
            self.backends@,
            hs@,
            self.round_robin_counter as int % total_weight as int,
            0,
        );
        let k = self.round_robin_counter % total_weight;
        if self.round_robin_counter == 0xFFFF_FFFF_FFFF_FFFF {
            self.round_robin_counter = 0;
        } else {
            self.round_robin_counter = self.round_robin_counter + 1;
        }
        proof {
            lemma_wrr_pos_props(self.backends@, hs@, k as int, 0);
        }
        let mut cumulative: u64 = 0;
        let mut j: usize = 0;
        while j < n
            invariant
                j <= n,
                cumulative == weight_sum(self.backends@, hs@, j as int),
                k >= weight_sum(self.backends@, hs@, j as int),
                wrr_pos_from(self.backends@, hs@, k as int, j as int) == pick,
                j <= pick,
            decreases n - j,
        {
            proof {
                lemma_weight_sum_bounds(self.backends@, hs@, j + 1);
                lemma_wrr_pos_props(self.backends@, hs@, k as int, j as int);
            }
            cumulative = cumulative + (self.backends[hs[j]].backend.weight as u64);
            if k < cumulative {
                return self.backends[hs[j]].backend.clone();
            }
            j = j + 1;
        }
        proof {
            assert(false);
        }
        self.backends[hs[0]].backend.clone()
    }

    /// Count one more active connection on the first backend with the given
    /// address; unknown addresses are tolerated silently.
    #[verifier::loop_isolation(false)]
    pub fn increment_connections(&mut self, backend_addr: &str)
        requires
            old(self).wf(),
        ensures
            final(self).wf(),
            final(self).algorithm == old(self).algorithm,
            final(self).round_robin_counter == old(self).round_robin_counter,
            final(self).backends@.len() == old(self).backends@.len(),
            ({
                let s = old(self).backends@;
                match first_addr_index(s, backend_addr@) {
                    Some(i) => final(self).backends@ == s.update(
                        i,
                        BackendWithStats {
                            active_connections: wrap_inc(s[i].active_connections),
                            ..s[i]
                        },
                    ),
                    None => final(self).backends@ == s,
                }
            }),
    {
        let n = self.backends.len();
        let mut i: usize = 0;
        while i < n
            invariant
                i <= n,
                *self == *old(self),
                forall|j: int| 0 <= j < i ==> (#[trigger] self.backends@[j].backend.address@)
                    != backend_addr@,
            decreases n - i,
        {
            if str_eq(self.backends[i].backend.address.as_str(), backend_addr) {
                let ghost s = self.backends@;
                let current = self.backends[i].active_connections;
                let bumped: u64 = if current == 0xFFFF_FFFF_FFFF_FFFF {
                    0
                } else {
                    current + 1
                };
                let pair = &mut self.backends[i];
                pair.active_connections = bumped;
                proof {
                    lemma_first_addr_index(s, backend_addr@, i as int);
                }
                return ;
            }
            i = i + 1;
        }
        proof {
            lemma_no_addr_index(self.backends@, backend_addr@);
        }
    }

    /// Count one less active connection on the first backend with the given
    /// address; unknown addresses are tolerated silently.
    #[verifier::loop_isolation(false)]
    pub fn decrement_connections(&mut self, backend_addr: &str)
        requires
            old(self).wf(),
        ensures
            final(self).wf(),
            final(self).algorithm == old(self).algorithm,
            final(self).round_robin_counter == old(self).round_robin_counter,
            final(self).backends@.len() == old(self).backends@.len(),
            ({
                let s = old(self).backends@;
                match first_addr_index(s, backend_addr@) {
                    Some(i) => final(self).backends@ == s.update(
                        i,
                        BackendWithStats {
                            active_connections: wrap_dec(s[i].active_connections),
                            ..s[i]
                        },
                    ),
                    None => final(self).backends@ == s,
                }
            }),
    {
        let n = self.backends.len();
        let mut i: usize = 0;
        while i < n
            invariant
                i <= n,
                *self == *old(self),
                forall|j: int| 0 <= j < i ==> (#[trigger] self.backends@[j].backend.address@)
                    != backend_addr@,
            decreases n - i,
        {
            if str_eq(self.backends[i].backend.address.as_str(), backend_addr) {
                let ghost s = self.backends@;
                let current = self.backends[i].active_connections;
                let dropped: u64 = if current == 0 {
                    0xFFFF_FFFF_FFFF_FFFF
                } else {
                    current - 1
                };
                let pair = &mut self.backends[i];
                pair.active_connections = dropped;
                proof {
                    lemma_first_addr_index(s, backend_addr@, i as int);
                }
                return ;
            }
            i = i + 1;
        }
        proof {
            lemma_no_addr_index(self.backends@, backend_addr@);
        }
    }

    /// Replace the backend list from the control plane; connection counters
    /// start at zero.
    pub fn update_backends(&mut self, backends: Vec<Backend>)
        requires
            old(self).wf(),
            backends@.len() <= 0xFFFF_FFFF,
            forall|i: int| 0 <= i < backends@.len() ==> (#[trigger] backends@[i].weight) >= 0,
        ensures
            final(self).wf(),
            final(self).algorithm == old(self).algorithm,
            final(self).round_robin_counter == old(self).round_robin_counter,
            final(self).backends@.len() == backends@.len(),
            forall|i: int|
                0 <= i < backends@.len() ==> #[trigger] final(self).backends@[i]
                    == (BackendWithStats { backend: backends@[i], active_connections: 0u64 }),
    {
        let replacement = LoadBalancer::new(backends, String::new());
        self.backends = replacement.backends;
    }

    /// Each backend's address and active-connection count, for monitoring.
    pub fn get_backend_stats(&self) -> (r: Vec<(String, u64)>)
        ensures
            r@.len() == self.backends@.len(),
            forall|i: int|
                0 <= i < r@.len() ==> (#[trigger] r@[i]) == (
                    self.backends@[i].backend.address,
                    self.backends@[i].active_connections,
                ),
    {
        let ghost target = Seq::new(
            self.backends@.len(),
            |i: int| (self.backends@[i].backend.address, self.backends@[i].active_connections),
        );
        let mut r: Vec<(String, u64)> = Vec::new();
        let n = self.backends.len();
        proof {
            assert(r@ =~= target.take(0));
        }
        let mut i: usize = 0;
        while i < n
            invariant
                n == self.backends@.len(),
                i <= n,
                target == Seq::new(
                    self.backends@.len(),
                    |j: int|
                        (self.backends@[j].backend.address, self.backends@[j].active_connections),
                ),
                r@ == target.take(i as int),
            decreases n - i,
        {
            r.push((self.backends[i].backend.address.clone(), self.backends[i].active_connections));
            proof {
                assert(r@ =~= target.take(i + 1));
            }
            i = i + 1;
        }
        proof {
            assert(target.take(n as int) =~= target);
            assert forall|i2: int| 0 <= i2 < r@.len() implies (#[trigger] r@[i2]) == (
                self.backends@[i2].backend.address,
                self.backends@[i2].active_connections,
            ) by {
                assert(r@[i2] == target[i2]);
            }
        }
        r
    }
}

/// A connection counter after one increment, wrapping as an atomic add.
pub open spec fn wrap_inc(c: u64) -> u64 {
    if c == 0xFFFF_FFFF_FFFF_FFFFu64 {
        0
    } else {
        (c + 1) as u64
    }
}

/// A connection counter after one decrement, wrapping as an atomic subtract.
pub open spec fn wrap_dec(c: u64) -> u64 {
    if c == 0 {
        0xFFFF_FFFF_FFFF_FFFFu64
    } else {
        (c - 1) as u64
    }
}

/// The index of the first backend carrying the given address, if any.
pub open spec fn first_addr_index(s: Seq<BackendWithStats>, addr: Seq<char>) -> Option<int> {
    let i = addr_scan(s, addr);
    if i < s.len() {
        Some(i)
    } else {
        None
    }
}

/// Index of the first backend whose address reads `addr`; the length if
/// none does.
pub open spec fn addr_scan(s: Seq<BackendWithStats>, addr: Seq<char>) -> int
    decreases s.len(),
{
    if s.len() == 0 {
        0
    } else if s[0].backend.address@ == addr {
        0
    } else {
        1 + addr_scan(s.drop_first(), addr)
    }
}

proof fn lemma_addr_scan_first(s: Seq<BackendWithStats>, addr: Seq<char>)
    ensures
        0 <= addr_scan(s, addr) <= s.len(),
        addr_scan(s, addr) < s.len() ==> s[addr_scan(s, addr)].backend.address@ == addr,
        forall|j: int| 0 <= j < addr_scan(s, addr) ==> s[j].backend.address@ != addr,
    decreases s.len(),
{
    if s.len() > 0 && s[0].backend.address@ != addr {
        lemma_addr_scan_first(s.drop_first(), addr);
        assert forall|j: int| 0 <= j < addr_scan(s, addr) implies s[j].backend.address@ != addr by {
            if j > 0 {
                assert(s[j] == s.drop_first()[j - 1]);
            }
        }
    }
}

/// If entries before `i` miss the address and entry `i` carries it, `i` is
/// the first match.
proof fn lemma_first_addr_index(s: Seq<BackendWithStats>, addr: Seq<char>, i: int)
    requires
        0 <= i < s.len(),
        s[i].backend.address@ == addr,
        forall|j: int| 0 <= j < i ==> s[j].backend.address@ != addr,
    ensures
        first_addr_index(s, addr) == Some(i),
{
    lemma_addr_scan_first(s, addr);
}

/// If no entry carries the address, the scan misses.
proof fn lemma_no_addr_index(s: Seq<BackendWithStats>, addr: Seq<char>)
    requires
        forall|j: int| 0 <= j < s.len() ==> s[j].backend.address@ != addr,
    ensures
        first_addr_index(s, addr) == None::<int>,
{
    lemma_addr_scan_first(s, addr);
}

/// The balancer and its picks after `n` successive selections with the
/// same context.
pub open spec fn selections(lb: LoadBalancer, context: Option<Seq<char>>, n: int) -> (
    LoadBalancer,
    Seq<Option<Backend>>,
)
    decreases n,
{
    if n <= 0 {
        (lb, Seq::<Option<Backend>>::empty())
    } else {
        let (lb1, picks) = selections(lb, context, n - 1);
        let (lb2, r) = lb1.spec_select(context);
        (lb2, picks.push(r))
    }
}

/// A run of round-robin selections: the counter advances once per call and
/// the `t`-th call picks healthy position `(counter + t) mod k`.
proof fn lemma_rr_run(lb: LoadBalancer, context: Option<Seq<char>>, n: int)
    requires
        lb.wf(),
        lb.algorithm == Algorithm::RoundRobin,
        lb.spec_healthy().len() >= 1,
        n >= 0,
        lb.round_robin_counter + n <= 0xFFFF_FFFF_FFFF_FFFFu64,
    ensures
        selections(lb, context, n).0 == (LoadBalancer {
            round_robin_counter: (lb.round_robin_counter + n) as u64,
            ..lb
        }),
        selections(lb, context, n).1.len() == n,
        forall|j: int|
            0 <= j < n ==> selections(lb, context, n).1[j] == Some(
                lb.backends@[lb.spec_healthy()[(lb.round_robin_counter + j) % (
                lb.spec_healthy().len() as int)] as int].backend,
            ),
    decreases n,
{
    if n > 0 {
        lemma_rr_run(lb, context, n - 1);
        let (lb1, picks) = selections(lb, context, n - 1);
        assert(lb1.spec_healthy() == lb.spec_healthy());
    }
}

/// Round-robin coverage: with `k` healthy backends, `k` consecutive
/// selections pick the healthy positions `(counter + j) mod k`, which are
/// pairwise distinct and reach every healthy position — each healthy
/// backend is selected exactly once.
pub proof fn lemma_round_robin_cycle_covers(lb: LoadBalancer, context: Option<Seq<char>>)
    requires
        lb.wf(),
        lb.algorithm == Algorithm::RoundRobin,
        lb.spec_healthy().len() >= 1,
        lb.round_robin_counter + lb.spec_healthy().len() <= 0xFFFF_FFFF_FFFF_FFFFu64,
    ensures
        ({
            let hs = lb.spec_healthy();
            let k = hs.len() as int;
            let c = lb.round_robin_counter as int;
            let picks = selections(lb, context, k).1;
            &&& picks.len() == k
            &&& forall|j: int|
                0 <= j < k ==> picks[j] == Some(lb.backends@[hs[(c + j) % k] as int].backend)
            &&& forall|j1: int, j2: int|
                0 <= j1 < j2 < k ==> #[trigger] ((c + j1) % k) != #[trigger] ((c + j2) % k)
            &&& forall|i: int|
                0 <= i < k ==> 0 <= (i - c) % k < k && picks[(i - c) % k] == Some(
                    lb.backends@[#[trigger] hs[i] as int].backend,
                )
        }),
{
    let hs = lb.spec_healthy();
    let k = hs.len() as int;
    let c = lb.round_robin_counter as int;
    lemma_rr_run(lb, context, k);
    assert forall|j1: int, j2: int| 0 <= j1 < j2 < k implies #[trigger] ((c + j1) % k)
        != #[trigger] ((c + j2) % k) by {
        lemma_fundamental_div_mod(c + j1, k);
        lemma_fundamental_div_mod(c + j2, k);
        if (c + j1) % k == (c + j2) % k {
            let q1 = (c + j1) / k;
            let q2 = (c + j2) / k;
            assert(false) by (nonlinear_arith)
                requires
                    c + j1 == k * q1 + (c + j1) % k,
                    c + j2 == k * q2 + (c + j2) % k,
                    (c + j1) % k == (c + j2) % k,
                    0 < j2 - j1 < k,
            ;
        }
    }
    let picks = selections(lb, context, k).1;
    assert forall|i: int| 0 <= i < k implies 0 <= (i - c) % k < k && picks[(i - c) % k] == Some(
        lb.backends@[#[trigger] hs[i] as int].backend,
    ) by {
        lemma_fundamental_div_mod(i - c, k);
        lemma_mod_bound(i - c, k);
        let q = (i - c) / k;
        let r = (i - c) % k;
        assert(c + r == (-q) * k + i) by (nonlinear_arith)
            requires
                i - c == k * q + r,
        ;
        lemma_fundamental_div_mod_converse_mod(c + r, k, -q, i);
        assert((c + r) % k == i);
        assert(picks[r] == Some(lb.backends@[hs[(c + r) % k] as int].backend));
    }
}

/// How many of `n` successive weighted selections, starting at counter
/// `c`, pick healthy position `target`, when the weights sum to `w`.
pub open spec fn count_picks(
    s: Seq<BackendWithStats>,
    hs: Seq<usize>,
    w: int,
    c: int,
    n: int,
    target: int,
) -> int
    decreases n,
{
    if n <= 0 {
        0
    } else {
        count_picks(s, hs, w, c, n - 1, target) + if wrr_pos_from(s, hs, (c + n - 1) % w, 0)
            == target {
            1int
        } else {
            0int
        }
    }
}

/// How many residues below `n` the weighted scan sends to `target`.
spec fn count_res(s: Seq<BackendWithStats>, hs: Seq<usize>, n: int, target: int) -> int
    decreases n,
{
    if n <= 0 {
        0
    } else {
        count_res(s, hs, n - 1, target) + if wrr_pos_from(s, hs, n - 1, 0) == target {
            1int
        } else {
            0int
        }
    }
}

proof fn lemma_count_split(
    s: Seq<BackendWithStats>,
    hs: Seq<usize>,
    w: int,
    c: int,
    a: int,
    b: int,
    target: int,
)
    requires
        a >= 0,
        b >= 0,
    ensures
        count_picks(s, hs, w, c, a + b, target) == count_picks(s, hs, w, c, a, target)
            + count_picks(s, hs, w, c + a, b, target),
    decreases b,
{
    if b > 0 {
        lemma_count_split(s, hs, w, c, a, b - 1, target);
        assert(c + a + b - 1 == c + (a + b - 1));
    }
}

/// The weighted scan sends residue `r` to `target` exactly when `r` lies in
/// the target's cumulative-weight window.
proof fn lemma_wrr_pos_window(s: Seq<BackendWithStats>, hs: Seq<usize>, r: int, target: int)
    requires
        0 <= r < weight_sum(s, hs, hs.len() as int),
        0 <= target < hs.len(),
        forall|m1: int, m2: int|
            0 <= m1 <= m2 <= hs.len() ==> weight_sum(s, hs, m1) <= weight_sum(s, hs, m2),
    ensures
        (wrr_pos_from(s, hs, r, 0) == target) == (weight_sum(s, hs, target) <= r < weight_sum(
            s,
            hs,
            target + 1,
        )),
{
    lemma_wrr_pos_props(s, hs, r, 0);
    let p = wrr_pos_from(s, hs, r, 0);
    if p != target && weight_sum(s, hs, target) <= r < weight_sum(s, hs, target + 1) {
        if p < target {
            assert(weight_sum(s, hs, p + 1) <= weight_sum(s, hs, target));
        } else {
            assert(weight_sum(s, hs, target + 1) <= weight_sum(s, hs, p));
        }
    }
}

/// Closed form for residue counting: of the residues below `n`, exactly
/// those in the target's window are sent to it.
proof fn lemma_count_res_closed(s: Seq<BackendWithStats>, hs: Seq<usize>, n: int, target: int)
    requires
        0 <= n <= weight_sum(s, hs, hs.len() as int),
        0 <= target < hs.len(),
        forall|m1: int, m2: int|
            0 <= m1 <= m2 <= hs.len() ==> weight_sum(s, hs, m1) <= weight_sum(s, hs, m2),
    ensures
        count_res(s, hs, n, target) == (if n >= weight_sum(s, hs, target + 1) {
            weight_sum(s, hs, target + 1)
        } else {
            n
        }) - (if n >= weight_sum(s, hs, target) {
            weight_sum(s, hs, target)
        } else {
            n
        }),
    decreases n,
{
    assert(weight_sum(s, hs, 0) == 0);
    assert(weight_sum(s, hs, 0) <= weight_sum(s, hs, target));
    assert(weight_sum(s, hs, 0) <= weight_sum(s, hs, target + 1));
    if n > 0 {
        lemma_count_res_closed(s, hs, n - 1, target);
        lemma_wrr_pos_window(s, hs, n - 1, target);
        let lo = weight_sum(s, hs, target);
        let hi = weight_sum(s, hs, target + 1);
        assert(lo <= hi);
        if n - 1 < lo {
            assert(!(wrr_pos_from(s, hs, n - 1, 0) == target));
        } else if n - 1 < hi {
            assert(wrr_pos_from(s, hs, n - 1, 0) == target);
        } else {
            assert(!(wrr_pos_from(s, hs, n - 1, 0) == target));
        }
    }
}

/// Counting successive selections equals counting a residue range while no
/// wrap occurs.
proof fn lemma_count_picks_as_res(
    s: Seq<BackendWithStats>,
    hs: Seq<usize>,
    w: int,
    c: int,
    n: int,
    target: int,
)
    requires
        w >= 1,
        c >= 0,
        n >= 0,
        c % w + n <= w,
    ensures
        count_picks(s, hs, w, c, n, target) == count_res(s, hs, c % w + n, target) - count_res(
            s,
            hs,
            c % w,
            target,
        ),
    decreases n,
{
    if n > 0 {
        lemma_count_picks_as_res(s, hs, w, c, n - 1, target);
        lemma_fundamental_div_mod(c, w);
        lemma_mod_bound(c, w);
        let q = c / w;
        let r0 = c % w;
        assert(c + n - 1 == q * w + (r0 + n - 1)) by (nonlinear_arith)
            requires
                c == w * q + r0,
        ;
        lemma_fundamental_div_mod_converse_mod(c + n - 1, w, q, r0 + n - 1);
        assert((c + n - 1) % w == r0 + n - 1);
    }
}

/// One full cycle of `w` successive weighted selections, from any starting
/// counter, picks healthy position `target` exactly as many times as the
/// residues in its window: its weight.
proof fn lemma_wrr_one_cycle(
    s: Seq<BackendWithStats>,
    hs: Seq<usize>,
    w: int,
    c: int,
    target: int,
)
    requires
        w == weight_sum(s, hs, hs.len() as int),
        w >= 1,
        c >= 0,
        0 <= target < hs.len(),
        forall|m1: int, m2: int|
            0 <= m1 <= m2 <= hs.len() ==> weight_sum(s, hs, m1) <= weight_sum(s, hs, m2),
    ensures
        count_picks(s, hs, w, c, w, target) == s[hs[target] as int].backend.weight,
{
    lemma_fundamental_div_mod(c, w);
    lemma_mod_bound(c, w);
    let q = c / w;
    let r0 = c % w;
    lemma_count_split(s, hs, w, c, w - r0, r0, target);
    lemma_count_picks_as_res(s, hs, w, c, w - r0, target);
    assert(c + (w - r0) == (q + 1) * w + 0) by (nonlinear_arith)
        requires
            c == w * q + r0,
    ;
    lemma_fundamental_div_mod_converse_mod(c + (w - r0), w, q + 1, 0);
    assert((c + (w - r0)) % w == 0);
    lemma_count_picks_as_res(s, hs, w, c + (w - r0), r0, target);
    lemma_count_res_closed(s, hs, w, target);
    lemma_count_res_closed(s, hs, r0, target);
    lemma_count_res_closed(s, hs, 0, target);
    assert(weight_sum(s, hs, target + 1) <= w);
    assert(weight_sum(s, hs, target + 1) == weight_sum(s, hs, target) + s[hs[target] as int].backend.weight);
}

/// A run of weighted selections with a positive weight sum: the counter
/// advances once per call and the `t`-th call picks the position the
/// cumulative-weight scan gives `(counter + t) mod w`.
proof fn lemma_wrr_run(lb: LoadBalancer, context: Option<Seq<char>>, n: int)
    requires
        lb.wf(),
        lb.algorithm == Algorithm::WeightedRoundRobin,
        lb.spec_healthy().len() >= 1,
        weight_sum(lb.backends@, lb.spec_healthy(), lb.spec_healthy().len() as int) >= 1,
        n >= 0,
        lb.round_robin_counter + n <= 0xFFFF_FFFF_FFFF_FFFFu64,
    ensures
        selections(lb, context, n).0 == (LoadBalancer {
            round_robin_counter: (lb.round_robin_counter + n) as u64,
            ..lb
        }),
        selections(lb, context, n).1.len() == n,
        forall|j: int|
            0 <= j < n ==> selections(lb, context, n).1[j] == Some(
                lb.backends@[lb.spec_healthy()[wrr_pos_from(
                    lb.backends@,
                    lb.spec_healthy(),
                    (lb.round_robin_counter + j) % weight_sum(
                        lb.backends@,
                        lb.spec_healthy(),
                        lb.spec_healthy().len() as int,
                    ),
                    0,
                )] as int].backend,
            ),
    decreases n,
{
    if n > 0 {
        lemma_wrr_run(lb, context, n - 1);
        let (lb1, picks) = selections(lb, context, n - 1);
        assert(lb1.spec_healthy() == lb.spec_healthy());
        assert(weight_sum(lb1.backends@, lb1.spec_healthy(), lb1.spec_healthy().len() as int)
            == weight_sum(lb.backends@, lb.spec_healthy(), lb.spec_healthy().len() as int));
    }
}

/// Weighted round-robin proportions: over any run of selections whose
/// length is a multiple `m` of the weight sum, each healthy backend is
/// picked exactly `m` times its weight — selections are proportional to
/// weights. (Over a run that is not a multiple of the weight sum, a
/// backend's share can differ from the proportional rounding: the windows
/// of the cumulative-weight scan are traversed in order, not interleaved.)
pub proof fn lemma_weighted_round_robin_proportions(
    lb: LoadBalancer,
    context: Option<Seq<char>>,
    m: int,
    target: int,
)
    requires
        lb.wf(),
        lb.algorithm == Algorithm::WeightedRoundRobin,
        lb.spec_healthy().len() >= 1,
        weight_sum(lb.backends@, lb.spec_healthy(), lb.spec_healthy().len() as int) >= 1,
        m >= 0,
        0 <= target < lb.spec_healthy().len(),
        lb.round_robin_counter + m * weight_sum(
            lb.backends@,
            lb.spec_healthy(),
            lb.spec_healthy().len() as int,
        ) <= 0xFFFF_FFFF_FFFF_FFFFu64,
    ensures
        ({
            let s = lb.backends@;
            let hs = lb.spec_healthy();
            let w = weight_sum(s, hs, hs.len() as int);
            let c = lb.round_robin_counter as int;
            let picks = selections(lb, context, m * w).1;
            &&& picks.len() == m * w
            &&& forall|j: int|
                0 <= j < m * w ==> picks[j] == Some(
                    s[hs[wrr_pos_from(s, hs, (c + j) % w, 0)] as int].backend,
                )
            &&& count_picks(s, hs, w, c, m * w, target) == m * s[hs[target] as int].backend.weight
        }),
    decreases m,
{
    let s = lb.backends@;
    let hs = lb.spec_healthy();
    let w = weight_sum(s, hs, hs.len() as int);
    let c = lb.round_robin_counter as int;
    lemma_healthy_prefix_props(s, s.len() as int);
    lemma_weight_sum_bounds(s, hs, hs.len() as int);
    assert(m * w >= 0) by (nonlinear_arith)
        requires
            m >= 0,
            w >= 1,
    ;
    lemma_wrr_run(lb, context, m * w);
    if m == 0 {
        assert(m * w == 0) by (nonlinear_arith)
            requires
                m == 0,
        ;
        assert(m * s[hs[target] as int].backend.weight == 0) by (nonlinear_arith)
            requires
                m == 0,
        ;
    } else {
        assert((m - 1) * w >= 0 && (m - 1) * w + w == m * w && (m - 1) * w <= m * w)
            by (nonlinear_arith)
            requires
                m >= 1,
                w >= 1,
        ;
        lemma_weighted_round_robin_proportions(lb, context, m - 1, target);
        lemma_count_split(s, hs, w, c, (m - 1) * w, w, target);
        lemma_wrr_one_cycle(s, hs, w, c + (m - 1) * w, target);
        assert((m - 1) * s[hs[target] as int].backend.weight + s[hs[target] as int].backend.weight
            == m * s[hs[target] as int].backend.weight) by (nonlinear_arith);
    }
}

/// With no healthy backend, a selection returns nothing and changes
/// nothing, whatever the algorithm and context.
pub proof fn lemma_empty_healthy_selects_none(lb: LoadBalancer, context: Option<Seq<char>>)
    requires
        lb.spec_healthy().len() == 0,
    ensures
        lb.spec_select(context) == (lb, None::<Backend>),
{
}

/// With the weights summing to zero, weighted round-robin picks exactly
/// what round-robin would, advancing the counter the same way.
pub proof fn lemma_zero_weight_sum_is_round_robin(lb: LoadBalancer, context: Option<Seq<char>>)
    requires
        lb.algorithm == Algorithm::WeightedRoundRobin,
        weight_sum(lb.backends@, lb.spec_healthy(), lb.spec_healthy().len() as int) == 0,
    ensures
        lb.spec_select(context).1 == (LoadBalancer {
            algorithm: Algorithm::RoundRobin,
            ..lb
        }).spec_select(context).1,
        lb.spec_select(context).0.round_robin_counter == (LoadBalancer {
            algorithm: Algorithm::RoundRobin,
            ..lb
        }).spec_select(context).0.round_robin_counter,
{
    let rr = LoadBalancer { algorithm: Algorithm::RoundRobin, ..lb };
    assert(rr.spec_healthy() == lb.spec_healthy());
}

/// With no context, consistent hashing picks exactly what round-robin
/// would, advancing the counter the same way.
pub proof fn lemma_consistent_hash_no_context_is_round_robin(lb: LoadBalancer)
    requires
        lb.algorithm == Algorithm::ConsistentHash,
    ensures
        lb.spec_select(None::<Seq<char>>).1 == (LoadBalancer {
            algorithm: Algorithm::RoundRobin,
            ..lb
        }).spec_select(None::<Seq<char>>).1,
        lb.spec_select(None::<Seq<char>>).0.round_robin_counter == (LoadBalancer {
            algorithm: Algorithm::RoundRobin,
            ..lb
        }).spec_select(None::<Seq<char>>).0.round_robin_counter,
{
    let rr = LoadBalancer { algorithm: Algorithm::RoundRobin, ..lb };
    assert(rr.spec_healthy() == lb.spec_healthy());
}

} // verus!
