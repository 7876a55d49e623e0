//! Per-backend circuit breaking: a three-state automaton that blocks traffic
//! to a backend once failures accumulate, and probes recovery after a timeout.

use vstd::prelude::*;

use crate::keyed::{
    assoc_get, distinct_keys, find_key, has_key, key_index, lemma_key_index_is_first_match,
    lemma_key_index_push, lemma_key_index_same_keys,
};

verus! {

/// States of a circuit breaker.
#[derive(Debug, Clone, Copy, PartialEq, Eq, Structural)]
pub enum CircuitState {
    /// Normal operation, requests allowed.
    Closed,
    /// Failing, requests blocked.
    Open,
    /// Testing whether the backend recovered.
    HalfOpen,
}

/// Circuit breaker for an individual backend.
///
/// Time is supplied by the caller as monotonic-clock readings in
/// milliseconds; readings handed to successive calls must not go backwards
/// relative to what the breaker has already recorded (`seen_up_to`).
pub struct CircuitBreaker {
    pub state: CircuitState,
    pub failure_count: u32,
    pub success_count: u32,
    pub last_failure_time_ms: Option<u64>,
    pub error_threshold: u32,
    pub timeout_ms: u64,
    pub half_open_max_requests: u32,
}

impl CircuitBreaker {
    /// Every timestamp the breaker has recorded is no later than `now_ms`.
    pub open spec fn seen_up_to(self, now_ms: u64) -> bool {
        match self.last_failure_time_ms {
            Some(t) => t <= now_ms,
            None => true,
        }
    }

    /// Counters stay below the bounds that the transition rules re-establish,
    /// so the increments in `record_success` and `record_failure` cannot
    /// overflow; the half-open probe budget is the fixed default.
    pub open spec fn wf(self) -> bool {
        &&& (self.state == CircuitState::Closed ==> self.failure_count < self.error_threshold
            || self.failure_count == 0)
        &&& (self.state == CircuitState::HalfOpen ==> self.success_count
            < self.half_open_max_requests)
        &&& self.half_open_max_requests == 3
    }

    /// The exact state of a newly constructed breaker.
    pub open spec fn fresh(error_threshold: u32, timeout_ms: u64) -> CircuitBreaker {
        CircuitBreaker {
            state: CircuitState::Closed,
            failure_count: 0,
            success_count: 0,
            last_failure_time_ms: None,
            error_threshold,
            timeout_ms,
            half_open_max_requests: 3,
        }
    }

    /// What `allow_request` does: the breaker after the call, and its answer.
    ///
    /// Closed always allows. Open allows exactly when `timeout_ms` has elapsed
    /// since the last failure, moving to HalfOpen with a cleared success
    /// count. HalfOpen allows while fewer than `half_open_max_requests`
    /// successes have been counted.
    pub open spec fn spec_allow_request(self, now_ms: u64) -> (CircuitBreaker, bool) {
        match self.state {
            CircuitState::Closed => (self, true),
            CircuitState::Open => match self.last_failure_time_ms {
                Some(t) => if now_ms - t >= self.timeout_ms {
                    (
                        CircuitBreaker {
                            state: CircuitState::HalfOpen,
                            success_count: 0,
                            ..self
                        },
                        true,
                    )
                } else {
                    (self, false)
                },
                None => (self, false),
            },
            CircuitState::HalfOpen => (self, self.success_count < self.half_open_max_requests),
        }
    }

    /// What `record_success` does. Closed clears the failure count; HalfOpen
    /// counts the success and closes the circuit once the probe budget is
    /// reached; Open ignores the event.
    pub open spec fn spec_record_success(self) -> CircuitBreaker {
        match self.state {
            CircuitState::Closed => CircuitBreaker { failure_count: 0, ..self },
            CircuitState::HalfOpen => if self.success_count + 1 >= self.half_open_max_requests {
                self.spec_reset()
            } else {
                CircuitBreaker { success_count: (self.success_count + 1) as u32, ..self }
            },
            CircuitState::Open => self,
        }
    }

    /// What `record_failure` does. Closed counts the failure and trips to
    /// Open once the count reaches the threshold; HalfOpen trips back to Open
    /// at once; Open refreshes the failure timestamp.
    pub open spec fn spec_record_failure(self, now_ms: u64) -> CircuitBreaker {
        match self.state {
            CircuitState::Closed => if self.failure_count + 1 >= self.error_threshold {
                CircuitBreaker {
                    state: CircuitState::Open,
                    failure_count: (self.failure_count + 1) as u32,
                    last_failure_time_ms: Some(now_ms),
                    ..self
                }
            } else {
                CircuitBreaker {
                    failure_count: (self.failure_count + 1) as u32,
                    last_failure_time_ms: Some(now_ms),
                    ..self
                }
            },
            CircuitState::HalfOpen => CircuitBreaker {
                state: CircuitState::Open,
                last_failure_time_ms: Some(now_ms),
                ..self
            },
            CircuitState::Open => CircuitBreaker {
                last_failure_time_ms: Some(now_ms),
                ..self
            },
        }
    }

    /// What `reset` does: back to Closed with cleared counters, keeping the
    /// configured threshold and timeout.
    pub open spec fn spec_reset(self) -> CircuitBreaker {
        CircuitBreaker {
            state: CircuitState::Closed,
            failure_count: 0,
            success_count: 0,
            last_failure_time_ms: None,
            ..self
        }
    }

    pub fn new(error_threshold: u32, timeout_ms: u64) -> (r: CircuitBreaker)
        ensures
            r == CircuitBreaker::fresh(error_threshold, timeout_ms),
            r.wf(),
    {
        CircuitBreaker {
            state: CircuitState::Closed,
            failure_count: 0,
            success_count: 0,
            last_failure_time_ms: None,
            error_threshold,
            timeout_ms,
            half_open_max_requests: 3,
        }
    }

    /// Should a request be let through to this backend?
    pub fn allow_request(&mut self, now_ms: u64) -> (allowed: bool)
        requires
            old(self).wf(),
            old(self).seen_up_to(now_ms),
        ensures
            (*final(self), allowed) == old(self).spec_allow_request(now_ms),
            final(self).wf(),
            final(self).seen_up_to(now_ms),
    {
        match self.state {
            CircuitState::Closed => true,
            CircuitState::Open => {
                match self.last_failure_time_ms {
                    Some(last_failure) => {
                        if now_ms - last_failure >= self.timeout_ms {
                            self.state = CircuitState::HalfOpen;
                            self.success_count = 0;
                            true
                        } else {
                            false
                        }
                    },
                    None => false,
                }
            },
            CircuitState::HalfOpen => self.success_count < self.half_open_max_requests,
        }
    }

    /// Record a successful request.
    pub fn record_success(&mut self)
        requires
            old(self).wf(),
        ensures
            *final(self) == old(self).spec_record_success(),
            final(self).wf(),
            forall|now_ms: u64| old(self).seen_up_to(now_ms) ==> final(self).seen_up_to(now_ms),
    {
        match self.state {
            CircuitState::Closed => {
                self.failure_count = 0;
            },
            CircuitState::HalfOpen => {
                self.success_count = self.success_count + 1;
                if self.success_count >= self.half_open_max_requests {
                    self.transition_to_closed();
                }
            },
            CircuitState::Open => {},
        }
    }

    /// Record a failed request.
    pub fn record_failure(&mut self, now_ms: u64)
        requires
            old(self).wf(),
            old(self).seen_up_to(now_ms),
        ensures
            *final(self) == old(self).spec_record_failure(now_ms),
            final(self).wf(),
            final(self).seen_up_to(now_ms),
    {
        match self.state {
            CircuitState::Closed => {
                self.failure_count = self.failure_count + 1;
                self.last_failure_time_ms = Some(now_ms);
                if self.failure_count >= self.error_threshold {
                    self.transition_to_open(now_ms);
                }
            },
            CircuitState::HalfOpen => {
                self.transition_to_open(now_ms);
            },
            CircuitState::Open => {
                self.last_failure_time_ms = Some(now_ms);
            },
        }
    }

    /// Current circuit state.
    pub fn state(&self) -> (s: CircuitState)
        ensures
            s == self.state,
    {
        self.state
    }

    /// Current failure count.
    pub fn failure_count(&self) -> (n: u32)
        ensures
            n == self.failure_count,
    {
        self.failure_count
    }

    /// Force the breaker back to Closed with cleared counters.
    pub fn reset(&mut self)
        ensures
            *final(self) == old(self).spec_reset(),
            final(self).wf() == (old(self).half_open_max_requests == 3),
            forall|now_ms: u64| final(self).seen_up_to(now_ms),
    {
        self.transition_to_closed();
    }

    fn transition_to_closed(&mut self)
        ensures
            *final(self) == old(self).spec_reset(),
    {
        self.state = CircuitState::Closed;
        self.failure_count = 0;
        self.success_count = 0;
        self.last_failure_time_ms = None;
    }

    fn transition_to_open(&mut self, now_ms: u64)
        ensures
            *final(self) == (CircuitBreaker {
                state: CircuitState::Open,
                last_failure_time_ms: Some(now_ms),
                ..*old(self)
            }),
    {
        self.state = CircuitState::Open;
        self.last_failure_time_ms = Some(now_ms);
    }
}

/// The breaker after a sequence of `record_failure` calls at the given times,
/// earliest first.
pub open spec fn apply_failures(b: CircuitBreaker, times: Seq<u64>) -> CircuitBreaker
    decreases times.len(),
{
    if times.len() == 0 {
        b
    } else {
        apply_failures(b.spec_record_failure(times[0]), times.drop_first())
    }
}

proof fn lemma_open_absorbs_failures(b: CircuitBreaker, times: Seq<u64>)
    requires
        b.state == CircuitState::Open,
    ensures
        apply_failures(b, times).state == CircuitState::Open,
    decreases times.len(),
{
    if times.len() > 0 {
        lemma_open_absorbs_failures(b.spec_record_failure(times[0]), times.drop_first());
    }
}

proof fn lemma_failures_from_closed(b: CircuitBreaker, times: Seq<u64>)
    requires
        b.state == CircuitState::Closed,
        b.failure_count < b.error_threshold,
    ensures
        b.failure_count + times.len() >= b.error_threshold ==> apply_failures(b, times).state
            == CircuitState::Open,
        b.failure_count + times.len() < b.error_threshold ==> apply_failures(b, times).state
            == CircuitState::Closed && apply_failures(b, times).failure_count == b.failure_count
            + times.len(),
    decreases times.len(),
{
    if times.len() > 0 {
        let b1 = b.spec_record_failure(times[0]);
        if b.failure_count + 1 >= b.error_threshold {
            lemma_open_absorbs_failures(b1, times.drop_first());
        } else {
            lemma_failures_from_closed(b1, times.drop_first());
        }
    }
}

/// For every sequence of `record_failure` calls on a newly constructed
/// (closed) breaker, the state becomes Open exactly when the cumulative
/// number of failures reaches the error threshold; below the threshold the
/// breaker stays Closed with the failures counted.
pub proof fn lemma_closed_breaker_trips_at_threshold(
    error_threshold: u32,
    timeout_ms: u64,
    times: Seq<u64>,
)
    requires
        error_threshold >= 1,
    ensures
        apply_failures(CircuitBreaker::fresh(error_threshold, timeout_ms), times).state
            == CircuitState::Open <==> times.len() >= error_threshold,
        times.len() < error_threshold ==> apply_failures(
            CircuitBreaker::fresh(error_threshold, timeout_ms),
            times,
        ).failure_count == times.len(),
{
    lemma_failures_from_closed(CircuitBreaker::fresh(error_threshold, timeout_ms), times);
}

/// Resetting a breaker returns it to the exact state of a newly constructed
/// one with the same threshold and timeout.
pub proof fn lemma_reset_restores_fresh(b: CircuitBreaker)
    requires
        b.wf(),
    ensures
        b.spec_reset() == CircuitBreaker::fresh(b.error_threshold, b.timeout_ms),
{
}

/// Circuit breakers for all backends, keyed by backend address. Breakers are
/// created lazily, with the threshold and timeout the manager was built
/// with, on the first `allow_request` or `record_failure` for an address.
pub struct CircuitBreakerManager {
    pub breakers: Vec<(String, CircuitBreaker)>,
    pub error_threshold: u32,
    pub timeout_ms: u64,
}

impl CircuitBreakerManager {
    /// Addresses are unique, and every stored breaker is well-formed and
    /// carries the manager's threshold and timeout.
    pub open spec fn wf(self) -> bool {
        &&& distinct_keys(self.breakers@)
        &&& forall|i: int|
            0 <= i < self.breakers@.len() ==> (#[trigger] self.breakers@[i].1).wf()
                && self.breakers@[i].1.error_threshold == self.error_threshold
                && self.breakers@[i].1.timeout_ms == self.timeout_ms
    }

    /// Every stored breaker has seen timestamps no later than `now_ms`.
    pub open spec fn seen_up_to(self, now_ms: u64) -> bool {
        forall|i: int|
            0 <= i < self.breakers@.len() ==> (#[trigger] self.breakers@[i].1).seen_up_to(now_ms)
    }

    /// The stored breaker for address `k`, if any.
    pub open spec fn spec_get(self, k: Seq<char>) -> Option<CircuitBreaker> {
        assoc_get(self.breakers@, k)
    }

    /// The breaker that an operation on address `k` acts on: the stored one,
    /// or a fresh one if the address is new.
    pub open spec fn breaker_or_fresh(self, k: Seq<char>) -> CircuitBreaker {
        match assoc_get(self.breakers@, k) {
            Some(b) => b,
            None => CircuitBreaker::fresh(self.error_threshold, self.timeout_ms),
        }
    }

    /// The manager's parameters survive an operation.
    pub open spec fn same_params(self, other: CircuitBreakerManager) -> bool {
        &&& other.error_threshold == self.error_threshold
        &&& other.timeout_ms == self.timeout_ms
    }

    pub fn new(error_threshold: u32, timeout_secs: u32) -> (r: CircuitBreakerManager)
        ensures
            r.breakers@.len() == 0,
            r.error_threshold == error_threshold,
            r.timeout_ms == timeout_secs as u64 * 1000,
            r.wf(),
            forall|now_ms: u64| r.seen_up_to(now_ms),
    {
        CircuitBreakerManager {
            breakers: Vec::new(),
            error_threshold,
            timeout_ms: (timeout_secs as u64) * 1000,
        }
    }

    /// Should a request to `backend_addr` be allowed? Creates the breaker if
    /// the address is new.
    pub fn allow_request(&mut self, backend_addr: &str, now_ms: u64) -> (allowed: bool)
        requires
            old(self).wf(),
            old(self).seen_up_to(now_ms),
        ensures
            old(self).same_params(*final(self)),
            final(self).wf(),
            final(self).seen_up_to(now_ms),
            allowed == old(self).breaker_or_fresh(backend_addr@).spec_allow_request(now_ms).1,
            final(self).spec_get(backend_addr@) == Some(
                old(self).breaker_or_fresh(backend_addr@).spec_allow_request(now_ms).0,
            ),
            forall|k2: Seq<char>|
                k2 != backend_addr@ ==> final(self).spec_get(k2) == old(self).spec_get(k2),
    {
        match find_key(&self.breakers, backend_addr) {
            Some(i) => {
                let ghost old_entries = self.breakers@;
                let pair = &mut self.breakers[i];
                let allowed = pair.1.allow_request(now_ms);
                proof {
                    self.lemma_updated_entry(old_entries, i as int);
                }
                allowed
            },
            None => {
                let ghost old_entries = self.breakers@;
                let mut breaker = CircuitBreaker::new(self.error_threshold, self.timeout_ms);
                let allowed = breaker.allow_request(now_ms);
                self.breakers.push((backend_addr.to_owned(), breaker));
                proof {
                    self.lemma_pushed_entry(old_entries, backend_addr@);
                }
                allowed
            },
        }
    }

    /// Record a successful request to `backend_addr`; ignored if the address
    /// has no breaker.
    pub fn record_success(&mut self, backend_addr: &str)
        requires
            old(self).wf(),
        ensures
            old(self).same_params(*final(self)),
            final(self).wf(),
            forall|now_ms: u64|
                old(self).seen_up_to(now_ms) ==> final(self).seen_up_to(now_ms),
            match old(self).spec_get(backend_addr@) {
                Some(b) => final(self).spec_get(backend_addr@) == Some(b.spec_record_success()),
                None => *final(self) == *old(self),
            },
            forall|k2: Seq<char>|
                k2 != backend_addr@ ==> final(self).spec_get(k2) == old(self).spec_get(k2),
    {
        match find_key(&self.breakers, backend_addr) {
            Some(i) => {
                let ghost old_entries = self.breakers@;
                let pair = &mut self.breakers[i];
                pair.1.record_success();
                proof {
                    self.lemma_updated_entry(old_entries, i as int);
                }
            },
            None => {},
        }
    }

    /// Record a failed request to `backend_addr`. Creates the breaker if the
    /// address is new.
    pub fn record_failure(&mut self, backend_addr: &str, now_ms: u64)
        requires
            old(self).wf(),
            old(self).seen_up_to(now_ms),
        ensures
            old(self).same_params(*final(self)),
            final(self).wf(),
            final(self).seen_up_to(now_ms),
            final(self).spec_get(backend_addr@) == Some(
                old(self).breaker_or_fresh(backend_addr@).spec_record_failure(now_ms),
            ),
            forall|k2: Seq<char>|
                k2 != backend_addr@ ==> final(self).spec_get(k2) == old(self).spec_get(k2),
    {
        match find_key(&self.breakers, backend_addr) {
            Some(i) => {
                let ghost old_entries = self.breakers@;
                let pair = &mut self.breakers[i];
                pair.1.record_failure(now_ms);
                proof {
                    self.lemma_updated_entry(old_entries, i as int);
                }
            },
            None => {
                let ghost old_entries = self.breakers@;
                let mut breaker = CircuitBreaker::new(self.error_threshold, self.timeout_ms);
                breaker.record_failure(now_ms);
                self.breakers.push((backend_addr.to_owned(), breaker));
                proof {
                    self.lemma_pushed_entry(old_entries, backend_addr@);
                }
            },
        }
    }

    /// State of the breaker for `backend_addr`, if one exists.
    pub fn get_state(&self, backend_addr: &str) -> (r: Option<CircuitState>)
        ensures
            r == match self.spec_get(backend_addr@) {
                Some(b) => Some(b.state),
                None => None::<CircuitState>,
            },
    {
        match find_key(&self.breakers, backend_addr) {
            Some(i) => Some(self.breakers[i].1.state()),
            None => None,
        }
    }

    /// The first `m` entries read as address, state and failure count.
    pub open spec fn states_up_to(self, m: int) -> Seq<(String, (CircuitState, u32))> {
        Seq::new(
            m as nat,
            |j: int|
                (
                    self.breakers@[j].0,
                    (self.breakers@[j].1.state, self.breakers@[j].1.failure_count),
                ),
        )
    }

    /// Every breaker's state and failure count, for monitoring.
    pub fn get_all_states(&self) -> (r: Vec<(String, (CircuitState, u32))>)
        ensures
            r@ == self.states_up_to(self.breakers@.len() as int),
            r@.len() == self.breakers@.len(),
    {
        let mut r: Vec<(String, (CircuitState, u32))> = Vec::new();
        let n = self.breakers.len();
        proof {
            assert(r@ =~= self.states_up_to(0));
        }
        let mut i: usize = 0;
        while i < n
            invariant
                n == self.breakers@.len(),
                i <= n,
                r@ == self.states_up_to(i as int),
            decreases n - i,
        {
            let pair = &self.breakers[i];
            let key = pair.0.clone();
            let st = pair.1.state();
            let fc = pair.1.failure_count();
            r.push((key, (st, fc)));
            proof {
                assert(r@ =~= self.states_up_to(i + 1));
            }
            i = i + 1;
        }
        r
    }

    /// Force the breaker for `backend_addr` back to Closed; ignored if the
    /// address has no breaker.
    pub fn reset_backend(&mut self, backend_addr: &str)
        requires
            old(self).wf(),
        ensures
            old(self).same_params(*final(self)),
            final(self).wf(),
            forall|now_ms: u64|
                old(self).seen_up_to(now_ms) ==> final(self).seen_up_to(now_ms),
            match old(self).spec_get(backend_addr@) {
                Some(b) => final(self).spec_get(backend_addr@) == Some(b.spec_reset()),
                None => *final(self) == *old(self),
            },
            forall|k2: Seq<char>|
                k2 != backend_addr@ ==> final(self).spec_get(k2) == old(self).spec_get(k2),
    {
        match find_key(&self.breakers, backend_addr) {
            Some(i) => {
                let ghost old_entries = self.breakers@;
                let pair = &mut self.breakers[i];
                pair.1.reset();
                proof {
                    self.lemma_updated_entry(old_entries, i as int);
                }
            },
            None => {},
        }
    }

    /// Force every breaker back to Closed.
    pub fn reset_all(&mut self)
        requires
            old(self).wf(),
        ensures
            old(self).same_params(*final(self)),
            final(self).wf(),
            forall|now_ms: u64| final(self).seen_up_to(now_ms),
            final(self).breakers@.len() == old(self).breakers@.len(),
            forall|i: int|
                0 <= i < old(self).breakers@.len() ==> #[trigger] final(self).breakers@[i].0@
                    == old(self).breakers@[i].0@ && final(self).breakers@[i].1
                    == old(self).breakers@[i].1.spec_reset(),
    {
        let n = self.breakers.len();
        let mut i: usize = 0;
        while i < n
            invariant
                n == self.breakers@.len(),
                i <= n,
                self.breakers@.len() == old(self).breakers@.len(),
                self.error_threshold == old(self).error_threshold,
                self.timeout_ms == old(self).timeout_ms,
                forall|j: int|
                    0 <= j < n ==> #[trigger] self.breakers@[j].0@ == old(self).breakers@[j].0@,
                forall|j: int|
                    0 <= j < i ==> #[trigger] self.breakers@[j].1
                        == old(self).breakers@[j].1.spec_reset(),
                forall|j: int|
                    i <= j < n ==> #[trigger] self.breakers@[j].1 == old(self).breakers@[j].1,
                old(self).wf(),
            decreases n - i,
        {
            let pair = &mut self.breakers[i];
            pair.1.reset();
            i = i + 1;
        }
        proof {
            assert forall|j: int| 0 <= j < self.breakers@.len() implies (
            #[trigger] self.breakers@[j].1).wf() && self.breakers@[j].1.error_threshold
                == self.error_threshold && self.breakers@[j].1.timeout_ms == self.timeout_ms by {
                assert(old(self).breakers@[j].1.wf());
            }
        }
    }

    /// After updating the entry at `i` in place (key untouched), lookups of
    /// other keys are unchanged, the key at `i` now maps to the new breaker,
    /// and distinctness survives.
    proof fn lemma_updated_entry(&self, old_entries: Seq<(String, CircuitBreaker)>, i: int)
        requires
            distinct_keys(old_entries),
            0 <= i < old_entries.len(),
            self.breakers@.len() == old_entries.len(),
            forall|j: int| 0 <= j < old_entries.len() ==> self.breakers@[j].0@ == old_entries[j].0@,
            forall|j: int| 0 <= j < old_entries.len() && j != i ==> self.breakers@[j]
                == old_entries[j],
        ensures
            distinct_keys(self.breakers@),
            assoc_get(self.breakers@, old_entries[i].0@) == Some(self.breakers@[i].1),
            key_index(old_entries, old_entries[i].0@) == i,
            forall|k2: Seq<char>|
                k2 != old_entries[i].0@ ==> assoc_get(self.breakers@, k2) == assoc_get(
                    old_entries,
                    k2,
                ),
    {
        assert forall|a: int, b: int| 0 <= a < b < self.breakers@.len() implies self.breakers@[a].0@
            != self.breakers@[b].0@ by {
            assert(self.breakers@[a].0@ == old_entries[a].0@);
            assert(self.breakers@[b].0@ == old_entries[b].0@);
        }
        let k = old_entries[i].0@;
        lemma_key_index_same_keys(self.breakers@, old_entries, k);
        lemma_key_index_is_first_match(self.breakers@, k);
        lemma_key_index_is_first_match(old_entries, k);
        assert(key_index(old_entries, k) == i);
        assert forall|k2: Seq<char>| k2 != k implies assoc_get(self.breakers@, k2) == assoc_get(
            old_entries,
            k2,
        ) by {
            lemma_key_index_same_keys(self.breakers@, old_entries, k2);
            lemma_key_index_is_first_match(old_entries, k2);
        }
    }

    /// After pushing an entry with the fresh key `k`, lookups of other keys
    /// are unchanged, `k` maps to the pushed breaker, and distinctness
    /// survives.
    proof fn lemma_pushed_entry(&self, old_entries: Seq<(String, CircuitBreaker)>, k: Seq<char>)
        requires
            distinct_keys(old_entries),
            !has_key(old_entries, k),
            self.breakers@.len() == old_entries.len() + 1,
            self.breakers@ == old_entries.push(self.breakers@.last()),
            self.breakers@.last().0@ == k,
        ensures
            distinct_keys(self.breakers@),
            assoc_get(self.breakers@, k) == Some(self.breakers@.last().1),
            forall|k2: Seq<char>|
                k2 != k ==> assoc_get(self.breakers@, k2) == assoc_get(old_entries, k2),
    {
        let e = self.breakers@.last();
        lemma_key_index_is_first_match(old_entries, k);
        lemma_key_index_push(old_entries, e, k);
        assert forall|i: int, j: int| 0 <= i < j < self.breakers@.len() implies self.breakers@[i].0@
            != self.breakers@[j].0@ by {
            assert(self.breakers@[i] == old_entries[i]);
            if j == old_entries.len() {
                assert(self.breakers@[j] == e);
                if old_entries[i].0@ == k {
                    // the key would already be present, against `!has_key`
                    assert(key_index(old_entries, k) <= i) by {
                        if key_index(old_entries, k) > i {
                            assert(old_entries[i].0@ != k);
                        }
                    }
                    assert(false);
                }
            } else {
                assert(self.breakers@[j] == old_entries[j]);
            }
        }
        assert forall|k2: Seq<char>| k2 != k implies assoc_get(self.breakers@, k2) == assoc_get(
            old_entries,
            k2,
        ) by {
            lemma_key_index_push(old_entries, e, k2);
            lemma_key_index_is_first_match(old_entries, k2);
            lemma_key_index_is_first_match(self.breakers@, k2);
        }
    }
}

} // verus!
