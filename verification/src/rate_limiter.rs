//! Token-bucket rate limiting: one global bucket paces all admissions, and an
//! optional per-client policy keeps a bucket for each client id.
//!
//! Tokens are held in thousandths, so fractional refills accumulate: a bucket
//! refilled for `e` milliseconds at `r` tokens per second gains exactly
//! `e * r` milli-tokens. Callers supply monotonic-clock readings in
//! milliseconds.

use vstd::prelude::*;

use crate::keyed::{
    assoc_get, distinct_keys, find_key, has_key, key_index, lemma_key_index_is_first_match,
    lemma_key_index_push, lemma_key_index_same_keys, lemma_push_distinct,
};

verus! {

/// Largest burst (bucket capacity, in whole tokens) the limiter accepts.
pub const MAX_BURST: u64 = 0xFFFF_FFFF;

/// Largest refill rate (tokens per second) the limiter accepts.
pub const MAX_RATE: u64 = 0xFFFF_FFFF;

/// A token bucket admitting up to `capacity` requests in a burst and
/// `refill_rate` requests per second thereafter.
pub struct TokenBucket {
    pub capacity: u64,
    pub tokens_milli: u64,
    pub refill_rate: u64,
    pub last_refill_ms: u64,
}

impl TokenBucket {
    /// The bucket never holds more than its capacity, and its parameters are
    /// small enough that refill arithmetic cannot overflow.
    pub open spec fn wf(self) -> bool {
        &&& self.capacity <= MAX_BURST
        &&& self.refill_rate <= MAX_RATE
        &&& self.tokens_milli <= self.capacity * 1000
    }

    /// The bucket's last refill is no later than `now_ms`.
    pub open spec fn seen_up_to(self, now_ms: u64) -> bool {
        self.last_refill_ms <= now_ms
    }

    /// The exact state of a newly constructed bucket: full.
    pub open spec fn fresh(requests_per_second: u64, burst: u64, now_ms: u64) -> TokenBucket {
        TokenBucket {
            capacity: burst,
            tokens_milli: (burst * 1000) as u64,
            refill_rate: requests_per_second,
            last_refill_ms: now_ms,
        }
    }

    /// Milli-tokens after refilling at `now_ms`: grow by elapsed milliseconds
    /// times the per-second rate, capped at the capacity.
    pub open spec fn spec_refilled_milli(self, now_ms: u64) -> int {
        let grown = self.tokens_milli + (now_ms - self.last_refill_ms) * self.refill_rate;
        if grown > self.capacity * 1000 {
            self.capacity * 1000
        } else {
            grown
        }
    }

    /// The bucket after refilling at `now_ms`.
    pub open spec fn spec_refill(self, now_ms: u64) -> TokenBucket {
        TokenBucket {
            tokens_milli: self.spec_refilled_milli(now_ms) as u64,
            last_refill_ms: now_ms,
            ..self
        }
    }

    /// What `try_consume` does: refill, then take `n` tokens exactly when
    /// they are available.
    pub open spec fn spec_try_consume(self, n: u64, now_ms: u64) -> (TokenBucket, bool) {
        let r = self.spec_refill(now_ms);
        if r.tokens_milli >= n * 1000 {
            (TokenBucket { tokens_milli: (r.tokens_milli - n * 1000) as u64, ..r }, true)
        } else {
            (r, false)
        }
    }

    pub fn new(requests_per_second: u64, burst: u64, now_ms: u64) -> (r: TokenBucket)
        requires
            requests_per_second <= MAX_RATE,
            burst <= MAX_BURST,
        ensures
            r == TokenBucket::fresh(requests_per_second, burst, now_ms),
            r.wf(),
            r.seen_up_to(now_ms),
    {
        TokenBucket {
            capacity: burst,
            tokens_milli: burst * 1000,
            refill_rate: requests_per_second,
            last_refill_ms: now_ms,
        }
    }

    /// Refill for the time elapsed since the last refill.
    fn refill(&mut self, now_ms: u64)
        requires
            old(self).wf(),
            old(self).seen_up_to(now_ms),
        ensures
            *final(self) == old(self).spec_refill(now_ms),
            final(self).wf(),
    {
        let elapsed_ms: u64 = now_ms - self.last_refill_ms;
        let cap_milli: u64 = self.capacity * 1000;
        proof {
            assert((elapsed_ms as int) * (self.refill_rate as int) <= 0xFFFF_FFFF_FFFF_FFFFint
                * 0xFFFF_FFFFint) by (nonlinear_arith)
                requires
                    elapsed_ms <= 0xFFFF_FFFF_FFFF_FFFFu64,
                    self.refill_rate <= 0xFFFF_FFFFu64,
            ;
        }
        let grown: u128 = (self.tokens_milli as u128) + (elapsed_ms as u128) * (
        self.refill_rate as u128);
        if grown >= cap_milli as u128 {
            self.tokens_milli = cap_milli;
        } else {
            self.tokens_milli = grown as u64;
        }
        self.last_refill_ms = now_ms;
    }

    /// Try to consume `n` tokens from the bucket.
    pub fn try_consume(&mut self, tokens: u64, now_ms: u64) -> (ok: bool)
        requires
            old(self).wf(),
            old(self).seen_up_to(now_ms),
        ensures
            (*final(self), ok) == old(self).spec_try_consume(tokens, now_ms),
            final(self).wf(),
            final(self).seen_up_to(now_ms),
            final(self).last_refill_ms == now_ms,
    {
        self.refill(now_ms);
        let need: u128 = (tokens as u128) * 1000;
        if (self.tokens_milli as u128) >= need {
            self.tokens_milli = self.tokens_milli - (need as u64);
            true
        } else {
            false
        }
    }

    /// Whole tokens currently available, after refilling.
    pub fn available_tokens(&mut self, now_ms: u64) -> (n: u64)
        requires
            old(self).wf(),
            old(self).seen_up_to(now_ms),
        ensures
            *final(self) == old(self).spec_refill(now_ms),
            final(self).wf(),
            n == final(self).tokens_milli / 1000,
    {
        self.refill(now_ms);
        self.tokens_milli / 1000
    }
}

/// For every refill, the token count stays within `[0, capacity]` (counted
/// in milli-tokens), and consuming never takes more than is there.
pub proof fn lemma_tokens_stay_bounded(b: TokenBucket, n: u64, now_ms: u64)
    requires
        b.wf(),
        b.seen_up_to(now_ms),
    ensures
        0 <= b.spec_refilled_milli(now_ms) <= b.capacity * 1000,
        0 <= b.spec_try_consume(n, now_ms).0.tokens_milli <= b.capacity * 1000,
{
    assert((now_ms - b.last_refill_ms) * b.refill_rate >= 0) by (nonlinear_arith)
        requires
            now_ms >= b.last_refill_ms,
            b.refill_rate >= 0,
    ;
}

/// Refilling at the instant of the last refill changes nothing.
pub proof fn lemma_refill_at_same_instant(b: TokenBucket, now_ms: u64)
    requires
        b.wf(),
        b.last_refill_ms == now_ms,
    ensures
        b.spec_refill(now_ms) == b,
{
}

/// What a cleanup pass at `now_ms` leaves of a client's bucket: the bucket
/// refilled, unless the refill leaves it full (an idle client), in which
/// case nothing.
pub open spec fn spec_cleanup_entry(entry: Option<TokenBucket>, now_ms: u64) -> Option<
    TokenBucket,
> {
    match entry {
        Some(b) => if b.spec_refill(now_ms).tokens_milli < b.capacity * 1000 {
            Some(b.spec_refill(now_ms))
        } else {
            None
        },
        None => None,
    }
}

/// A bucket of capacity zero never admits a request.
pub proof fn lemma_zero_capacity_never_admits(b: TokenBucket, n: u64, now_ms: u64)
    requires
        b.wf(),
        b.capacity == 0,
        b.seen_up_to(now_ms),
        n >= 1,
    ensures
        !b.spec_try_consume(n, now_ms).1,
        b.spec_try_consume(n, now_ms).0.capacity == 0,
        b.spec_try_consume(n, now_ms).0.wf(),
{
    lemma_tokens_stay_bounded(b, n, now_ms);
}

/// The per-client buckets after a cleanup pass at `now_ms`: every bucket is
/// refilled, and the ones left full by the refill (idle clients) are evicted.
pub open spec fn cleaned(s: Seq<(String, TokenBucket)>, now_ms: u64) -> Seq<(String, TokenBucket)>
    decreases s.len(),
{
    if s.len() == 0 {
        Seq::empty()
    } else {
        let rest = cleaned(s.drop_last(), now_ms);
        let p = s.last();
        let rb = p.1.spec_refill(now_ms);
        if rb.tokens_milli < p.1.capacity * 1000 {
            rest.push((p.0, rb))
        } else {
            rest
        }
    }
}

/// Reading a cleaned bucket list: a client's bucket survives exactly when
/// its refill leaves it below capacity, and it survives refilled.
pub proof fn lemma_cleaned_get(s: Seq<(String, TokenBucket)>, now_ms: u64, k: Seq<char>)
    requires
        distinct_keys(s),
    ensures
        distinct_keys(cleaned(s, now_ms)),
        assoc_get(cleaned(s, now_ms), k) == match assoc_get(s, k) {
            Some(b) => if b.spec_refill(now_ms).tokens_milli < b.capacity * 1000 {
                Some(b.spec_refill(now_ms))
            } else {
                None::<TokenBucket>
            },
            None => None::<TokenBucket>,
        },
    decreases s.len(),
{
    if s.len() == 0 {
        lemma_key_index_is_first_match(cleaned(s, now_ms), k);
        lemma_key_index_is_first_match(s, k);
    } else {
        let s1 = s.drop_last();
        let p = s.last();
        let rest = cleaned(s1, now_ms);
        let rb = p.1.spec_refill(now_ms);
        assert(s == s1.push(p));
        lemma_cleaned_get(s1, now_ms, k);
        lemma_cleaned_get(s1, now_ms, p.0@);
        lemma_key_index_push(s1, p, k);
        lemma_key_index_is_first_match(s1, k);
        lemma_key_index_is_first_match(rest, k);
        assert(!has_key(s1, p.0@)) by {
            lemma_key_index_is_first_match(s1, p.0@);
            if has_key(s1, p.0@) {
                let ki = key_index(s1, p.0@);
                assert(s[ki] == s1[ki]);
                assert(s[s.len() - 1] == p);
                assert(false);
            }
        }
        assert(!has_key(rest, p.0@));
        if rb.tokens_milli < p.1.capacity * 1000 {
            lemma_push_distinct(rest, (p.0, rb));
            lemma_key_index_push(rest, (p.0, rb), k);
        }
    }
}

/// Global rate limiter with optional per-client tracking. Per-client buckets
/// are created lazily and evicted once a cleanup pass finds them idle.
pub struct RateLimiter {
    pub global_limiter: TokenBucket,
    pub per_connection_limiters: Vec<(String, TokenBucket)>,
    pub per_connection_limit: Option<(u64, u64)>,
    pub cleanup_interval_ms: u64,
    pub last_cleanup_ms: u64,
}

impl RateLimiter {
    /// Client ids are unique; every bucket is well-formed and carries the
    /// configured per-client rate and burst; without a per-client policy no
    /// buckets exist.
    pub open spec fn wf(self) -> bool {
        &&& self.global_limiter.wf()
        &&& distinct_keys(self.per_connection_limiters@)
        &&& match self.per_connection_limit {
            Some((rps, burst)) => rps <= MAX_RATE && burst <= MAX_BURST && forall|i: int|
                0 <= i < self.per_connection_limiters@.len() ==> (
                #[trigger] self.per_connection_limiters@[i].1).wf()
                    && self.per_connection_limiters@[i].1.refill_rate == rps
                    && self.per_connection_limiters@[i].1.capacity == burst,
            None => self.per_connection_limiters@.len() == 0,
        }
    }

    /// Every clock reading stored is no later than `now_ms`.
    pub open spec fn seen_up_to(self, now_ms: u64) -> bool {
        &&& self.global_limiter.seen_up_to(now_ms)
        &&& self.last_cleanup_ms <= now_ms
        &&& forall|i: int|
            0 <= i < self.per_connection_limiters@.len() ==> (
            #[trigger] self.per_connection_limiters@[i].1).seen_up_to(now_ms)
    }

    /// The stored bucket for client `k`, if any.
    pub open spec fn spec_get(self, k: Seq<char>) -> Option<TokenBucket> {
        assoc_get(self.per_connection_limiters@, k)
    }

    /// The bucket a per-client check acts on: the stored one, or a fresh
    /// full one for a new client.
    pub open spec fn bucket_or_fresh(self, k: Seq<char>, now_ms: u64) -> TokenBucket {
        match self.spec_get(k) {
            Some(b) => b,
            None => match self.per_connection_limit {
                Some((rps, burst)) => TokenBucket::fresh(rps, burst, now_ms),
                None => TokenBucket::fresh(0, 0, now_ms),
            },
        }
    }

    /// Does a cleanup pass run when an admission succeeds at `now_ms`?
    pub open spec fn cleanup_due(self, now_ms: u64) -> bool {
        now_ms - self.last_cleanup_ms >= self.cleanup_interval_ms
    }

    /// The admission decision alone: the global bucket must grant a token
    /// first; only then is the client's bucket (created if missing)
    /// consulted, when a per-client policy is configured and a client id is
    /// given.
    pub open spec fn spec_allow_decision(self, cid: Option<Seq<char>>, now_ms: u64) -> bool {
        if !self.global_limiter.spec_try_consume(1, now_ms).1 {
            false
        } else {
            match (self.per_connection_limit, cid) {
                (Some(_), Some(k)) => self.bucket_or_fresh(k, now_ms).spec_try_consume(
                    1,
                    now_ms,
                ).1,
                _ => true,
            }
        }
    }

    pub fn new(global_rps: u64, global_burst: u64, now_ms: u64) -> (r: RateLimiter)
        requires
            global_rps <= MAX_RATE,
            global_burst <= MAX_BURST,
        ensures
            r.global_limiter == TokenBucket::fresh(global_rps, global_burst, now_ms),
            r.per_connection_limiters@.len() == 0,
            r.per_connection_limit == None::<(u64, u64)>,
            r.cleanup_interval_ms == 60000,
            r.last_cleanup_ms == now_ms,
            r.wf(),
            r.seen_up_to(now_ms),
    {
        RateLimiter {
            global_limiter: TokenBucket::new(global_rps, global_burst, now_ms),
            per_connection_limiters: Vec::new(),
            per_connection_limit: None,
            cleanup_interval_ms: 60000,
            last_cleanup_ms: now_ms,
        }
    }

    /// Add a per-client policy of `rps` tokens per second with burst
    /// `burst`, before any client has been seen.
    pub fn with_per_connection_limit(self, rps: u64, burst: u64) -> (r: RateLimiter)
        requires
            self.wf(),
            rps <= MAX_RATE,
            burst <= MAX_BURST,
            self.per_connection_limiters@.len() == 0,
        ensures
            r == (RateLimiter { per_connection_limit: Some((rps, burst)), ..self }),
            r.wf(),
            forall|now_ms: u64| self.seen_up_to(now_ms) ==> r.seen_up_to(now_ms),
    {
        RateLimiter { per_connection_limit: Some((rps, burst)), ..self }
    }

    /// Consume from the bucket of client `cid`, creating it if missing.
    fn touch_bucket(&mut self, cid: &str, rps: u64, burst: u64, now_ms: u64) -> (ok: bool)
        requires
            old(self).wf(),
            old(self).seen_up_to(now_ms),
            old(self).per_connection_limit == Some((rps, burst)),
        ensures
            final(self).global_limiter == old(self).global_limiter,
            final(self).per_connection_limit == old(self).per_connection_limit,
            final(self).cleanup_interval_ms == old(self).cleanup_interval_ms,
            final(self).last_cleanup_ms == old(self).last_cleanup_ms,
            final(self).wf(),
            final(self).seen_up_to(now_ms),
            ok == old(self).bucket_or_fresh(cid@, now_ms).spec_try_consume(1, now_ms).1,
            final(self).spec_get(cid@) == Some(
                old(self).bucket_or_fresh(cid@, now_ms).spec_try_consume(1, now_ms).0,
            ),
            forall|k2: Seq<char>| k2 != cid@ ==> final(self).spec_get(k2) == old(self).spec_get(k2),
    {
        match find_key(&self.per_connection_limiters, cid) {
            Some(i) => {
                let ghost old_entries = self.per_connection_limiters@;
                let pair = &mut self.per_connection_limiters[i];
                let ok = pair.1.try_consume(1, now_ms);
                proof {
                    self.lemma_updated_bucket(old_entries, i as int);
                }
                ok
            },
            None => {
                let ghost old_entries = self.per_connection_limiters@;
                let mut bucket = TokenBucket::new(rps, burst, now_ms);
                let ok = bucket.try_consume(1, now_ms);
                self.per_connection_limiters.push((cid.to_owned(), bucket));
                proof {
                    self.lemma_pushed_bucket(old_entries, cid@);
                }
                ok
            },
        }
    }

    /// Evict idle per-client buckets, at most once per cleanup interval.
    fn cleanup_old_limiters(&mut self, now_ms: u64)
        requires
            old(self).wf(),
            old(self).seen_up_to(now_ms),
        ensures
            final(self).global_limiter == old(self).global_limiter,
            final(self).per_connection_limit == old(self).per_connection_limit,
            final(self).cleanup_interval_ms == old(self).cleanup_interval_ms,
            final(self).wf(),
            final(self).seen_up_to(now_ms),
            !old(self).cleanup_due(now_ms) ==> *final(self) == *old(self),
            old(self).cleanup_due(now_ms) ==> final(self).per_connection_limiters@ == cleaned(
                old(self).per_connection_limiters@,
                now_ms,
            ) && final(self).last_cleanup_ms == now_ms,
    {
        if now_ms - self.last_cleanup_ms < self.cleanup_interval_ms {
            return ;
        }
        let n = self.per_connection_limiters.len();
        let mut kept: Vec<(String, TokenBucket)> = Vec::new();
        proof {
            assert(self.per_connection_limiters@.take(0) =~= Seq::<(String, TokenBucket)>::empty());
        }
        let mut i: usize = 0;
        while i < n
            invariant
                n == self.per_connection_limiters@.len(),
                i <= n,
                kept@ == cleaned(self.per_connection_limiters@.take(i as int), now_ms),
                self.wf(),
                self.seen_up_to(now_ms),
            decreases n - i,
        {
            let ghost prefix = self.per_connection_limiters@.take(i as int);
            let ghost prefix1 = self.per_connection_limiters@.take(i + 1);
            let pair = &self.per_connection_limiters[i];
            let mut bucket: TokenBucket = TokenBucket {
                capacity: pair.1.capacity,
                tokens_milli: pair.1.tokens_milli,
                refill_rate: pair.1.refill_rate,
                last_refill_ms: pair.1.last_refill_ms,
            };
            bucket.refill(now_ms);
            let cap_milli: u64 = bucket.capacity * 1000;
            proof {
                assert(prefix1.drop_last() =~= prefix);
                assert(prefix1.last() == self.per_connection_limiters@[i as int]);
            }
            if bucket.tokens_milli < cap_milli {
                kept.push((pair.0.clone(), bucket));
            }
            i = i + 1;
        }
        proof {
            assert(self.per_connection_limiters@.take(n as int)
                =~= self.per_connection_limiters@);
        }
        let ghost old_entries = self.per_connection_limiters@;
        self.per_connection_limiters = kept;
        self.last_cleanup_ms = now_ms;
        proof {
            lemma_cleaned_get(old_entries, now_ms, Seq::<char>::empty());
            assert forall|j: int|
                0 <= j < self.per_connection_limiters@.len() implies (
            #[trigger] self.per_connection_limiters@[j].1).wf()
                && self.per_connection_limiters@[j].1.seen_up_to(now_ms)
                && match self.per_connection_limit {
                Some((rps, burst)) => self.per_connection_limiters@[j].1.refill_rate == rps
                    && self.per_connection_limiters@[j].1.capacity == burst,
                None => false,
            } by {
                lemma_cleaned_mem(old_entries, now_ms, j);
            }
        }
    }

    /// Should a request be admitted? The global limit is checked first, so a
    /// client rejected by its own bucket has still spent a global token.
    pub fn allow_request(&mut self, connection_id: Option<&str>, now_ms: u64) -> (allowed: bool)
        requires
            old(self).wf(),
            old(self).seen_up_to(now_ms),
        ensures
            final(self).wf(),
            final(self).seen_up_to(now_ms),
            final(self).per_connection_limit == old(self).per_connection_limit,
            final(self).cleanup_interval_ms == old(self).cleanup_interval_ms,
            allowed == old(self).spec_allow_decision(
                match connection_id {
                    Some(c) => Some(c@),
                    None => None::<Seq<char>>,
                },
                now_ms,
            ),
            final(self).global_limiter == old(self).global_limiter.spec_try_consume(
                1,
                now_ms,
            ).0,
            !allowed ==> final(self).last_cleanup_ms == old(self).last_cleanup_ms,
            allowed && !old(self).cleanup_due(now_ms) ==> final(self).last_cleanup_ms == old(
                self,
            ).last_cleanup_ms,
            allowed && old(self).cleanup_due(now_ms) ==> final(self).last_cleanup_ms == now_ms,
            ({
                let ga = old(self).global_limiter.spec_try_consume(1, now_ms).1;
                if !ga {
                    final(self).per_connection_limiters@ == old(self).per_connection_limiters@
                } else {
                    match (old(self).per_connection_limit, connection_id) {
                        (Some(_), Some(cid)) => {
                            let (b1, pa) = old(self).bucket_or_fresh(
                                cid@,
                                now_ms,
                            ).spec_try_consume(1, now_ms);
                            &&& final(self).spec_get(cid@) == Some(b1)
                            &&& if !pa || !old(self).cleanup_due(now_ms) {
                                forall|k2: Seq<char>|
                                    k2 != cid@ ==> final(self).spec_get(k2) == old(self).spec_get(
                                        k2,
                                    )
                            } else {
                                forall|k2: Seq<char>|
                                    k2 != cid@ ==> final(self).spec_get(k2) == spec_cleanup_entry(
                                        old(self).spec_get(k2),
                                        now_ms,
                                    )
                            }
                        },
                        _ => if !old(self).cleanup_due(now_ms) {
                            final(self).per_connection_limiters@ == old(
                                self,
                            ).per_connection_limiters@
                        } else {
                            forall|k2: Seq<char>|
                                final(self).spec_get(k2) == spec_cleanup_entry(
                                    old(self).spec_get(k2),
                                    now_ms,
                                )
                        },
                    }
                }
            }),
    {
        if !self.global_limiter.try_consume(1, now_ms) {
            return false;
        }
        let per_limit = self.per_connection_limit;
        match (per_limit, connection_id) {
            (Some((rps, burst)), Some(conn_id)) => {
                if !self.touch_bucket(conn_id, rps, burst, now_ms) {
                    return false;
                }
            },
            _ => {},
        }
        let ghost mid = *self;
        self.cleanup_old_limiters(now_ms);
        proof {
            if mid.cleanup_due(now_ms) {
                assert forall|k2: Seq<char>| #[trigger] self.spec_get(k2) == spec_cleanup_entry(
                    mid.spec_get(k2),
                    now_ms,
                ) by {
                    lemma_cleaned_get(mid.per_connection_limiters@, now_ms, k2);
                }
            }
            match (old(self).per_connection_limit, connection_id) {
                (Some(_), Some(cid)) => {
                    let b0 = old(self).bucket_or_fresh(cid@, now_ms);
                    let b1 = b0.spec_try_consume(1, now_ms).0;
                    let pa = b0.spec_try_consume(1, now_ms).1;
                    assert(b0.wf() && b0.seen_up_to(now_ms)) by {
                        if old(self).spec_get(cid@) is Some {
                            lemma_key_index_is_first_match(
                                old(self).per_connection_limiters@,
                                cid@,
                            );
                        }
                    }
                    lemma_tokens_stay_bounded(b0, 1, now_ms);
                    if pa && mid.cleanup_due(now_ms) {
                        assert(b1.wf());
                        lemma_refill_at_same_instant(b1, now_ms);
                        assert(b1.tokens_milli < b1.capacity * 1000);
                        assert(self.spec_get(cid@) == Some(b1));
                    }
                },
                _ => {},
            }
        }
        true
    }

    /// Available global tokens and global capacity.
    pub fn get_global_stats(&mut self, now_ms: u64) -> (r: (u64, u64))
        requires
            old(self).wf(),
            old(self).seen_up_to(now_ms),
        ensures
            final(self).wf(),
            final(self).seen_up_to(now_ms),
            *final(self) == (RateLimiter {
                global_limiter: old(self).global_limiter.spec_refill(now_ms),
                ..*old(self)
            }),
            r.0 == final(self).global_limiter.tokens_milli / 1000,
            r.1 == old(self).global_limiter.capacity,
    {
        let available = self.global_limiter.available_tokens(now_ms);
        (available, self.global_limiter.capacity)
    }

    /// Number of per-client buckets currently tracked.
    pub fn tracked_connections(&self) -> (n: usize)
        ensures
            n == self.per_connection_limiters@.len(),
    {
        self.per_connection_limiters.len()
    }

    /// After updating the bucket at `i` in place (key untouched), lookups of
    /// other clients are unchanged and distinctness survives.
    proof fn lemma_updated_bucket(&self, old_entries: Seq<(String, TokenBucket)>, i: int)
        requires
            distinct_keys(old_entries),
            0 <= i < old_entries.len(),
            self.per_connection_limiters@.len() == old_entries.len(),
            forall|j: int|
                0 <= j < old_entries.len() ==> self.per_connection_limiters@[j].0@
                    == old_entries[j].0@,
            forall|j: int|
                0 <= j < old_entries.len() && j != i ==> self.per_connection_limiters@[j]
                    == old_entries[j],
        ensures
            distinct_keys(self.per_connection_limiters@),
            assoc_get(self.per_connection_limiters@, old_entries[i].0@) == Some(
                self.per_connection_limiters@[i].1,
            ),
            key_index(old_entries, old_entries[i].0@) == i,
            forall|k2: Seq<char>|
                k2 != old_entries[i].0@ ==> assoc_get(self.per_connection_limiters@, k2)
                    == assoc_get(old_entries, k2),
    {
        assert forall|a: int, b: int|
            0 <= a < b < self.per_connection_limiters@.len() implies self
            .per_connection_limiters@[a].0@ != self.per_connection_limiters@[b].0@ by {
            assert(self.per_connection_limiters@[a].0@ == old_entries[a].0@);
            assert(self.per_connection_limiters@[b].0@ == old_entries[b].0@);
        }
        let k = old_entries[i].0@;
        lemma_key_index_same_keys(self.per_connection_limiters@, old_entries, k);
        lemma_key_index_is_first_match(self.per_connection_limiters@, k);
        lemma_key_index_is_first_match(old_entries, k);
        assert(key_index(old_entries, k) == i);
        assert forall|k2: Seq<char>| k2 != k implies assoc_get(
            self.per_connection_limiters@,
            k2,
        ) == assoc_get(old_entries, k2) by {
            lemma_key_index_same_keys(self.per_connection_limiters@, old_entries, k2);
            lemma_key_index_is_first_match(old_entries, k2);
        }
    }

    /// After pushing a bucket with the fresh key `k`, lookups of other
    /// clients are unchanged and distinctness survives.
    proof fn lemma_pushed_bucket(&self, old_entries: Seq<(String, TokenBucket)>, k: Seq<char>)
        requires
            distinct_keys(old_entries),
            !has_key(old_entries, k),
            self.per_connection_limiters@.len() == old_entries.len() + 1,
            self.per_connection_limiters@ == old_entries.push(self.per_connection_limiters@.last()),
            self.per_connection_limiters@.last().0@ == k,
        ensures
            distinct_keys(self.per_connection_limiters@),
            assoc_get(self.per_connection_limiters@, k) == Some(
                self.per_connection_limiters@.last().1,
            ),
            forall|k2: Seq<char>|
                k2 != k ==> assoc_get(self.per_connection_limiters@, k2) == assoc_get(
                    old_entries,
                    k2,
                ),
    {
        let e = self.per_connection_limiters@.last();
        lemma_push_distinct(old_entries, e);
        lemma_key_index_push(old_entries, e, k);
        lemma_key_index_is_first_match(old_entries, k);
        assert forall|k2: Seq<char>| k2 != k implies assoc_get(
            self.per_connection_limiters@,
            k2,
        ) == assoc_get(old_entries, k2) by {
            lemma_key_index_push(old_entries, e, k2);
            lemma_key_index_is_first_match(old_entries, k2);
            lemma_key_index_is_first_match(self.per_connection_limiters@, k2);
        }
    }
}

/// Every entry of a cleaned bucket list is a refilled entry of the original
/// list, below its capacity.
proof fn lemma_cleaned_mem(s: Seq<(String, TokenBucket)>, now_ms: u64, j: int)
    requires
        0 <= j < cleaned(s, now_ms).len(),
    ensures
        exists|i: int|
            0 <= i < s.len() && cleaned(s, now_ms)[j] == (
            #[trigger] s[i].0,
            s[i].1.spec_refill(now_ms),
            ) && s[i].1.spec_refill(now_ms).tokens_milli < s[i].1.capacity * 1000,
    decreases s.len(),
{
    if s.len() > 0 {
        let s1 = s.drop_last();
        let rest = cleaned(s1, now_ms);
        if j < rest.len() {
            lemma_cleaned_mem(s1, now_ms, j);
            let i = choose|i: int|
                0 <= i < s1.len() && rest[j] == (#[trigger] s1[i].0, s1[i].1.spec_refill(now_ms))
                    && s1[i].1.spec_refill(now_ms).tokens_milli < s1[i].1.capacity * 1000;
            assert(s[i] == s1[i]);
        } else {
            assert(s[s.len() - 1] == s.last());
        }
    }
}

} // verus!
