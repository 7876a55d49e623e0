//! UDP NAT/session engine: stateful address translation over one listening
//! socket, with forward (client to session) and reverse (backend socket to
//! client) tables and an expiry reaper.
//!
//! The engine decides; the embedding owns the socket. For each received
//! datagram the embedding asks `handle_datagram` what to do, resolves a
//! backend address into a socket address when asked to (a datagram whose
//! backend address cannot be resolved is dropped with no state mutated), and
//! performs the send.

use vstd::prelude::*;

use crate::keyed::{
    assoc_get, distinct_keys, find_key, has_key, key_index, lemma_key_index_is_first_match,
    lemma_key_index_push, lemma_key_index_same_keys, lemma_push_distinct,
};
use crate::load_balancer::LoadBalancer;
use crate::metrics::wrap_add;

verus! {

/// Sessions idle for longer than this many milliseconds are reaped.
pub const SESSION_TIMEOUT_MS: u64 = 60000;

/// NAT mapping for one client endpoint, with bidirectional byte and packet
/// counters.
pub struct UdpSession {
    pub backend_addr: String,
    pub backend_socket_addr: String,
    pub client_addr: String,
    pub last_activity_ms: u64,
    pub bytes_sent: u64,
    pub bytes_received: u64,
    pub packets_sent: u64,
    pub packets_received: u64,
}

impl UdpSession {
    /// The session has been touched no later than `now_ms`.
    pub open spec fn seen_up_to(self, now_ms: u64) -> bool {
        self.last_activity_ms <= now_ms
    }

    /// Idle for longer than `timeout_ms` at `now_ms`.
    pub open spec fn spec_expired(self, timeout_ms: u64, now_ms: u64) -> bool {
        now_ms - self.last_activity_ms > timeout_ms
    }

    /// The session after a client-to-backend packet of `bytes` bytes.
    pub open spec fn spec_record_sent(self, bytes: u64, now_ms: u64) -> UdpSession {
        UdpSession {
            bytes_sent: wrap_add(self.bytes_sent, bytes),
            packets_sent: wrap_add(self.packets_sent, 1),
            last_activity_ms: now_ms,
            ..self
        }
    }

    /// The session after a backend-to-client packet of `bytes` bytes.
    pub open spec fn spec_record_received(self, bytes: u64, now_ms: u64) -> UdpSession {
        UdpSession {
            bytes_received: wrap_add(self.bytes_received, bytes),
            packets_received: wrap_add(self.packets_received, 1),
            last_activity_ms: now_ms,
            ..self
        }
    }

    pub fn new(backend_addr: String, backend_socket_addr: String, client_addr: String, now_ms: u64) -> (r: UdpSession)
        ensures
            r.backend_addr == backend_addr,
            r.backend_socket_addr == backend_socket_addr,
            r.client_addr == client_addr,
            r.last_activity_ms == now_ms,
            r.bytes_sent == 0,
            r.bytes_received == 0,
            r.packets_sent == 0,
            r.packets_received == 0,
    {
        UdpSession {
            backend_addr,
            backend_socket_addr,
            client_addr,
            last_activity_ms: now_ms,
            bytes_sent: 0,
            bytes_received: 0,
            packets_sent: 0,
            packets_received: 0,
        }
    }

    /// Touch the session.
    pub fn update_activity(&mut self, now_ms: u64)
        ensures
            *final(self) == (UdpSession { last_activity_ms: now_ms, ..*old(self) }),
    {
        self.last_activity_ms = now_ms;
    }

    /// Idle for longer than `timeout_ms`?
    pub fn is_expired(&self, timeout_ms: u64, now_ms: u64) -> (r: bool)
        requires
            self.seen_up_to(now_ms),
        ensures
            r == self.spec_expired(timeout_ms, now_ms),
    {
        now_ms - self.last_activity_ms > timeout_ms
    }

    /// Count a client-to-backend packet.
    pub fn record_sent(&mut self, bytes: u64, now_ms: u64)
        ensures
            *final(self) == old(self).spec_record_sent(bytes, now_ms),
    {
        self.bytes_sent = self.bytes_sent.wrapping_add(bytes);
        self.packets_sent = self.packets_sent.wrapping_add(1);
        self.update_activity(now_ms);
    }

    /// Count a backend-to-client packet.
    pub fn record_received(&mut self, bytes: u64, now_ms: u64)
        ensures
            *final(self) == old(self).spec_record_received(bytes, now_ms),
    {
        self.bytes_received = self.bytes_received.wrapping_add(bytes);
        self.packets_received = self.packets_received.wrapping_add(1);
        self.update_activity(now_ms);
    }
}

/// What the engine asks the embedding to do with a datagram.
pub enum UdpStep {
    /// The datagram came from a known backend: send it on to this client.
    ForwardToClient { client_addr: String },
    /// The datagram came from a known client: send it on to this backend
    /// socket.
    ForwardToBackend { backend_socket_addr: String },
    /// The datagram came from a new client: resolve this backend address
    /// into a socket address, then call `create_session` and send. If the
    /// address does not resolve, drop the datagram; no state was mutated.
    ResolveBackend { backend_addr: String },
    /// No healthy backend is available: drop the datagram.
    DropNoBackend,
    /// The reverse table named a session that is gone (a transient state
    /// while a mapping is torn down): drop the datagram.
    DropUnknownSession,
}

/// The sessions that survive a reaper pass: those not yet expired.
pub open spec fn live_sessions(
    s: Seq<(String, UdpSession)>,
    timeout_ms: u64,
    now_ms: u64,
) -> Seq<(String, UdpSession)>
    decreases s.len(),
{
    if s.len() == 0 {
        Seq::empty()
    } else {
        let rest = live_sessions(s.drop_last(), timeout_ms, now_ms);
        if s.last().1.spec_expired(timeout_ms, now_ms) {
            rest
        } else {
            rest.push(s.last())
        }
    }
}

/// The sessions a reaper pass removes: those expired.
pub open spec fn expired_sessions(
    s: Seq<(String, UdpSession)>,
    timeout_ms: u64,
    now_ms: u64,
) -> Seq<(String, UdpSession)>
    decreases s.len(),
{
    if s.len() == 0 {
        Seq::empty()
    } else {
        let rest = expired_sessions(s.drop_last(), timeout_ms, now_ms);
        if s.last().1.spec_expired(timeout_ms, now_ms) {
            rest.push(s.last())
        } else {
            rest
        }
    }
}

/// Does some expired session translate to backend socket `sock`?
pub open spec fn has_expired_sock(
    s: Seq<(String, UdpSession)>,
    timeout_ms: u64,
    now_ms: u64,
    sock: Seq<char>,
) -> bool {
    exists|i: int|
        0 <= i < s.len() && (#[trigger] s[i].1).spec_expired(timeout_ms, now_ms)
            && s[i].1.backend_socket_addr@ == sock
}

/// The reverse entries that survive a reaper pass: those whose backend
/// socket is not the socket of any expired session.
pub open spec fn pruned_reverse(
    r: Seq<(String, String)>,
    s: Seq<(String, UdpSession)>,
    timeout_ms: u64,
    now_ms: u64,
) -> Seq<(String, String)>
    decreases r.len(),
{
    if r.len() == 0 {
        Seq::empty()
    } else {
        let rest = pruned_reverse(r.drop_last(), s, timeout_ms, now_ms);
        if has_expired_sock(s, timeout_ms, now_ms, r.last().0@) {
            rest
        } else {
            rest.push(r.last())
        }
    }
}

/// Reading the surviving sessions: a session survives exactly when it had
/// not expired, unchanged.
proof fn lemma_live_get(s: Seq<(String, UdpSession)>, timeout_ms: u64, now_ms: u64, k: Seq<char>)
    requires
        distinct_keys(s),
    ensures
        distinct_keys(live_sessions(s, timeout_ms, now_ms)),
        assoc_get(live_sessions(s, timeout_ms, now_ms), k) == match assoc_get(s, k) {
            Some(x) => if x.spec_expired(timeout_ms, now_ms) {
                None::<UdpSession>
            } else {
                Some(x)
            },
            None => None::<UdpSession>,
        },
    decreases s.len(),
{
    if s.len() == 0 {
        lemma_key_index_is_first_match(live_sessions(s, timeout_ms, now_ms), k);
        lemma_key_index_is_first_match(s, k);
    } else {
        let s1 = s.drop_last();
        let p = s.last();
        let rest = live_sessions(s1, timeout_ms, now_ms);
        assert(s == s1.push(p));
        lemma_live_get(s1, timeout_ms, now_ms, k);
        lemma_live_get(s1, timeout_ms, now_ms, p.0@);
        lemma_key_index_push(s1, p, k);
        lemma_key_index_is_first_match(s1, k);
        lemma_key_index_is_first_match(rest, k);
        assert(!has_key(s1, p.0@)) by {
            lemma_key_index_is_first_match(s1, p.0@);
            if has_key(s1, p.0@) {
                let ki = key_index(s1, p.0@);
                assert(s[ki] == s1[ki]);
                assert(s[s.len() - 1] == p);
                assert(false);
            }
        }
        assert(!has_key(rest, p.0@));
        if !p.1.spec_expired(timeout_ms, now_ms) {
            lemma_push_distinct(rest, p);
            lemma_key_index_push(rest, p, k);
        }
    }
}

/// Reading the surviving reverse entries: an entry survives exactly when no
/// expired session used its socket, unchanged.
proof fn lemma_pruned_get(
    r: Seq<(String, String)>,
    s: Seq<(String, UdpSession)>,
    timeout_ms: u64,
    now_ms: u64,
    k: Seq<char>,
)
    requires
        distinct_keys(r),
    ensures
        distinct_keys(pruned_reverse(r, s, timeout_ms, now_ms)),
        assoc_get(pruned_reverse(r, s, timeout_ms, now_ms), k) == match assoc_get(r, k) {
            Some(v) => if has_expired_sock(s, timeout_ms, now_ms, k) {
                None::<String>
            } else {
                Some(v)
            },
            None => None::<String>,
        },
    decreases r.len(),
{
    if r.len() == 0 {
        lemma_key_index_is_first_match(pruned_reverse(r, s, timeout_ms, now_ms), k);
        lemma_key_index_is_first_match(r, k);
    } else {
        let r1 = r.drop_last();
        let p = r.last();
        let rest = pruned_reverse(r1, s, timeout_ms, now_ms);
        assert(r == r1.push(p));
        lemma_pruned_get(r1, s, timeout_ms, now_ms, k);
        lemma_pruned_get(r1, s, timeout_ms, now_ms, p.0@);
        lemma_key_index_push(r1, p, k);
        lemma_key_index_is_first_match(r1, k);
        lemma_key_index_is_first_match(rest, k);
        assert(!has_key(r1, p.0@)) by {
            lemma_key_index_is_first_match(r1, p.0@);
            if has_key(r1, p.0@) {
                let ki = key_index(r1, p.0@);
                assert(r[ki] == r1[ki]);
                assert(r[r.len() - 1] == p);
                assert(false);
            }
        }
        assert(!has_key(rest, p.0@));
        if !has_expired_sock(s, timeout_ms, now_ms, p.0@) {
            lemma_push_distinct(rest, p);
            lemma_key_index_push(rest, p, k);
        }
    }
}

/// A socket is the socket of some expired session exactly when the removed
/// list mentions it.
proof fn lemma_expired_sock_iff(
    s: Seq<(String, UdpSession)>,
    timeout_ms: u64,
    now_ms: u64,
    sock: Seq<char>,
)
    ensures
        has_expired_sock(s, timeout_ms, now_ms, sock) <==> exists|i: int|
            0 <= i < expired_sessions(s, timeout_ms, now_ms).len() && (#[trigger] expired_sessions(
                s,
                timeout_ms,
                now_ms,
            )[i]).1.backend_socket_addr@ == sock,
    decreases s.len(),
{
    let ex = expired_sessions(s, timeout_ms, now_ms);
    if s.len() == 0 {
    } else {
        let s1 = s.drop_last();
        let p = s.last();
        let ex1 = expired_sessions(s1, timeout_ms, now_ms);
        assert(s == s1.push(p));
        lemma_expired_sock_iff(s1, timeout_ms, now_ms, sock);
        if has_expired_sock(s1, timeout_ms, now_ms, sock) {
            let i = choose|i: int|
                0 <= i < s1.len() && (#[trigger] s1[i].1).spec_expired(timeout_ms, now_ms)
                    && s1[i].1.backend_socket_addr@ == sock;
            assert(s[i] == s1[i]);
            assert(has_expired_sock(s, timeout_ms, now_ms, sock));
        }
        if p.1.spec_expired(timeout_ms, now_ms) {
            assert(ex == ex1.push(p));
            if p.1.backend_socket_addr@ == sock {
                assert(s[s.len() - 1] == p);
                assert(has_expired_sock(s, timeout_ms, now_ms, sock));
                assert(ex[ex.len() - 1] == p);
            }
        } else {
            assert(ex == ex1);
        }
        if has_expired_sock(s, timeout_ms, now_ms, sock) {
            let i = choose|i: int|
                0 <= i < s.len() && (#[trigger] s[i].1).spec_expired(timeout_ms, now_ms)
                    && s[i].1.backend_socket_addr@ == sock;
            if i < s1.len() {
                assert(s1[i] == s[i]);
                assert(has_expired_sock(s1, timeout_ms, now_ms, sock));
                let j = choose|j: int|
                    0 <= j < ex1.len() && (#[trigger] ex1[j]).1.backend_socket_addr@ == sock;
                if p.1.spec_expired(timeout_ms, now_ms) {
                    assert(ex[j] == ex1[j]);
                } else {
                    assert(ex[j] == ex1[j]);
                }
            } else {
                assert(s[i] == p);
            }
        }
        if exists|i: int|
            0 <= i < ex.len() && (#[trigger] ex[i]).1.backend_socket_addr@ == sock {
            let i = choose|i: int|
                0 <= i < ex.len() && (#[trigger] ex[i]).1.backend_socket_addr@ == sock;
            if p.1.spec_expired(timeout_ms, now_ms) {
                if i < ex1.len() {
                    assert(ex1[i] == ex[i]);
                } else {
                    assert(ex[i] == p);
                    assert(s[s.len() - 1] == p);
                }
            } else {
                assert(ex1[i] == ex[i]);
            }
        }
    }
}

/// The NAT session tables: a forward table keyed by client endpoint and a
/// reverse table keyed by backend socket address. Every reverse entry names
/// a live session whose backend socket is that entry's key.
pub struct UdpNat {
    pub sessions: Vec<(String, UdpSession)>,
    pub reverse_sessions: Vec<(String, String)>,
}

impl UdpNat {
    /// Keys are unique in both tables; every session records its own client
    /// key; every reverse entry points at a live session translating to the
    /// entry's socket.
    pub open spec fn wf(self) -> bool {
        &&& distinct_keys(self.sessions@)
        &&& distinct_keys(self.reverse_sessions@)
        &&& forall|i: int|
            0 <= i < self.sessions@.len() ==> (#[trigger] self.sessions@[i].1).client_addr@
                == self.sessions@[i].0@
        &&& forall|i: int|
            0 <= i < self.reverse_sessions@.len() ==> has_key(
                self.sessions@,
                (#[trigger] self.reverse_sessions@[i]).1@,
            ) && assoc_get(self.sessions@, self.reverse_sessions@[i].1@)
                ->Some_0.backend_socket_addr@ == self.reverse_sessions@[i].0@
    }

    /// Every session has been touched no later than `now_ms`.
    pub open spec fn seen_up_to(self, now_ms: u64) -> bool {
        forall|i: int|
            0 <= i < self.sessions@.len() ==> (#[trigger] self.sessions@[i].1).seen_up_to(now_ms)
    }

    /// The stored session for a client key, if any.
    pub open spec fn spec_session(self, k: Seq<char>) -> Option<UdpSession> {
        assoc_get(self.sessions@, k)
    }

    /// The client key the reverse table holds for a backend socket, if any.
    pub open spec fn spec_reverse(self, sock: Seq<char>) -> Option<String> {
        assoc_get(self.reverse_sessions@, sock)
    }

    pub fn new() -> (r: UdpNat)
        ensures
            r.sessions@.len() == 0,
            r.reverse_sessions@.len() == 0,
            r.wf(),
            forall|now_ms: u64| r.seen_up_to(now_ms),
    {
        UdpNat { sessions: Vec::new(), reverse_sessions: Vec::new() }
    }

    /// Decide what to do with a datagram of `len` bytes received from
    /// `peer_addr` (whose host part is `peer_ip`). Consults the reverse
    /// table first, so a datagram from a known backend socket is never
    /// taken for a new client. Selection for a new client uses the client's
    /// IP as the consistent-hashing context.
    pub fn handle_datagram(
        &mut self,
        peer_addr: &str,
        peer_ip: &str,
        len: u64,
        now_ms: u64,
        lb: &mut LoadBalancer,
    ) -> (step: UdpStep)
        requires
            old(self).wf(),
            old(self).seen_up_to(now_ms),
            old(lb).wf(),
        ensures
            final(self).wf(),
            final(self).seen_up_to(now_ms),
            final(lb).wf(),
            match assoc_get(old(self).reverse_sessions@, peer_addr@) {
                Some(client_key) => *final(lb) == *old(lb)
                    && final(self).reverse_sessions@ == old(self).reverse_sessions@ && match
                    assoc_get(old(self).sessions@, client_key@) {
                    Some(sess) => {
                        &&& step matches UdpStep::ForwardToClient { client_addr } && client_addr@
                            == sess.client_addr@
                        &&& final(self).spec_session(client_key@) == Some(
                            sess.spec_record_received(len, now_ms),
                        )
                        &&& forall|k2: Seq<char>|
                            k2 != client_key@ ==> final(self).spec_session(k2) == old(
                                self,
                            ).spec_session(k2)
                    },
                    None => step matches UdpStep::DropUnknownSession && *final(self) == *old(self),
                },
                None => match assoc_get(old(self).sessions@, peer_addr@) {
                    Some(sess) => {
                        &&& *final(lb) == *old(lb)
                        &&& step matches UdpStep::ForwardToBackend { backend_socket_addr }
                            && backend_socket_addr@ == sess.backend_socket_addr@
                        &&& final(self).spec_session(peer_addr@) == Some(
                            sess.spec_record_sent(len, now_ms),
                        )
                        &&& forall|k2: Seq<char>|
                            k2 != peer_addr@ ==> final(self).spec_session(k2) == old(
                                self,
                            ).spec_session(k2)
                        &&& final(self).spec_reverse(sess.backend_socket_addr@) matches Some(v)
                            && v@ == peer_addr@
                        &&& forall|k2: Seq<char>|
                            k2 != sess.backend_socket_addr@ ==> final(self).spec_reverse(k2) == old(
                                self,
                            ).spec_reverse(k2)
                    },
                    None => {
                        &&& *final(self) == *old(self)
                        &&& (*final(lb), match step {
                            UdpStep::ResolveBackend { backend_addr } => Some(backend_addr),
                            _ => None::<String>,
                        }) == ({
                            let (lb1, sel) = old(lb).spec_select(Some(peer_ip@));
                            (lb1, match sel {
                                Some(b) => Some(b.address),
                                None => None::<String>,
                            })
                        })
                        &&& (step matches UdpStep::ResolveBackend { .. } || step matches
                            UdpStep::DropNoBackend)
                    },
                },
            },
    {
        match find_key(&self.reverse_sessions, peer_addr) {
            Some(ri) => {
                let client_key = self.reverse_sessions[ri].1.clone();
                match find_key(&self.sessions, client_key.as_str()) {
                    Some(si) => {
                        let ghost old_entries = self.sessions@;
                        let pair = &mut self.sessions[si];
                        pair.1.record_received(len, now_ms);
                        let client_addr = pair.1.client_addr.clone();
                        proof {
                            self.lemma_updated_session(old_entries, si as int);
                        }
                        UdpStep::ForwardToClient { client_addr }
                    },
                    None => UdpStep::DropUnknownSession,
                }
            },
            None => {
                match find_key(&self.sessions, peer_addr) {
                    Some(si) => {
                        let ghost old_entries = self.sessions@;
                        let pair = &mut self.sessions[si];
                        pair.1.record_sent(len, now_ms);
                        let sock = pair.1.backend_socket_addr.clone();
                        proof {
                            self.lemma_updated_session(old_entries, si as int);
                        }
                        self.upsert_reverse(sock.as_str(), peer_addr);
                        UdpStep::ForwardToBackend { backend_socket_addr: sock }
                    },
                    None => {
                        match lb.select_backend_with_context(Some(peer_ip)) {
                            Some(backend) => UdpStep::ResolveBackend {
                                backend_addr: backend.address,
                            },
                            None => UdpStep::DropNoBackend,
                        }
                    },
                }
            },
        }
    }

    /// Create (or touch) the session for a new client once the embedding
    /// has resolved the chosen backend address into the socket address
    /// `backend_socket_addr`. Returns the socket address the datagram
    /// should be sent to: for a client that raced into the table already,
    /// the existing session's.
    pub fn create_session(
        &mut self,
        client_addr: &str,
        backend_addr: String,
        backend_socket_addr: String,
        len: u64,
        now_ms: u64,
    ) -> (send_to: String)
        requires
            old(self).wf(),
            old(self).seen_up_to(now_ms),
        ensures
            final(self).wf(),
            final(self).seen_up_to(now_ms),
            match assoc_get(old(self).sessions@, client_addr@) {
                Some(sess) => {
                    &&& send_to@ == sess.backend_socket_addr@
                    &&& final(self).spec_session(client_addr@) == Some(
                        sess.spec_record_sent(len, now_ms),
                    )
                    &&& final(self).spec_reverse(sess.backend_socket_addr@) matches Some(v) && v@
                        == client_addr@
                    &&& forall|k2: Seq<char>|
                        k2 != sess.backend_socket_addr@ ==> final(self).spec_reverse(k2) == old(
                            self,
                        ).spec_reverse(k2)
                },
                None => {
                    &&& send_to@ == backend_socket_addr@
                    &&& final(self).spec_session(client_addr@) matches Some(s2)
                        && s2.backend_addr == backend_addr && s2.backend_socket_addr
                        == backend_socket_addr && s2.client_addr@ == client_addr@
                        && s2.last_activity_ms == now_ms && s2.bytes_sent == len
                        && s2.packets_sent == 1 && s2.bytes_received == 0 && s2.packets_received
                        == 0
                    &&& final(self).spec_reverse(backend_socket_addr@) matches Some(v) && v@
                        == client_addr@
                    &&& forall|k2: Seq<char>|
                        k2 != backend_socket_addr@ ==> final(self).spec_reverse(k2) == old(
                            self,
                        ).spec_reverse(k2)
                },
            },
            forall|k2: Seq<char>|
                k2 != client_addr@ ==> final(self).spec_session(k2) == old(self).spec_session(k2),
    {
        match find_key(&self.sessions, client_addr) {
            Some(si) => {
                let ghost old_entries = self.sessions@;
                let pair = &mut self.sessions[si];
                pair.1.record_sent(len, now_ms);
                let sock = pair.1.backend_socket_addr.clone();
                proof {
                    self.lemma_updated_session(old_entries, si as int);
                }
                self.upsert_reverse(sock.as_str(), client_addr);
                sock
            },
            None => {
                let ghost old_entries = self.sessions@;
                let client_string = client_addr.to_owned();
                let sock = backend_socket_addr.clone();
                let mut session = UdpSession::new(
                    backend_addr,
                    backend_socket_addr,
                    client_string,
                    now_ms,
                );
                session.record_sent(len, now_ms);
                self.sessions.push((client_addr.to_owned(), session));
                proof {
                    self.lemma_pushed_session(old_entries, client_addr@);
                }
                self.upsert_reverse(sock.as_str(), client_addr);
                sock
            },
        }
    }

    /// Remove every session idle for longer than `timeout_ms`, and every
    /// reverse entry whose socket an expired session used; the removed
    /// sessions are returned, for the embedding to log.
    #[verifier::loop_isolation(false)]
    pub fn remove_expired(&mut self, timeout_ms: u64, now_ms: u64) -> (removed: Vec<
        (String, UdpSession),
    >)
        requires
            old(self).wf(),
            old(self).seen_up_to(now_ms),
        ensures
            final(self).wf(),
            final(self).seen_up_to(now_ms),
            final(self).sessions@ == live_sessions(old(self).sessions@, timeout_ms, now_ms),
            removed@ == expired_sessions(old(self).sessions@, timeout_ms, now_ms),
            final(self).reverse_sessions@ == pruned_reverse(
                old(self).reverse_sessions@,
                old(self).sessions@,
                timeout_ms,
                now_ms,
            ),
    {
        let ghost old_sessions = self.sessions@;
        let ghost old_reverse = self.reverse_sessions@;
        let n = self.sessions.len();
        let mut kept: Vec<(String, UdpSession)> = Vec::new();
        let mut removed: Vec<(String, UdpSession)> = Vec::new();
        proof {
            assert(old_sessions.take(0) =~= Seq::<(String, UdpSession)>::empty());
        }
        let mut i: usize = 0;
        while i < n
            invariant
                i <= n,
                self.sessions@ == old_sessions,
                self.reverse_sessions@ == old_reverse,
                kept@ == live_sessions(old_sessions.take(i as int), timeout_ms, now_ms),
                removed@ == expired_sessions(old_sessions.take(i as int), timeout_ms, now_ms),
            decreases n - i,
        {
            proof {
                assert(old_sessions.take(i + 1).drop_last() =~= old_sessions.take(i as int));
                assert(old_sessions.take(i + 1).last() == old_sessions[i as int]);
            }
            let pair = &self.sessions[i];
            if pair.1.is_expired(timeout_ms, now_ms) {
                removed.push((pair.0.clone(), clone_session(&pair.1)));
                proof {
                    assert(removed@.last() == old_sessions[i as int]);
                    assert(removed@ =~= expired_sessions(
                        old_sessions.take(i + 1),
                        timeout_ms,
                        now_ms,
                    ));
                }
            } else {
                kept.push((pair.0.clone(), clone_session(&pair.1)));
                proof {
                    assert(kept@.last() == old_sessions[i as int]);
                    assert(kept@ =~= live_sessions(old_sessions.take(i + 1), timeout_ms, now_ms));
                }
            }
            i = i + 1;
        }
        proof {
            assert(old_sessions.take(n as int) =~= old_sessions);
        }
        self.sessions = kept;
        let rn = self.reverse_sessions.len();
        let mut kept_rev: Vec<(String, String)> = Vec::new();
        proof {
            assert(old_reverse.take(0) =~= Seq::<(String, String)>::empty());
        }
        let mut i: usize = 0;
        while i < rn
            invariant
                i <= rn,
                self.reverse_sessions@ == old_reverse,
                self.sessions@ == live_sessions(old_sessions, timeout_ms, now_ms),
                removed@ == expired_sessions(old_sessions, timeout_ms, now_ms),
                kept_rev@ == pruned_reverse(
                    old_reverse.take(i as int),
                    old_sessions,
                    timeout_ms,
                    now_ms,
                ),
            decreases rn - i,
        {
            proof {
                assert(old_reverse.take(i + 1).drop_last() =~= old_reverse.take(i as int));
                assert(old_reverse.take(i + 1).last() == old_reverse[i as int]);
                lemma_expired_sock_iff(
                    old_sessions,
                    timeout_ms,
                    now_ms,
                    old_reverse[i as int].0@,
                );
            }
            let pair = &self.reverse_sessions[i];
            if !sock_among(&removed, pair.0.as_str()) {
                kept_rev.push((pair.0.clone(), pair.1.clone()));
                proof {
                    assert(kept_rev@.last() == old_reverse[i as int]);
                    assert(kept_rev@ =~= pruned_reverse(
                        old_reverse.take(i + 1),
                        old_sessions,
                        timeout_ms,
                        now_ms,
                    ));
                }
            }
            i = i + 1;
        }
        proof {
            assert(old_reverse.take(rn as int) =~= old_reverse);
        }
        self.reverse_sessions = kept_rev;
        proof {
            self.lemma_reaped_wf(old_sessions, old_reverse, timeout_ms, now_ms);
            assert forall|j: int|
                0 <= j < self.sessions@.len() implies (#[trigger] self.sessions@[j].1).seen_up_to(
                now_ms,
            ) by {
                lemma_live_mem(old_sessions, timeout_ms, now_ms, j);
                let i = choose|i: int|
                    0 <= i < old_sessions.len() && (#[trigger] old_sessions[i])
                        == self.sessions@[j];
                assert(old_sessions[i].1.seen_up_to(now_ms));
            }
        }
        removed
    }

    /// Set the reverse entry for `sock` to `client`, replacing any previous
    /// entry for that socket.
    fn upsert_reverse(&mut self, sock: &str, client: &str)
        requires
            old(self).wf(),
            has_key(old(self).sessions@, client@),
            assoc_get(old(self).sessions@, client@)->Some_0.backend_socket_addr@ == sock@,
        ensures
            final(self).sessions == old(self).sessions,
            final(self).wf(),
            final(self).spec_reverse(sock@) matches Some(v) && v@ == client@,
            forall|k2: Seq<char>|
                k2 != sock@ ==> final(self).spec_reverse(k2) == old(self).spec_reverse(k2),
    {
        match find_key(&self.reverse_sessions, sock) {
            Some(ri) => {
                let ghost old_entries = self.reverse_sessions@;
                let pair = &mut self.reverse_sessions[ri];
                pair.1 = client.to_owned();
                proof {
                    self.lemma_updated_reverse(old_entries, ri as int);
                }
            },
            None => {
                let ghost old_entries = self.reverse_sessions@;
                self.reverse_sessions.push((sock.to_owned(), client.to_owned()));
                proof {
                    self.lemma_pushed_reverse(old_entries, sock@);
                }
            },
        }
    }

    /// After updating the session at `i` in place (key untouched, socket
    /// untouched), lookups of other clients are unchanged and the
    /// invariants survive.
    proof fn lemma_updated_session(&self, old_entries: Seq<(String, UdpSession)>, i: int)
        requires
            distinct_keys(old_entries),
            0 <= i < old_entries.len(),
            self.sessions@.len() == old_entries.len(),
            forall|j: int| 0 <= j < old_entries.len() ==> self.sessions@[j].0@ == old_entries[j].0@,
            forall|j: int|
                0 <= j < old_entries.len() && j != i ==> self.sessions@[j] == old_entries[j],
            self.sessions@[i].1.backend_socket_addr@ == old_entries[i].1.backend_socket_addr@,
            self.sessions@[i].1.client_addr@ == old_entries[i].1.client_addr@,
        ensures
            distinct_keys(self.sessions@),
            assoc_get(self.sessions@, old_entries[i].0@) == Some(self.sessions@[i].1),
            key_index(old_entries, old_entries[i].0@) == i,
            forall|k2: Seq<char>|
                k2 != old_entries[i].0@ ==> assoc_get(self.sessions@, k2) == assoc_get(
                    old_entries,
                    k2,
                ),
            forall|k2: Seq<char>|
                has_key(old_entries, k2) == has_key(self.sessions@, k2) && (has_key(
                    old_entries,
                    k2,
                ) ==> assoc_get(self.sessions@, k2)->Some_0.backend_socket_addr@ == assoc_get(
                    old_entries,
                    k2,
                )->Some_0.backend_socket_addr@),
    {
        assert forall|a: int, b: int|
            0 <= a < b < self.sessions@.len() implies self.sessions@[a].0@
            != self.sessions@[b].0@ by {
            assert(self.sessions@[a].0@ == old_entries[a].0@);
            assert(self.sessions@[b].0@ == old_entries[b].0@);
        }
        let k = old_entries[i].0@;
        lemma_key_index_same_keys(self.sessions@, old_entries, k);
        lemma_key_index_is_first_match(self.sessions@, k);
        lemma_key_index_is_first_match(old_entries, k);
        assert forall|k2: Seq<char>| k2 != k implies assoc_get(self.sessions@, k2) == assoc_get(
            old_entries,
            k2,
        ) by {
            lemma_key_index_same_keys(self.sessions@, old_entries, k2);
            lemma_key_index_is_first_match(old_entries, k2);
        }
        assert forall|k2: Seq<char>|
            has_key(old_entries, k2) == has_key(self.sessions@, k2) && (has_key(old_entries, k2)
                ==> assoc_get(self.sessions@, k2)->Some_0.backend_socket_addr@ == assoc_get(
                old_entries,
                k2,
            )->Some_0.backend_socket_addr@) by {
            lemma_key_index_same_keys(self.sessions@, old_entries, k2);
            lemma_key_index_is_first_match(old_entries, k2);
            lemma_key_index_is_first_match(self.sessions@, k2);
        }
    }

    /// After pushing a session with the fresh key `k`, lookups of other
    /// clients are unchanged and distinctness survives.
    proof fn lemma_pushed_session(&self, old_entries: Seq<(String, UdpSession)>, k: Seq<char>)
        requires
            distinct_keys(old_entries),
            !has_key(old_entries, k),
            self.sessions@.len() == old_entries.len() + 1,
            self.sessions@ == old_entries.push(self.sessions@.last()),
            self.sessions@.last().0@ == k,
        ensures
            distinct_keys(self.sessions@),
            assoc_get(self.sessions@, k) == Some(self.sessions@.last().1),
            forall|k2: Seq<char>|
                k2 != k ==> assoc_get(self.sessions@, k2) == assoc_get(old_entries, k2),
    {
        let e = self.sessions@.last();
        lemma_push_distinct(old_entries, e);
        lemma_key_index_push(old_entries, e, k);
        lemma_key_index_is_first_match(old_entries, k);
        assert forall|k2: Seq<char>| k2 != k implies assoc_get(self.sessions@, k2) == assoc_get(
            old_entries,
            k2,
        ) by {
            lemma_key_index_push(old_entries, e, k2);
            lemma_key_index_is_first_match(old_entries, k2);
            lemma_key_index_is_first_match(self.sessions@, k2);
        }
    }

    /// After updating the reverse entry at `i` in place (key untouched),
    /// lookups of other sockets are unchanged and distinctness survives.
    proof fn lemma_updated_reverse(&self, old_entries: Seq<(String, String)>, i: int)
        requires
            distinct_keys(old_entries),
            0 <= i < old_entries.len(),
            self.reverse_sessions@.len() == old_entries.len(),
            forall|j: int|
                0 <= j < old_entries.len() ==> self.reverse_sessions@[j].0@ == old_entries[j].0@,
            forall|j: int|
                0 <= j < old_entries.len() && j != i ==> self.reverse_sessions@[j]
                    == old_entries[j],
        ensures
            distinct_keys(self.reverse_sessions@),
            assoc_get(self.reverse_sessions@, old_entries[i].0@) == Some(
                self.reverse_sessions@[i].1,
            ),
            forall|k2: Seq<char>|
                k2 != old_entries[i].0@ ==> assoc_get(self.reverse_sessions@, k2) == assoc_get(
                    old_entries,
                    k2,
                ),
    {
        assert forall|a: int, b: int|
            0 <= a < b < self.reverse_sessions@.len() implies self.reverse_sessions@[a].0@
            != self.reverse_sessions@[b].0@ by {
            assert(self.reverse_sessions@[a].0@ == old_entries[a].0@);
            assert(self.reverse_sessions@[b].0@ == old_entries[b].0@);
        }
        let k = old_entries[i].0@;
        lemma_key_index_same_keys(self.reverse_sessions@, old_entries, k);
        lemma_key_index_is_first_match(self.reverse_sessions@, k);
        lemma_key_index_is_first_match(old_entries, k);
        assert forall|k2: Seq<char>| k2 != k implies assoc_get(self.reverse_sessions@, k2)
            == assoc_get(old_entries, k2) by {
            lemma_key_index_same_keys(self.reverse_sessions@, old_entries, k2);
            lemma_key_index_is_first_match(old_entries, k2);
        }
    }

    /// After pushing a reverse entry with the fresh key `k`, lookups of
    /// other sockets are unchanged and distinctness survives.
    proof fn lemma_pushed_reverse(&self, old_entries: Seq<(String, String)>, k: Seq<char>)
        requires
            distinct_keys(old_entries),
            !has_key(old_entries, k),
            self.reverse_sessions@.len() == old_entries.len() + 1,
            self.reverse_sessions@ == old_entries.push(self.reverse_sessions@.last()),
            self.reverse_sessions@.last().0@ == k,
        ensures
            distinct_keys(self.reverse_sessions@),
            assoc_get(self.reverse_sessions@, k) == Some(self.reverse_sessions@.last().1),
            forall|k2: Seq<char>|
                k2 != k ==> assoc_get(self.reverse_sessions@, k2) == assoc_get(old_entries, k2),
    {
        let e = self.reverse_sessions@.last();
        lemma_push_distinct(old_entries, e);
        lemma_key_index_push(old_entries, e, k);
        lemma_key_index_is_first_match(old_entries, k);
        assert forall|k2: Seq<char>| k2 != k implies assoc_get(self.reverse_sessions@, k2)
            == assoc_get(old_entries, k2) by {
            lemma_key_index_push(old_entries, e, k2);
            lemma_key_index_is_first_match(old_entries, k2);
            lemma_key_index_is_first_match(self.reverse_sessions@, k2);
        }
    }

    /// A reaper pass keeps the invariants: every surviving reverse entry
    /// points at a surviving session with the entry's socket.
    proof fn lemma_reaped_wf(
        &self,
        old_sessions: Seq<(String, UdpSession)>,
        old_reverse: Seq<(String, String)>,
        timeout_ms: u64,
        now_ms: u64,
    )
        requires
            distinct_keys(old_sessions),
            distinct_keys(old_reverse),
            forall|i: int|
                0 <= i < old_sessions.len() ==> (#[trigger] old_sessions[i].1).client_addr@
                    == old_sessions[i].0@,
            forall|i: int|
                0 <= i < old_reverse.len() ==> has_key(
                    old_sessions,
                    (#[trigger] old_reverse[i]).1@,
                ) && assoc_get(old_sessions, old_reverse[i].1@)->Some_0.backend_socket_addr@
                    == old_reverse[i].0@,
            self.sessions@ == live_sessions(old_sessions, timeout_ms, now_ms),
            self.reverse_sessions@ == pruned_reverse(
                old_reverse,
                old_sessions,
                timeout_ms,
                now_ms,
            ),
        ensures
            self.wf(),
    {
        lemma_live_get(old_sessions, timeout_ms, now_ms, Seq::<char>::empty());
        lemma_pruned_get(old_reverse, old_sessions, timeout_ms, now_ms, Seq::<char>::empty());
        assert forall|i: int|
            0 <= i < self.sessions@.len() implies (#[trigger] self.sessions@[i].1).client_addr@
            == self.sessions@[i].0@ by {
            lemma_live_mem(old_sessions, timeout_ms, now_ms, i);
        }
        assert forall|i: int|
            0 <= i < self.reverse_sessions@.len() implies has_key(
            self.sessions@,
            (#[trigger] self.reverse_sessions@[i]).1@,
        ) && assoc_get(self.sessions@, self.reverse_sessions@[i].1@)
            ->Some_0.backend_socket_addr@ == self.reverse_sessions@[i].0@ by {
            lemma_pruned_mem(old_reverse, old_sessions, timeout_ms, now_ms, i);
            let entry = self.reverse_sessions@[i];
            let j = choose|j: int|
                0 <= j < old_reverse.len() && old_reverse[j] == entry && !has_expired_sock(
                    old_sessions,
                    timeout_ms,
                    now_ms,
                    old_reverse[j].0@,
                );
            lemma_key_index_is_first_match(old_sessions, entry.1@);
            let sess = assoc_get(old_sessions, entry.1@)->Some_0;
            assert(!sess.spec_expired(timeout_ms, now_ms)) by {
                if sess.spec_expired(timeout_ms, now_ms) {
                    let si = key_index(old_sessions, entry.1@);
                    assert(old_sessions[si].1 == sess);
                    assert(has_expired_sock(old_sessions, timeout_ms, now_ms, entry.0@));
                }
            }
            lemma_live_get(old_sessions, timeout_ms, now_ms, entry.1@);
        }
    }
}

/// Every surviving session is one of the original sessions.
proof fn lemma_live_mem(s: Seq<(String, UdpSession)>, timeout_ms: u64, now_ms: u64, j: int)
    requires
        0 <= j < live_sessions(s, timeout_ms, now_ms).len(),
    ensures
        exists|i: int|
            0 <= i < s.len() && (#[trigger] s[i]) == live_sessions(s, timeout_ms, now_ms)[j],
    decreases s.len(),
{
    if s.len() > 0 {
        let s1 = s.drop_last();
        let rest = live_sessions(s1, timeout_ms, now_ms);
        if j < rest.len() {
            lemma_live_mem(s1, timeout_ms, now_ms, j);
            let i = choose|i: int| 0 <= i < s1.len() && (#[trigger] s1[i]) == rest[j];
            assert(s[i] == s1[i]);
        } else {
            assert(s[s.len() - 1] == s.last());
        }
    }
}

/// Every surviving reverse entry is one of the original entries, and its
/// socket is not an expired session's.
proof fn lemma_pruned_mem(
    r: Seq<(String, String)>,
    s: Seq<(String, UdpSession)>,
    timeout_ms: u64,
    now_ms: u64,
    j: int,
)
    requires
        0 <= j < pruned_reverse(r, s, timeout_ms, now_ms).len(),
    ensures
        exists|i: int|
            0 <= i < r.len() && (#[trigger] r[i]) == pruned_reverse(r, s, timeout_ms, now_ms)[j]
                && !has_expired_sock(s, timeout_ms, now_ms, r[i].0@),
    decreases r.len(),
{
    if r.len() > 0 {
        let r1 = r.drop_last();
        let rest = pruned_reverse(r1, s, timeout_ms, now_ms);
        if j < rest.len() {
            lemma_pruned_mem(r1, s, timeout_ms, now_ms, j);
            let i = choose|i: int|
                0 <= i < r1.len() && (#[trigger] r1[i]) == rest[j] && !has_expired_sock(
                    s,
                    timeout_ms,
                    now_ms,
                    r1[i].0@,
                );
            assert(r[i] == r1[i]);
        } else {
            assert(r[r.len() - 1] == r.last());
        }
    }
}

/// Is the UDP engine enabled by this configuration? An empty UDP listen
/// address disables it, and the engine then starts and finishes at once,
/// successfully, touching nothing.
pub fn udp_enabled(cfg: &crate::config::ProxyConfig) -> (r: bool)
    ensures
        r == (cfg.udp_address@.len() != 0),
{
    !cfg.udp_address.as_str().is_empty()
}

/// An exact copy of a session.
fn clone_session(s: &UdpSession) -> (r: UdpSession)
    ensures
        r == *s,
{
    UdpSession {
        backend_addr: s.backend_addr.clone(),
        backend_socket_addr: s.backend_socket_addr.clone(),
        client_addr: s.client_addr.clone(),
        last_activity_ms: s.last_activity_ms,
        bytes_sent: s.bytes_sent,
        bytes_received: s.bytes_received,
        packets_sent: s.packets_sent,
        packets_received: s.packets_received,
    }
}

/// Does some removed session translate to the socket `sock`?
fn sock_among(removed: &Vec<(String, UdpSession)>, sock: &str) -> (r: bool)
    ensures
        r == exists|i: int|
            0 <= i < removed@.len() && (#[trigger] removed@[i]).1.backend_socket_addr@ == sock@,
{
    let n = removed.len();
    let mut i: usize = 0;
    while i < n
        invariant
            n == removed@.len(),
            i <= n,
            forall|j: int|
                0 <= j < i ==> (#[trigger] removed@[j]).1.backend_socket_addr@ != sock@,
        decreases n - i,
    {
        if crate::keyed::str_eq(removed[i].1.backend_socket_addr.as_str(), sock) {
            return true;
        }
        i = i + 1;
    }
    false
}

/// While a session lives and no other client shares its backend socket, the
/// reverse table maps the session's backend socket back to exactly that
/// client: the tables invert each other.
pub proof fn lemma_reverse_inverts_forward(tables: UdpNat, k: Seq<char>)
    requires
        tables.wf(),
        has_key(tables.sessions@, k),
        forall|i: int|
            0 <= i < tables.sessions@.len() ==> has_key(
                tables.reverse_sessions@,
                (#[trigger] tables.sessions@[i].1).backend_socket_addr@,
            ),
        forall|i: int, j: int|
            0 <= i < j < tables.sessions@.len() ==> (#[trigger] tables.sessions@[i].1).backend_socket_addr@
                != (#[trigger] tables.sessions@[j].1).backend_socket_addr@,
    ensures
        assoc_get(
            tables.reverse_sessions@,
            assoc_get(tables.sessions@, k)->Some_0.backend_socket_addr@,
        ) matches Some(v) && v@ == k,
{
    let sess = assoc_get(tables.sessions@, k)->Some_0;
    let sock = sess.backend_socket_addr@;
    lemma_key_index_is_first_match(tables.sessions@, k);
    let si = key_index(tables.sessions@, k);
    assert(has_key(tables.reverse_sessions@, sock)) by {
        assert(tables.sessions@[si].1.backend_socket_addr@ == sock);
    }
    lemma_key_index_is_first_match(tables.reverse_sessions@, sock);
    let ri = key_index(tables.reverse_sessions@, sock);
    let entry = tables.reverse_sessions@[ri];
    // the entry points at a live session translating to `sock`
    assert(has_key(tables.sessions@, entry.1@));
    let sess2 = assoc_get(tables.sessions@, entry.1@)->Some_0;
    lemma_key_index_is_first_match(tables.sessions@, entry.1@);
    let sj = key_index(tables.sessions@, entry.1@);
    assert(tables.sessions@[sj].1 == sess2);
    assert(sess2.backend_socket_addr@ == sock);
    // distinct sockets force that session to be the one under `k`
    assert(sj == si) by {
        if sj < si {
            assert(tables.sessions@[sj].1.backend_socket_addr@
                != tables.sessions@[si].1.backend_socket_addr@);
        } else if si < sj {
            assert(tables.sessions@[si].1.backend_socket_addr@
                != tables.sessions@[sj].1.backend_socket_addr@);
        }
    }
    assert(entry.1@ == tables.sessions@[sj].0@);
    assert(tables.sessions@[si].0@ == k);
}

} // verus!
