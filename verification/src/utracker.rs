use vstd::prelude::*;
use vstd::arithmetic::power2::pow2;

use crate::sha::{InfoHash, hash_eq};

verus! {

// ---------------------------------------------------------------------------
// Addresses and time.

/// A socket address: IPv4 or IPv6 with a port.
#[derive(Debug, Clone, Copy, PartialEq, Eq, Structural)]
pub enum PeerAddr {
    V4(u32, u16),
    V6(u128, u16),
}

/// Calls `chrono::Utc::now().timestamp_millis()`: the wall clock in
/// milliseconds since the Unix epoch. Nothing is stated of the value: it
/// is whatever the clock reads.
#[verifier::external_body]
pub fn now_millis() -> (r: i64)
{
    chrono::Utc::now().timestamp_millis()
}

/// How long a connection id stays valid.
pub const CONNECTION_ID_VALID_DURATION_MILLIS: i64 = 60000;

/// Most times a request is sent again after timing out.
pub const MAXIMUM_REQUEST_RETRANSMIT_ATTEMPTS: u64 = 8;

/// Connection id that a connect request carries.
pub const CONNECT_ID_PROTOCOL_ID: u64 = 0x41727101980;

/// A connection id received at `prev` is expired at `curr`.
pub open spec fn expired(curr: int, prev: int) -> bool {
    curr - prev >= CONNECTION_ID_VALID_DURATION_MILLIS
}

/// Whether a connection id received at `prev_time` is expired at
/// `curr_time`.
pub fn is_expired(curr_time: i64, prev_time: i64) -> (r: bool)
    ensures
        r == expired(curr_time as int, prev_time as int),
{
    (curr_time as i128) - (prev_time as i128) >= CONNECTION_ID_VALID_DURATION_MILLIS as i128
}

// ---------------------------------------------------------------------------
// Retransmission.

/// Timeout of attempt `attempt`: fifteen seconds doubled per attempt.
pub open spec fn message_timeout(attempt: nat) -> int {
    (15 * pow2(attempt) * 1000) as int
}

/// The timeout for the request given the attempt count, in the unit the
/// timer is given.
pub fn calculate_message_timeout_millis(attempt: u64) -> (r: u64)
    requires
        attempt <= MAXIMUM_REQUEST_RETRANSMIT_ATTEMPTS,
    ensures
        r == message_timeout(attempt as nat),
{
    let mut p: u64 = 1;
    let mut i: u64 = 0;
    proof {
        vstd::arithmetic::power2::lemma2_to64();
    }
    while i < attempt
        invariant
            i <= attempt <= 8,
            p == pow2(i as nat),
            p <= 256,
        decreases attempt - i,
    {
        proof {
            vstd::arithmetic::power2::lemma_pow2_unfold((i + 1) as nat);
            vstd::arithmetic::power2::lemma_pow2_strictly_increases(i as nat, 8);
            vstd::arithmetic::power2::lemma2_to64();
        }
        p = p * 2;
        i = i + 1;
    }
    15 * p * 1000
}

/// What a request to a UDP tracker asks for.
#[derive(Debug, Clone, Copy)]
pub enum ClientRequest {
    Announce(InfoHash),
    Scrape(InfoHash),
}

/// Keeps the attempts of one request to a tracker.
#[derive(Debug)]
pub struct ConnectTimer {
    addr: PeerAddr,
    attempt: u64,
    request: ClientRequest,
    timeout_id: Option<u64>,
}

impl ConnectTimer {
    pub closed spec fn spec_attempt(&self) -> nat {
        self.attempt as nat
    }

    pub closed spec fn spec_addr(&self) -> PeerAddr {
        self.addr
    }

    pub closed spec fn spec_request(&self) -> ClientRequest {
        self.request
    }

    pub closed spec fn spec_timeout_id(&self) -> Option<u64> {
        self.timeout_id
    }

    pub closed spec fn wf(&self) -> bool {
        self.attempt <= MAXIMUM_REQUEST_RETRANSMIT_ATTEMPTS
    }

    pub fn new(addr: PeerAddr, request: ClientRequest) -> (r: ConnectTimer)
        ensures
            r.wf(),
            r.spec_attempt() == 0,
            r.spec_addr() == addr,
            r.spec_request() == request,
            r.spec_timeout_id() is None,
    {
        ConnectTimer { addr, attempt: 0, request, timeout_id: None }
    }

    /// The timeout to use for the next send, counting a timeout as one more
    /// attempt; `None` once the attempts are used up.
    pub fn current_timeout(&mut self, timed_out: bool) -> (r: Option<u64>)
        requires
            old(self).wf(),
        ensures
            final(self).wf(),
            final(self).spec_addr() == old(self).spec_addr(),
            final(self).spec_request() == old(self).spec_request(),
            final(self).spec_timeout_id() == old(self).spec_timeout_id(),
            old(self).spec_attempt() == MAXIMUM_REQUEST_RETRANSMIT_ATTEMPTS ==> r is None
                && final(self).spec_attempt() == old(self).spec_attempt(),
            old(self).spec_attempt() < MAXIMUM_REQUEST_RETRANSMIT_ATTEMPTS ==>
                final(self).spec_attempt() == old(self).spec_attempt() + (if timed_out { 1nat } else { 0nat })
                && (r matches Some(t) && t == message_timeout(final(self).spec_attempt())),
    {
        if self.attempt == MAXIMUM_REQUEST_RETRANSMIT_ATTEMPTS {
            None
        } else {
            if timed_out {
                self.attempt = self.attempt + 1;
            }
            Some(calculate_message_timeout_millis(self.attempt))
        }
    }

    pub fn timeout_id(&self) -> (r: Option<u64>)
        ensures
            r == self.spec_timeout_id(),
    {
        self.timeout_id
    }

    pub fn set_timeout_id(&mut self, id: u64)
        ensures
            final(self).spec_timeout_id() == Some(id),
            final(self).spec_attempt() == old(self).spec_attempt(),
            final(self).spec_addr() == old(self).spec_addr(),
            final(self).spec_request() == old(self).spec_request(),
            final(self).wf() == old(self).wf(),
    {
        self.timeout_id = Some(id);
    }

    pub fn message_params(&self) -> (r: (PeerAddr, &ClientRequest))
        ensures
            r.0 == self.spec_addr(),
            *r.1 == self.spec_request(),
    {
        (self.addr, &self.request)
    }
}

/// A request keeps being sent again until its attempts run out: after
/// `MAXIMUM_REQUEST_RETRANSMIT_ATTEMPTS` timeouts no more timeout is given.
pub proof fn lemma_attempts_bounded(attempt: nat)
    requires
        attempt <= MAXIMUM_REQUEST_RETRANSMIT_ATTEMPTS,
    ensures
        message_timeout(attempt) <= message_timeout(MAXIMUM_REQUEST_RETRANSMIT_ATTEMPTS as nat),
        message_timeout(attempt) >= 15000,
{
    if attempt < 8 {
        vstd::arithmetic::power2::lemma_pow2_strictly_increases(attempt, 8);
    }
    vstd::arithmetic::power2::lemma_pow2_pos(attempt);
    assert(15 * pow2(attempt) * 1000 <= 15 * pow2(8) * 1000) by (nonlinear_arith)
        requires
            pow2(attempt) <= pow2(8),
    ;
    assert(15 * pow2(attempt) * 1000 >= 15000) by (nonlinear_arith)
        requires
            pow2(attempt) >= 1,
    ;
}

/// What to send for a request.
#[derive(Debug, Clone, Copy, PartialEq, Eq, Structural)]
pub enum RequestKind {
    Connect,
    Announce,
    Scrape,
}

/// The next step of a request.
#[derive(Debug, Clone, Copy, PartialEq, Eq, Structural)]
pub enum RequestStep {
    /// Attempts are used up: the client gets a timeout error.
    MaxTimeout,
    /// Send a request with this connection id, then wait `timeout`.
    Send { conn_id: u64, kind: RequestKind, timeout: u64 },
}

/// Decides the next step of a request: none once it timed out too often;
/// else the request itself when a connection id is known for the tracker,
/// or first a connect request.
pub fn next_request_step(timer: &mut ConnectTimer, timed_out: bool, cached_id: Option<u64>) -> (r: RequestStep)
    requires
        old(timer).wf(),
    ensures
        final(timer).wf(),
        old(timer).spec_attempt() == MAXIMUM_REQUEST_RETRANSMIT_ATTEMPTS ==> r == RequestStep::MaxTimeout,
        old(timer).spec_attempt() < MAXIMUM_REQUEST_RETRANSMIT_ATTEMPTS ==> (r matches RequestStep::Send { conn_id, kind, timeout }
            && timeout == message_timeout(final(timer).spec_attempt())
            && final(timer).spec_attempt() == old(timer).spec_attempt() + (if timed_out { 1nat } else { 0nat })
            && match cached_id {
                None => conn_id == CONNECT_ID_PROTOCOL_ID && kind == RequestKind::Connect,
                Some(id) => conn_id == id && kind == (match old(timer).spec_request() {
                    ClientRequest::Announce(_) => RequestKind::Announce,
                    ClientRequest::Scrape(_) => RequestKind::Scrape,
                }),
            }),
{
    let timeout = match timer.current_timeout(timed_out) {
        Some(t) => t,
        None => {
            return RequestStep::MaxTimeout;
        },
    };
    match cached_id {
        None => RequestStep::Send { conn_id: CONNECT_ID_PROTOCOL_ID, kind: RequestKind::Connect, timeout },
        Some(id) => {
            let kind = match timer.message_params().1 {
                ClientRequest::Announce(_) => RequestKind::Announce,
                ClientRequest::Scrape(_) => RequestKind::Scrape,
            };
            RequestStep::Send { conn_id: id, kind, timeout }
        },
    }
}

// ---------------------------------------------------------------------------
// Connection id cache.

/// Connection ids by tracker address, with the time each was received.
#[derive(Debug)]
pub struct ConnectIdCache {
    cache: Vec<(PeerAddr, u64, i64)>,
}

/// The entry for an address, if any.
pub open spec fn entry_of(s: Seq<(PeerAddr, u64, i64)>, addr: PeerAddr) -> Option<(u64, i64)> {
    if exists|i: int| 0 <= i < s.len() && (#[trigger] s[i]).0 == addr {
        let i = choose|i: int| 0 <= i < s.len() && (#[trigger] s[i]).0 == addr;
        Some((s[i].1, s[i].2))
    } else {
        None
    }
}

/// No address has two entries.
pub open spec fn unique_addrs(s: Seq<(PeerAddr, u64, i64)>) -> bool {
    forall|i: int, j: int| 0 <= i < j < s.len() ==> (#[trigger] s[i]).0 != (#[trigger] s[j]).0
}

/// What looking up `addr` at `now` does: an expired id is dropped and not
/// given, a live one is given.
pub open spec fn get_outcome(before: Map<PeerAddr, (u64, i64)>, after: Map<PeerAddr, (u64, i64)>, addr: PeerAddr, now: i64, r: Option<u64>) -> bool {
    match before.get(addr) {
        None => r is None && after == before,
        Some((id, t)) => if expired(now as int, t as int) {
            r is None && after == before.remove(addr)
        } else {
            r == Some(id) && after == before
        },
    }
}

/// What recording an id at `now` does.
pub open spec fn put_outcome(before: Map<PeerAddr, (u64, i64)>, after: Map<PeerAddr, (u64, i64)>, addr: PeerAddr, id: u64, now: i64) -> bool {
    after == before.insert(addr, (id, now))
}

/// What dropping the entries expired at `now` does.
pub open spec fn clean_outcome(before: Map<PeerAddr, (u64, i64)>, after: Map<PeerAddr, (u64, i64)>, now: i64) -> bool {
    after == before.restrict(before.dom().filter(|a: PeerAddr| !expired(now as int, before[a].1 as int)))
}

impl ConnectIdCache {
    /// The connection ids by address, each with the time it was received.
    pub closed spec fn entries(&self) -> Map<PeerAddr, (u64, i64)> {
        Map::new(|a: PeerAddr| entry_of(self.cache@, a) is Some, |a: PeerAddr| entry_of(self.cache@, a)->0)
    }

    pub closed spec fn wf(&self) -> bool {
        unique_addrs(self.cache@)
    }

    pub fn new() -> (r: ConnectIdCache)
        ensures
            r.wf(),
            r.entries() == Map::<PeerAddr, (u64, i64)>::empty(),
    {
        let r = ConnectIdCache { cache: Vec::new() };
        assert(r.entries() =~= Map::<PeerAddr, (u64, i64)>::empty());
        r
    }

    fn position(&self, addr: PeerAddr) -> (r: Option<usize>)
        requires
            self.wf(),
        ensures
            match r {
                Some(i) => i < self.cache@.len() && self.cache@[i as int].0 == addr,
                None => forall|i: int| 0 <= i < self.cache@.len() ==> (#[trigger] self.cache@[i]).0 != addr,
            },
    {
        let mut i: usize = 0;
        while i < self.cache.len()
            invariant
                i <= self.cache@.len(),
                forall|j: int| 0 <= j < i ==> (#[trigger] self.cache@[j]).0 != addr,
            decreases self.cache@.len() - i,
        {
            if self.cache[i].0 == addr {
                return Some(i);
            }
            i = i + 1;
        }
        None
    }

    /// The connection id for the address at time `now`: an expired one is
    /// dropped and not given.
    pub fn get_at(&mut self, addr: PeerAddr, now: i64) -> (r: Option<u64>)
        requires
            old(self).wf(),
        ensures
            final(self).wf(),
            get_outcome(old(self).entries(), final(self).entries(), addr, now, r),
    {
        match self.position(addr) {
            None => {
                assert(!(exists|i: int| 0 <= i < self.cache@.len() && (#[trigger] self.cache@[i]).0 == addr));
                None
            },
            Some(i) => {
                let (_, id, t) = self.cache[i];
                proof {
                    let k = choose|k: int| 0 <= k < self.cache@.len() && (#[trigger] self.cache@[k]).0 == addr;
                    assert(k == i);
                }
                if is_expired(now, t) {
                    let ghost s = self.cache@;
                    self.cache.remove(i);
                    proof {
                        let u = self.cache@;
                        assert forall|a: int, b: int| 0 <= a < b < u.len() implies (#[trigger] u[a]).0 != (#[trigger] u[b]).0 by {
                            let a0 = if a < i { a } else { a + 1 };
                            let b0 = if b < i { b } else { b + 1 };
                            assert(u[a] == s[a0] && u[b] == s[b0]);
                        }
                        assert forall|x: PeerAddr| #[trigger] entry_of(u, x) == (if x == addr { None } else { entry_of(s, x) }) by {
                            if x == addr {
                                if exists|j: int| 0 <= j < u.len() && (#[trigger] u[j]).0 == x {
                                    let j = choose|j: int| 0 <= j < u.len() && (#[trigger] u[j]).0 == x;
                                    let j0 = if j < i { j } else { j + 1 };
                                    assert(u[j] == s[j0]);
                                }
                            } else {
                                if exists|j: int| 0 <= j < s.len() && (#[trigger] s[j]).0 == x {
                                    let j = choose|j: int| 0 <= j < s.len() && (#[trigger] s[j]).0 == x;
                                    let j1 = if j < i { j } else { j - 1 };
                                    assert(u[j1] == s[j]);
                                    let m = choose|m: int| 0 <= m < u.len() && (#[trigger] u[m]).0 == x;
                                    let m0 = if m < i { m } else { m + 1 };
                                    assert(u[m] == s[m0]);
                                }
                                if exists|j: int| 0 <= j < u.len() && (#[trigger] u[j]).0 == x {
                                    let j = choose|j: int| 0 <= j < u.len() && (#[trigger] u[j]).0 == x;
                                    let j0 = if j < i { j } else { j + 1 };
                                    assert(u[j] == s[j0]);
                                }
                            }
                        }
                        assert(self.entries() =~= old(self).entries().remove(addr));
                    }
                    None
                } else {
                    Some(id)
                }
            },
        }
    }

    /// The connection id for the address now, if one not expired is known.
    pub fn get(&mut self, addr: PeerAddr) -> (r: Option<u64>)
        requires
            old(self).wf(),
        ensures
            final(self).wf(),
            exists|now: i64| #[trigger] get_outcome(old(self).entries(), final(self).entries(), addr, now, r),
    {
        let now = now_millis();
        self.get_at(addr, now)
    }

    /// Records the connection id for the address, received at `now`.
    pub fn put_at(&mut self, addr: PeerAddr, connect_id: u64, now: i64)
        requires
            old(self).wf(),
        ensures
            final(self).wf(),
            put_outcome(old(self).entries(), final(self).entries(), addr, connect_id, now),
    {
        let ghost s = self.cache@;
        match self.position(addr) {
            Some(i) => {
                self.cache.set(i, (addr, connect_id, now));
                proof {
                    let u = self.cache@;
                    assert forall|x: PeerAddr| #[trigger] entry_of(u, x) == (if x == addr { Some((connect_id, now)) } else { entry_of(s, x) }) by {
                        if x == addr {
                            let j = choose|j: int| 0 <= j < u.len() && (#[trigger] u[j]).0 == x;
                            assert(u[i as int].0 == x);
                        } else {
                            if exists|j: int| 0 <= j < s.len() && (#[trigger] s[j]).0 == x {
                                let j = choose|j: int| 0 <= j < s.len() && (#[trigger] s[j]).0 == x;
                                assert(u[j] == s[j]);
                                let m = choose|m: int| 0 <= m < u.len() && (#[trigger] u[m]).0 == x;
                                assert(u[m] == s[m]);
                            }
                            if exists|j: int| 0 <= j < u.len() && (#[trigger] u[j]).0 == x {
                                let j = choose|j: int| 0 <= j < u.len() && (#[trigger] u[j]).0 == x;
                                assert(u[j] == s[j]);
                            }
                        }
                    }
                    assert(self.entries() =~= old(self).entries().insert(addr, (connect_id, now)));
                }
            },
            None => {
                self.cache.push((addr, connect_id, now));
                proof {
                    let u = self.cache@;
                    assert forall|x: PeerAddr| #[trigger] entry_of(u, x) == (if x == addr { Some((connect_id, now)) } else { entry_of(s, x) }) by {
                        if x == addr {
                            assert(u[s.len() as int].0 == x);
                        } else {
                            if exists|j: int| 0 <= j < s.len() && (#[trigger] s[j]).0 == x {
                                let j = choose|j: int| 0 <= j < s.len() && (#[trigger] s[j]).0 == x;
                                assert(u[j] == s[j]);
                                let m = choose|m: int| 0 <= m < u.len() && (#[trigger] u[m]).0 == x;
                                assert(u[m] == s[m]);
                            }
                            if exists|j: int| 0 <= j < u.len() && (#[trigger] u[j]).0 == x {
                                let j = choose|j: int| 0 <= j < u.len() && (#[trigger] u[j]).0 == x;
                                assert(u[j] == s[j]);
                            }
                        }
                    }
                    assert(self.entries() =~= old(self).entries().insert(addr, (connect_id, now)));
                }
            },
        }
    }

    /// Records the connection id for the address, received now.
    pub fn put(&mut self, addr: PeerAddr, connect_id: u64)
        requires
            old(self).wf(),
        ensures
            final(self).wf(),
            exists|now: i64| #[trigger] put_outcome(old(self).entries(), final(self).entries(), addr, connect_id, now),
    {
        let now = now_millis();
        self.put_at(addr, connect_id, now);
    }

    /// Drops every entry expired at `now`.
    pub fn clean_expired_at(&mut self, now: i64)
        requires
            old(self).wf(),
        ensures
            final(self).wf(),
            clean_outcome(old(self).entries(), final(self).entries(), now),
    {
        let ghost s = self.cache@;
        let mut kept: Vec<(PeerAddr, u64, i64)> = Vec::new();
        let mut i: usize = 0;
        while i < self.cache.len()
            invariant
                i <= self.cache@.len(),
                self.cache@ == s,
                unique_addrs(s),
                unique_addrs(kept@),
                forall|k: int| 0 <= k < kept@.len() ==> s.subrange(0, i as int).contains(#[trigger] kept@[k])
                    && !expired(now as int, kept@[k].2 as int),
                forall|j: int| 0 <= j < i && !expired(now as int, (#[trigger] s[j]).2 as int) ==> kept@.contains(s[j]),
            decreases self.cache@.len() - i,
        {
            let e = self.cache[i];
            if !is_expired(now, e.2) {
                let ghost before = kept@;
                kept.push(e);
                proof {
                    assert forall|a: int, b: int| 0 <= a < b < kept@.len() implies (#[trigger] kept@[a]).0 != (#[trigger] kept@[b]).0 by {
                        if b == kept@.len() - 1 {
                            assert(s.subrange(0, i as int).contains(kept@[a]));
                            let m = choose|m: int| 0 <= m < i && s.subrange(0, i as int)[m] == kept@[a];
                            assert(s[m] == kept@[a]);
                        }
                    }
                    assert forall|k: int| 0 <= k < kept@.len() implies s.subrange(0, i + 1).contains(#[trigger] kept@[k])
                        && !expired(now as int, kept@[k].2 as int) by {
                        if k < kept@.len() - 1 {
                            let m = choose|m: int| 0 <= m < i && s.subrange(0, i as int)[m] == kept@[k];
                            assert(s.subrange(0, i + 1)[m] == kept@[k]);
                        } else {
                            assert(s.subrange(0, i + 1)[i as int] == kept@[k]);
                        }
                    }
                    assert forall|j: int| 0 <= j < i + 1 && !expired(now as int, (#[trigger] s[j]).2 as int) implies kept@.contains(s[j]) by {
                        if j < i {
                            let m = choose|m: int| 0 <= m < before.len() && before[m] == s[j];
                            assert(kept@[m] == before[m]);
                        } else {
                            assert(kept@[kept@.len() - 1] == s[j]);
                        }
                    }
                }
            } else {
                proof {
                    assert forall|k: int| 0 <= k < kept@.len() implies s.subrange(0, i + 1).contains(#[trigger] kept@[k])
                        && !expired(now as int, kept@[k].2 as int) by {
                        let m = choose|m: int| 0 <= m < i && s.subrange(0, i as int)[m] == kept@[k];
                        assert(s.subrange(0, i + 1)[m] == kept@[k]);
                    }
                }
            }
            i = i + 1;
        }
        self.cache = kept;
        proof {
            let u = self.cache@;
            let old_map = old(self).entries();
            let dom = old_map.dom().filter(|a: PeerAddr| !expired(now as int, old_map[a].1 as int));
            assert forall|x: PeerAddr| #[trigger] entry_of(u, x) == (if dom.contains(x) { entry_of(s, x) } else { None }) by {
                if exists|j: int| 0 <= j < s.len() && (#[trigger] s[j]).0 == x {
                    let j = choose|j: int| 0 <= j < s.len() && (#[trigger] s[j]).0 == x;
                    assert(entry_of(s, x) == Some((s[j].1, s[j].2)));
                    if !expired(now as int, s[j].2 as int) {
                        assert(u.contains(s[j]));
                        let m = choose|m: int| 0 <= m < u.len() && u[m] == s[j];
                        let m2 = choose|m2: int| 0 <= m2 < u.len() && (#[trigger] u[m2]).0 == x;
                        assert(s.subrange(0, s.len() as int).contains(u[m2]));
                        let q = choose|q: int| 0 <= q < s.len() && s.subrange(0, s.len() as int)[q] == u[m2];
                        assert(s[q] == u[m2]);
                        assert(q == j);
                        assert(dom.contains(x));
                    } else {
                        if exists|m: int| 0 <= m < u.len() && (#[trigger] u[m]).0 == x {
                            let m = choose|m: int| 0 <= m < u.len() && (#[trigger] u[m]).0 == x;
                            assert(s.subrange(0, s.len() as int).contains(u[m]));
                            let q = choose|q: int| 0 <= q < s.len() && s.subrange(0, s.len() as int)[q] == u[m];
                            assert(s[q] == u[m]);
                            assert(q == j);
                        }
                        assert(!dom.contains(x));
                    }
                } else {
                    if exists|m: int| 0 <= m < u.len() && (#[trigger] u[m]).0 == x {
                        let m = choose|m: int| 0 <= m < u.len() && (#[trigger] u[m]).0 == x;
                        assert(s.subrange(0, s.len() as int).contains(u[m]));
                        let q = choose|q: int| 0 <= q < s.len() && s.subrange(0, s.len() as int)[q] == u[m];
                        assert(s[q].0 == x);
                    }
                }
            }
            assert(self.entries() =~= old_map.restrict(dom));
        }
    }

    /// Drops every entry expired now.
    pub fn clean_expired(&mut self)
        requires
            old(self).wf(),
        ensures
            final(self).wf(),
            exists|now: i64| #[trigger] clean_outcome(old(self).entries(), final(self).entries(), now),
    {
        let now = now_millis();
        self.clean_expired_at(now);
    }
}

// ---------------------------------------------------------------------------
// Tracker server.

/// Most peers an announce response carries.
pub const NUM_PEERS_RETURNED: usize = 20;

/// Seconds a client should wait before announcing again.
pub const ANNOUNCE_INTERVAL: i32 = 1800;

/// What an announcing peer reports.
#[derive(Debug, Clone, Copy, PartialEq, Eq, Structural)]
pub enum AnnounceEvent {
    /// A regular announce, with no event.
    Update,
    Completed,
    Started,
    Stopped,
}

/// What a client reports of its download in an announce.
#[derive(Debug, Clone, Copy, PartialEq, Eq, Structural)]
pub struct ClientState {
    pub downloaded: i64,
    pub remaining: i64,
    pub uploaded: i64,
    pub event: AnnounceEvent,
}

impl ClientState {
    pub fn new(bytes_downloaded: i64, bytes_remaining: i64, bytes_uploaded: i64, event: AnnounceEvent) -> (r: ClientState)
        ensures
            r == (ClientState { downloaded: bytes_downloaded, remaining: bytes_remaining, uploaded: bytes_uploaded, event }),
    {
        ClientState { downloaded: bytes_downloaded, remaining: bytes_remaining, uploaded: bytes_uploaded, event }
    }
}

/// A reply of the tracker server.
#[derive(Debug)]
pub enum ServerReply {
    Connect(u64),
    Announce { interval: i32, leechers: i32, seeders: i32, peers: Vec<PeerAddr> },
    Scrape(Vec<(i32, i32, i32)>),
    /// The connection id is not one this server gave out.
    InvalidConnectionId,
}

/// The address is of the IPv4 family.
pub open spec fn is_v4(a: PeerAddr) -> bool {
    a is V4
}

/// The address with its port replaced.
pub open spec fn with_port(a: PeerAddr, port: u16) -> PeerAddr {
    match a {
        PeerAddr::V4(ip, _) => PeerAddr::V4(ip, port),
        PeerAddr::V6(ip, _) => PeerAddr::V6(ip, port),
    }
}

/// The swarm entry of a torrent, if any.
pub open spec fn swarm_index(m: Seq<(InfoHash, Vec<PeerAddr>)>, h: Seq<u8>) -> Option<int> {
    if exists|i: int| 0 <= i < m.len() && (#[trigger] m[i]).0@ == h {
        Some(choose|i: int| 0 <= i < m.len() && (#[trigger] m[i]).0@ == h)
    } else {
        None
    }
}

/// The peers of a torrent as a set.
pub open spec fn swarm_of(m: Seq<(InfoHash, Vec<PeerAddr>)>, h: Seq<u8>) -> Set<PeerAddr> {
    match swarm_index(m, h) {
        Some(i) => m[i].1@.to_set(),
        None => Set::empty(),
    }
}

/// The state of a tracker server: the connection ids it gave out and the
/// peers of each torrent.
pub struct TrackerSwarms {
    cids: Vec<u64>,
    peers_map: Vec<(InfoHash, Vec<PeerAddr>)>,
}

impl TrackerSwarms {
    pub closed spec fn wf(&self) -> bool {
        &&& forall|i: int, j: int| 0 <= i < j < self.peers_map@.len() ==>
            (#[trigger] self.peers_map@[i]).0@ != (#[trigger] self.peers_map@[j]).0@
        &&& forall|i: int| 0 <= i < self.peers_map@.len() ==> (#[trigger] self.peers_map@[i]).1@.no_duplicates()
    }

    /// The connection ids given out.
    pub closed spec fn connection_ids(&self) -> Set<u64> {
        self.cids@.to_set()
    }

    /// The peers of a torrent.
    pub closed spec fn swarm(&self, h: Seq<u8>) -> Set<PeerAddr> {
        swarm_of(self.peers_map@, h)
    }

    pub fn new() -> (r: TrackerSwarms)
        ensures
            r.wf(),
            r.connection_ids() == Set::<u64>::empty(),
            forall|h: Seq<u8>| #[trigger] r.swarm(h) == Set::<PeerAddr>::empty(),
    {
        let r = TrackerSwarms { cids: Vec::new(), peers_map: Vec::new() };
        assert(r.connection_ids() =~= Set::<u64>::empty());
        r
    }

    fn knows(&self, conn_id: u64) -> (r: bool)
        ensures
            r == self.connection_ids().contains(conn_id),
    {
        let mut i: usize = 0;
        while i < self.cids.len()
            invariant
                i <= self.cids@.len(),
                forall|j: int| 0 <= j < i ==> self.cids@[j] != conn_id,
            decreases self.cids@.len() - i,
        {
            if self.cids[i] == conn_id {
                assert(self.cids@.to_set().contains(self.cids@[i as int]));
                return true;
            }
            i = i + 1;
        }
        false
    }

    /// Gives out a new connection id, drawn at random, and remembers it.
    pub fn forward_connect(&mut self) -> (r: ServerReply)
        requires
            old(self).wf(),
        ensures
            final(self).wf(),
            r matches ServerReply::Connect(cid) && final(self).connection_ids() == old(self).connection_ids().insert(cid),
            forall|h: Seq<u8>| #[trigger] final(self).swarm(h) == old(self).swarm(h),
    {
        let cid = crate::rng::random_range(0, u64::MAX);
        self.cids.push(cid);
        assert(self.cids@.to_set() =~= old(self).cids@.to_set().insert(cid)) by {
            assert forall|x: u64| self.cids@.to_set().contains(x) <==> old(self).cids@.to_set().insert(cid).contains(x) by {
                if self.cids@.contains(x) {
                    let k = choose|k: int| 0 <= k < self.cids@.len() && self.cids@[k] == x;
                    if k < old(self).cids@.len() {
                        assert(old(self).cids@[k] == x);
                    }
                }
                if old(self).cids@.contains(x) {
                    let k = choose|k: int| 0 <= k < old(self).cids@.len() && old(self).cids@[k] == x;
                    assert(self.cids@[k] == x);
                }
                if x == cid {
                    assert(self.cids@[self.cids@.len() - 1] == x);
                }
            }
        }
        ServerReply::Connect(cid)
    }

    fn find_swarm(&self, info_hash: &InfoHash) -> (r: Option<usize>)
        requires
            self.wf(),
        ensures
            r matches Some(i) ==> i < self.peers_map@.len() && self.peers_map@[i as int].0@ == info_hash@,
            r is None ==> forall|j: int| 0 <= j < self.peers_map@.len() ==> (#[trigger] self.peers_map@[j]).0@ != info_hash@,
    {
        let mut i: usize = 0;
        while i < self.peers_map.len()
            invariant
                self.wf(),
                i <= self.peers_map@.len(),
                forall|j: int| 0 <= j < i ==> (#[trigger] self.peers_map@[j]).0@ != info_hash@,
            decreases self.peers_map@.len() - i,
        {
            if hash_eq(&self.peers_map[i].0, info_hash) {
                return Some(i);
            }
            i = i + 1;
        }
        None
    }
}

/// The swarm after an announce: a stopped peer leaves it, any other
/// event adds the peer.
pub open spec fn swarm_after(swarm: Set<PeerAddr>, event: AnnounceEvent, store: PeerAddr) -> Set<PeerAddr> {
    if event == AnnounceEvent::Stopped { swarm.remove(store) } else { swarm.insert(store) }
}

/// The peers given back to an announce: distinct members of the swarm of
/// the requester's address family, as many as there are up to the limit.
pub open spec fn peers_reply_ok(peers: Seq<PeerAddr>, swarm: Set<PeerAddr>, v4: bool) -> bool {
    &&& peers.no_duplicates()
    &&& peers.len() <= NUM_PEERS_RETURNED
    &&& forall|i: int| 0 <= i < peers.len() ==> swarm.contains(#[trigger] peers[i]) && is_v4(peers[i]) == v4
    &&& peers.len() < NUM_PEERS_RETURNED ==> forall|a: PeerAddr| #[trigger] swarm.contains(a) && is_v4(a) == v4 ==> peers.contains(a)
}

proof fn lemma_swarm_index_unique(m: Seq<(InfoHash, Vec<PeerAddr>)>, h: Seq<u8>, i: int)
    requires
        forall|a: int, b: int| 0 <= a < b < m.len() ==> (#[trigger] m[a]).0@ != (#[trigger] m[b]).0@,
        0 <= i < m.len(),
        m[i].0@ == h,
    ensures
        swarm_index(m, h) == Some(i),
{
    let k = choose|k: int| 0 <= k < m.len() && (#[trigger] m[k]).0@ == h;
    if k < i {
        assert(m[k].0@ != m[i].0@);
    } else if k > i {
        assert(m[i].0@ != m[k].0@);
    }
}

/// The element occurs among the first `n` entries.
pub open spec fn in_prefix(s: Seq<PeerAddr>, n: int, x: PeerAddr) -> bool {
    exists|j: int| 0 <= j < n && #[trigger] s[j] == x
}

/// The peers with `a` added or taken out.
fn updated_swarm(peers: &Vec<PeerAddr>, a: PeerAddr, insert: bool) -> (r: Vec<PeerAddr>)
    requires
        peers@.no_duplicates(),
    ensures
        r@.no_duplicates(),
        r@.to_set() == (if insert { peers@.to_set().insert(a) } else { peers@.to_set().remove(a) }),
{
    let mut r: Vec<PeerAddr> = Vec::new();
    let mut i: usize = 0;
    while i < peers.len()
        invariant
            i <= peers@.len(),
            peers@.no_duplicates(),
            r@.no_duplicates(),
            forall|x: PeerAddr| #[trigger] r@.contains(x) <==> (x != a && in_prefix(peers@, i as int, x)),
        decreases peers@.len() - i,
    {
        let x = peers[i];
        let ghost before = r@;
        if x != a {
            proof {
                if before.contains(x) {
                    let j = choose|j: int| 0 <= j < i && #[trigger] peers@[j] == x;
                    assert(peers@[j] == peers@[i as int]);
                }
            }
            r.push(x);
        }
        proof {
            assert forall|y: PeerAddr| #[trigger] r@.contains(y) <==> (y != a && in_prefix(peers@, i + 1, y)) by {
                if in_prefix(peers@, i + 1, y) && y != x {
                    let j = choose|j: int| 0 <= j < i + 1 && #[trigger] peers@[j] == y;
                    assert(in_prefix(peers@, i as int, y));
                }
                if in_prefix(peers@, i as int, y) {
                    let j = choose|j: int| 0 <= j < i && #[trigger] peers@[j] == y;
                    assert(in_prefix(peers@, i + 1, y));
                }
                if y == x {
                    assert(peers@[i as int] == y);
                    if x != a {
                        assert(r@[r@.len() - 1] == y);
                    }
                }
                if r@.contains(y) && y != x {
                    let k = choose|k: int| 0 <= k < r@.len() && r@[k] == y;
                    assert(before[k] == y);
                }
                if before.contains(y) {
                    let k = choose|k: int| 0 <= k < before.len() && before[k] == y;
                    assert(r@[k] == y);
                }
            }
        }
        i = i + 1;
    }
    let ghost mid = r@;
    if insert {
        r.push(a);
    }
    proof {
        let target = if insert { peers@.to_set().insert(a) } else { peers@.to_set().remove(a) };
        assert forall|x: PeerAddr| r@.to_set().contains(x) <==> target.contains(x) by {
            if peers@.contains(x) {
                let j = choose|j: int| 0 <= j < peers@.len() && peers@[j] == x;
                assert(in_prefix(peers@, peers@.len() as int, x));
            }
            if in_prefix(peers@, peers@.len() as int, x) {
                let j = choose|j: int| 0 <= j < peers@.len() && #[trigger] peers@[j] == x;
                assert(peers@.contains(x));
            }
            if insert {
                if x == a {
                    assert(r@[r@.len() - 1] == a);
                } else {
                    if r@.contains(x) {
                        let k = choose|k: int| 0 <= k < r@.len() && r@[k] == x;
                        assert(mid[k] == x);
                    }
                    if mid.contains(x) {
                        let k = choose|k: int| 0 <= k < mid.len() && mid[k] == x;
                        assert(r@[k] == x);
                    }
                }
            }
        }
        assert(r@.to_set() =~= target);
        if insert {
            assert forall|p: int, q: int| 0 <= p < r@.len() && 0 <= q < r@.len() && p != q implies r@[p] != r@[q] by {
                if p == r@.len() - 1 {
                    assert(mid.contains(r@[q]) ==> r@[q] != a);
                    assert(mid[q] == r@[q]);
                } else if q == r@.len() - 1 {
                    assert(mid[p] == r@[p]);
                    assert(mid.contains(r@[p]));
                }
            }
        }
    }
    r
}

/// Up to `NUM_PEERS_RETURNED` distinct peers of the given family.
fn pick_peers(peers: &Vec<PeerAddr>, v4: bool) -> (r: Vec<PeerAddr>)
    requires
        peers@.no_duplicates(),
    ensures
        peers_reply_ok(r@, peers@.to_set(), v4),
{
    let mut r: Vec<PeerAddr> = Vec::new();
    let mut i: usize = 0;
    while i < peers.len() && r.len() < NUM_PEERS_RETURNED
        invariant
            i <= peers@.len(),
            peers@.no_duplicates(),
            r@.no_duplicates(),
            r@.len() <= NUM_PEERS_RETURNED,
            forall|k: int| 0 <= k < r@.len() ==> peers@.subrange(0, i as int).contains(#[trigger] r@[k]) && is_v4(r@[k]) == v4,
            forall|j: int| 0 <= j < i && is_v4((#[trigger] peers@[j])) == v4 ==> r@.contains(peers@[j]),
        decreases peers@.len() - i,
    {
        let x = peers[i];
        let fam = match x { PeerAddr::V4(_, _) => true, PeerAddr::V6(_, _) => false };
        let ghost before = r@;
        if fam == v4 {
            proof {
                if r@.contains(x) {
                    let k = choose|k: int| 0 <= k < r@.len() && r@[k] == x;
                    let m = choose|m: int| 0 <= m < i && #[trigger] peers@.subrange(0, i as int)[m] == r@[k];
                    assert(peers@[m] == peers@[i as int]);
                }
            }
            r.push(x);
        }
        proof {
            assert forall|k: int| 0 <= k < r@.len() implies peers@.subrange(0, i + 1).contains(#[trigger] r@[k]) && is_v4(r@[k]) == v4 by {
                if k < before.len() {
                    let m = choose|m: int| 0 <= m < i && #[trigger] peers@.subrange(0, i as int)[m] == before[k];
                    assert(peers@.subrange(0, i + 1)[m] == r@[k]);
                } else {
                    assert(peers@.subrange(0, i + 1)[i as int] == r@[k]);
                }
            }
            assert forall|j: int| 0 <= j < i + 1 && is_v4((#[trigger] peers@[j])) == v4 implies r@.contains(peers@[j]) by {
                if j < i {
                    let k = choose|k: int| 0 <= k < before.len() && before[k] == peers@[j];
                    assert(r@[k] == before[k]);
                } else {
                    assert(r@[r@.len() - 1] == peers@[j]);
                }
            }
        }
        i = i + 1;
    }
    proof {
        assert forall|k: int| 0 <= k < r@.len() implies peers@.to_set().contains(#[trigger] r@[k]) && is_v4(r@[k]) == v4 by {
            let m = choose|m: int| 0 <= m < i && #[trigger] peers@.subrange(0, i as int)[m] == r@[k];
            assert(peers@[m] == r@[k]);
        }
        if r@.len() < NUM_PEERS_RETURNED {
            assert forall|a: PeerAddr| #[trigger] peers@.to_set().contains(a) && is_v4(a) == v4 implies r@.contains(a) by {
                let j = choose|j: int| 0 <= j < peers@.len() && peers@[j] == a;
            }
        }
    }
    r
}

/// What an announce does: with a known connection id, the peer (at its
/// address with the port it gave) joins the swarm or leaves it when it
/// stopped, and the reply gives peers of the asked family; else the reply
/// says the id is invalid and nothing changes.
pub open spec fn announced(before: TrackerSwarms, after: TrackerSwarms, conn_id: u64, info_hash: Seq<u8>, port: u16,
    event: AnnounceEvent, source_v4: bool, addr: PeerAddr, r: ServerReply) -> bool {
    &&& after.connection_ids() == before.connection_ids()
    &&& !before.connection_ids().contains(conn_id) ==> r is InvalidConnectionId
        && forall|h: Seq<u8>| #[trigger] after.swarm(h) == before.swarm(h)
    &&& before.connection_ids().contains(conn_id) ==> {
        let new_swarm = swarm_after(before.swarm(info_hash), event, with_port(addr, port));
        &&& after.swarm(info_hash) == new_swarm
        &&& forall|h: Seq<u8>| h != info_hash ==> #[trigger] after.swarm(h) == before.swarm(h)
        &&& r matches ServerReply::Announce { interval, leechers, seeders, peers }
        &&& interval == ANNOUNCE_INTERVAL
        &&& leechers == new_swarm.len() as i32
        &&& seeders == new_swarm.len() as i32
        &&& peers_reply_ok(peers@, new_swarm, source_v4)
    }
}

/// What a scrape replies: with a known connection id, for each torrent its
/// number of peers as seeders and leechers and no completed downloads;
/// else that the id is invalid.
pub open spec fn scraped(t: TrackerSwarms, conn_id: u64, hashes: Seq<InfoHash>, r: ServerReply) -> bool {
    &&& !t.connection_ids().contains(conn_id) ==> r is InvalidConnectionId
    &&& t.connection_ids().contains(conn_id) ==> (r matches ServerReply::Scrape(stats)
        && stats@.len() == hashes.len()
        && forall|k: int| 0 <= k < hashes.len() ==> (#[trigger] stats@[k]) == (
            t.swarm(hashes[k]@).len() as i32, 0i32, t.swarm(hashes[k]@).len() as i32))
}

impl TrackerSwarms {
    /// Handles an announce: with a known connection id, records the peer
    /// (at its address with the port it gave) or drops it when it stopped,
    /// and replies with peers of its family; else replies that the id is
    /// invalid.
    pub fn forward_announce(&mut self, conn_id: u64, info_hash: &InfoHash, port: u16, event: AnnounceEvent, source_v4: bool, addr: PeerAddr) -> (r: ServerReply)
        requires
            old(self).wf(),
        ensures
            final(self).wf(),
            announced(*old(self), *final(self), conn_id, info_hash@, port, event, source_v4, addr, r),
    {
        if !self.knows(conn_id) {
            return ServerReply::InvalidConnectionId;
        }
        let store_addr = match addr {
            PeerAddr::V4(ip, _) => PeerAddr::V4(ip, port),
            PeerAddr::V6(ip, _) => PeerAddr::V6(ip, port),
        };
        let ghost m0 = self.peers_map@;
        let idx = match self.find_swarm(info_hash) {
            Some(i) => {
                assert forall|h: Seq<u8>| #[trigger] swarm_of(self.peers_map@, h) == swarm_of(m0, h) by {}
                i
            },
            None => {
                self.peers_map.push((*info_hash, Vec::new()));
                proof {
                    let m1 = self.peers_map@;
                    assert forall|a: int, b: int| 0 <= a < b < m1.len() implies (#[trigger] m1[a]).0@ != (#[trigger] m1[b]).0@ by {
                        if b == m1.len() - 1 {
                            assert(m0[a].0@ != info_hash@);
                        } else {
                            assert(m1[a] == m0[a] && m1[b] == m0[b]);
                        }
                    }
                    assert(m1[m1.len() - 1].1@ =~= Seq::<PeerAddr>::empty());
                    assert forall|h: Seq<u8>| #[trigger] swarm_of(m1, h) == swarm_of(m0, h) by {
                        if h == info_hash@ {
                            lemma_swarm_index_unique(m1, h, m1.len() - 1);
                            assert(m1[m1.len() - 1].1@.to_set() =~= Set::<PeerAddr>::empty());
                        } else if exists|i: int| 0 <= i < m0.len() && (#[trigger] m0[i]).0@ == h {
                            let i = choose|i: int| 0 <= i < m0.len() && (#[trigger] m0[i]).0@ == h;
                            lemma_swarm_index_unique(m0, h, i);
                            assert(m1[i] == m0[i]);
                            lemma_swarm_index_unique(m1, h, i);
                        } else {
                            assert(!(exists|i: int| 0 <= i < m1.len() && (#[trigger] m1[i]).0@ == h)) by {
                                if exists|i: int| 0 <= i < m1.len() && (#[trigger] m1[i]).0@ == h {
                                    let i = choose|i: int| 0 <= i < m1.len() && (#[trigger] m1[i]).0@ == h;
                                    if i < m0.len() {
                                        assert(m1[i] == m0[i]);
                                    }
                                }
                            }
                        }
                    }
                }
                self.peers_map.len() - 1
            },
        };
        let ghost m1 = self.peers_map@;
        proof {
            lemma_swarm_index_unique(m1, info_hash@, idx as int);
        }
        let insert = match event {
            AnnounceEvent::Stopped => false,
            _ => true,
        };
        let new_peers = updated_swarm(&self.peers_map[idx].1, store_addr, insert);
        let reply_peers = pick_peers(&new_peers, source_v4);
        let count = new_peers.len() as i32;
        proof {
            new_peers@.unique_seq_to_set();
        }
        self.peers_map.set(idx, (*info_hash, new_peers));
        proof {
            let m2 = self.peers_map@;
            assert forall|a: int, b: int| 0 <= a < b < m2.len() implies (#[trigger] m2[a]).0@ != (#[trigger] m2[b]).0@ by {
                assert(m2[a].0@ == m1[a].0@ && m2[b].0@ == m1[b].0@);
            }
            assert forall|i: int| 0 <= i < m2.len() implies (#[trigger] m2[i]).1@.no_duplicates() by {
                if i != idx {
                    assert(m2[i] == m1[i]);
                }
            }
            lemma_swarm_index_unique(m2, info_hash@, idx as int);
            assert forall|h: Seq<u8>| h != info_hash@ implies #[trigger] swarm_of(m2, h) == swarm_of(m1, h) by {
                if exists|i: int| 0 <= i < m1.len() && (#[trigger] m1[i]).0@ == h {
                    let i = choose|i: int| 0 <= i < m1.len() && (#[trigger] m1[i]).0@ == h;
                    lemma_swarm_index_unique(m1, h, i);
                    assert(m2[i] == m1[i]);
                    lemma_swarm_index_unique(m2, h, i);
                } else {
                    assert(!(exists|i: int| 0 <= i < m2.len() && (#[trigger] m2[i]).0@ == h)) by {
                        if exists|i: int| 0 <= i < m2.len() && (#[trigger] m2[i]).0@ == h {
                            let i = choose|i: int| 0 <= i < m2.len() && (#[trigger] m2[i]).0@ == h;
                            assert(m2[i].0@ == m1[i].0@);
                        }
                    }
                }
            }
        }
        proof {
            let m2 = self.peers_map@;
            assert forall|h: Seq<u8>| h != info_hash@ implies #[trigger] self.swarm(h) == old(self).swarm(h) by {
                assert(swarm_of(m2, h) == swarm_of(m1, h));
                assert(swarm_of(m1, h) == swarm_of(m0, h));
            }
            let new_swarm = swarm_after(old(self).swarm(info_hash@), event, with_port(addr, port));
            assert(swarm_of(m1, info_hash@) == swarm_of(m0, info_hash@));
            assert(self.swarm(info_hash@) == new_swarm);
            assert(new_swarm.len() == self.peers_map@[idx as int].1@.len());
        }
        ServerReply::Announce { interval: ANNOUNCE_INTERVAL, leechers: count, seeders: count, peers: reply_peers }
    }
}

impl TrackerSwarms {
    /// Number of peers of a torrent.
    fn swarm_size(&self, info_hash: &InfoHash) -> (r: usize)
        requires
            self.wf(),
        ensures
            r == self.swarm(info_hash@).len(),
    {
        match self.find_swarm(info_hash) {
            Some(i) => {
                proof {
                    lemma_swarm_index_unique(self.peers_map@, info_hash@, i as int);
                    self.peers_map@[i as int].1@.unique_seq_to_set();
                }
                self.peers_map[i].1.len()
            },
            None => {
                assert(!(exists|j: int| 0 <= j < self.peers_map@.len() && (#[trigger] self.peers_map@[j]).0@ == info_hash@));
                0
            },
        }
    }

    /// Handles a scrape: with a known connection id, replies for each
    /// torrent with its number of peers as seeders and leechers and no
    /// completed downloads; else replies that the id is invalid.
    pub fn forward_scrape(&self, conn_id: u64, hashes: &Vec<InfoHash>) -> (r: ServerReply)
        requires
            self.wf(),
        ensures
            scraped(*self, conn_id, hashes@, r),
    {
        if !self.knows(conn_id) {
            return ServerReply::InvalidConnectionId;
        }
        let mut stats: Vec<(i32, i32, i32)> = Vec::new();
        let mut k: usize = 0;
        while k < hashes.len()
            invariant
                self.wf(),
                k <= hashes@.len(),
                stats@.len() == k,
                forall|j: int| 0 <= j < k ==> (#[trigger] stats@[j]) == (
                    self.swarm(hashes@[j]@).len() as i32, 0i32, self.swarm(hashes@[j]@).len() as i32),
            decreases hashes@.len() - k,
        {
            let n = self.swarm_size(&hashes[k]);
            stats.push((n as i32, 0, n as i32));
            k = k + 1;
        }
        ServerReply::Scrape(stats)
    }
}

// ---------------------------------------------------------------------------
// Dispatching requests at the server.

/// A request that reached the tracker server, as decoded.
#[derive(Debug)]
pub enum ServerRequest {
    Connect,
    Announce { info_hash: InfoHash, port: u16, event: AnnounceEvent, source_v4: bool },
    Scrape(Vec<InfoHash>),
}

impl TrackerSwarms {
    /// Hands a request to its handler. A connect carries the protocol's
    /// own id, else it gets no reply.
    pub fn process_request(&mut self, conn_id: u64, request: ServerRequest, addr: PeerAddr) -> (r: Option<ServerReply>)
        requires
            old(self).wf(),
        ensures
            final(self).wf(),
            match request {
                ServerRequest::Connect => if conn_id == CONNECT_ID_PROTOCOL_ID {
                    &&& r matches Some(ServerReply::Connect(cid))
                    &&& final(self).connection_ids() == old(self).connection_ids().insert(cid)
                    &&& forall|h: Seq<u8>| #[trigger] final(self).swarm(h) == old(self).swarm(h)
                } else {
                    &&& r is None
                    &&& final(self).connection_ids() == old(self).connection_ids()
                    &&& forall|h: Seq<u8>| #[trigger] final(self).swarm(h) == old(self).swarm(h)
                },
                ServerRequest::Announce { info_hash, port, event, source_v4 } => r matches Some(reply)
                    && announced(*old(self), *final(self), conn_id, info_hash@, port, event, source_v4, addr, reply),
                ServerRequest::Scrape(hashes) => r matches Some(reply)
                    && scraped(*old(self), conn_id, hashes@, reply)
                    && final(self).connection_ids() == old(self).connection_ids()
                    && forall|h: Seq<u8>| #[trigger] final(self).swarm(h) == old(self).swarm(h),
            },
    {
        match request {
            ServerRequest::Connect => {
                if conn_id == CONNECT_ID_PROTOCOL_ID {
                    Some(self.forward_connect())
                } else {
                    None
                }
            },
            ServerRequest::Announce { info_hash, port, event, source_v4 } => {
                Some(self.forward_announce(conn_id, &info_hash, port, event, source_v4, addr))
            },
            ServerRequest::Scrape(hashes) => {
                Some(self.forward_scrape(conn_id, &hashes))
            },
        }
    }
}

// ---------------------------------------------------------------------------
// Matching responses at the client.

/// Whether a request may go from a socket bound at `bound` to `addr`: both
/// must be of one IP family.
pub fn ip_versions_match(bound: PeerAddr, addr: PeerAddr) -> (r: bool)
    ensures
        r == (is_v4(bound) == is_v4(addr)),
{
    match (bound, addr) {
        (PeerAddr::V4(..), PeerAddr::V6(..)) => false,
        (PeerAddr::V6(..), PeerAddr::V4(..)) => false,
        _ => true,
    }
}

/// The kind of a response from a tracker, as decoded.
#[derive(Debug, Clone, Copy, PartialEq, Eq, Structural)]
pub enum ResponseKind {
    Connect(u64),
    Announce,
    Scrape,
    Error,
}

/// What a response does to the request it answers.
#[derive(Debug, Clone, Copy, PartialEq, Eq, Structural)]
pub enum ResponseOutcome {
    /// It came from another address than the request went to: the request
    /// is dropped without an answer to the client.
    Dropped,
    /// A connection id: it is cached for the tracker and the request is
    /// sent again.
    CacheAndResend(u64),
    /// The client gets the announce response.
    Announced,
    /// The client gets the scrape response.
    Scraped,
    /// The client gets the tracker's error message.
    ServerMessage,
    /// The response does not answer the request: the client gets a server
    /// error.
    ServerError,
}

/// The outcome of a response from `from` to a request sent to `to`.
pub open spec fn spec_response_outcome(request: ClientRequest, to: PeerAddr, from: PeerAddr, kind: ResponseKind) -> ResponseOutcome {
    if to != from {
        ResponseOutcome::Dropped
    } else {
        match kind {
            ResponseKind::Connect(id) => ResponseOutcome::CacheAndResend(id),
            ResponseKind::Announce => if request is Announce { ResponseOutcome::Announced } else { ResponseOutcome::ServerError },
            ResponseKind::Scrape => if request is Scrape { ResponseOutcome::Scraped } else { ResponseOutcome::ServerError },
            ResponseKind::Error => ResponseOutcome::ServerMessage,
        }
    }
}

/// Matches a response against the request it names.
pub fn response_outcome(timer: &ConnectTimer, from: PeerAddr, kind: ResponseKind) -> (r: ResponseOutcome)
    ensures
        r == spec_response_outcome(timer.spec_request(), timer.spec_addr(), from, kind),
{
    let (to, request) = timer.message_params();
    if to != from {
        return ResponseOutcome::Dropped;
    }
    match kind {
        ResponseKind::Connect(id) => ResponseOutcome::CacheAndResend(id),
        ResponseKind::Announce => match request {
            ClientRequest::Announce(_) => ResponseOutcome::Announced,
            ClientRequest::Scrape(_) => ResponseOutcome::ServerError,
        },
        ResponseKind::Scrape => match request {
            ClientRequest::Scrape(_) => ResponseOutcome::Scraped,
            ClientRequest::Announce(_) => ResponseOutcome::ServerError,
        },
        ResponseKind::Error => ResponseOutcome::ServerMessage,
    }
}

// ---------------------------------------------------------------------------
// The client's dispatcher of requests.

/// No token is kept twice.
pub open spec fn unique_tokens(s: Seq<(u32, ConnectTimer)>) -> bool {
    forall|i: int, j: int| 0 <= i < j < s.len() ==> (#[trigger] s[i]).0 != (#[trigger] s[j]).0
}

/// The request kept under the token, if any.
pub open spec fn timer_for(s: Seq<(u32, ConnectTimer)>, token: u32) -> Option<ConnectTimer> {
    if exists|i: int| 0 <= i < s.len() && (#[trigger] s[i]).0 == token {
        Some(s[choose|i: int| 0 <= i < s.len() && (#[trigger] s[i]).0 == token].1)
    } else {
        None
    }
}

proof fn lemma_timer_at(s: Seq<(u32, ConnectTimer)>, i: int)
    requires
        unique_tokens(s),
        0 <= i < s.len(),
    ensures
        timer_for(s, s[i].0) == Some(s[i].1),
{
    let k = choose|k: int| 0 <= k < s.len() && (#[trigger] s[k]).0 == s[i].0;
    if k < i {
        assert(s[k].0 != s[i].0);
    } else if k > i {
        assert(s[i].0 != s[k].0);
    }
}

/// Why a request to a tracker ended without an answer.
#[derive(Debug, Clone, Copy, PartialEq, Eq, Structural)]
pub enum ClientError {
    /// The tracker's address is of another IP family than our socket.
    IPVersionMismatch,
    /// The tracker did not answer after every attempt.
    MaxTimeout,
    /// The tracker answered with an error message.
    ServerMessage,
    /// The tracker answered with something else than the request asked.
    ServerError,
    /// The dispatcher shut down.
    ClientShutdown,
}

/// What the dispatcher asks of its caller.
#[derive(Debug, Clone, Copy, PartialEq, Eq)]
pub enum ClientAction {
    /// Nothing.
    Nothing,
    /// Send the request under the token to the tracker with this connection
    /// id, and time it out after `timeout` milliseconds.
    Send { token: u32, addr: PeerAddr, conn_id: u64, kind: RequestKind, timeout: u64 },
    /// Tell the client how its request ended: the kind of the answer, or
    /// why there is none.
    Finish { token: u32, result: Result<RequestKind, ClientError> },
}

/// The kind of the request itself.
pub open spec fn request_kind(request: ClientRequest) -> RequestKind {
    match request {
        ClientRequest::Announce(_) => RequestKind::Announce,
        ClientRequest::Scrape(_) => RequestKind::Scrape,
    }
}

/// One step of a request kept in `t`: once its attempts are used up the
/// client is told it timed out and the request is dropped; otherwise the
/// request (or first a connect request when no connection id is known for
/// the tracker at `now`) is sent again, with the timeout of the attempt,
/// counting a timeout as one more attempt, and the request is kept as
/// `kept`.
pub open spec fn request_step(t: ConnectTimer, timed_out: bool, ids_before: Map<PeerAddr, (u64, i64)>,
    ids_after: Map<PeerAddr, (u64, i64)>, now: i64, token: u32, r: ClientAction, kept: Option<ConnectTimer>) -> bool {
    if t.spec_attempt() == MAXIMUM_REQUEST_RETRANSMIT_ATTEMPTS {
        &&& r == ClientAction::Finish { token, result: Err(ClientError::MaxTimeout) }
        &&& kept is None
        &&& ids_after == ids_before
    } else {
        let attempt = t.spec_attempt() + (if timed_out { 1nat } else { 0nat });
        &&& exists|cached: Option<u64>| #[trigger] get_outcome(ids_before, ids_after, t.spec_addr(), now, cached)
            && (r matches ClientAction::Send { token: tk, addr, conn_id, kind, timeout }
                && tk == token && addr == t.spec_addr() && timeout == message_timeout(attempt)
                && match cached {
                    None => conn_id == CONNECT_ID_PROTOCOL_ID && kind == RequestKind::Connect,
                    Some(id) => conn_id == id && kind == request_kind(t.spec_request()),
                })
        &&& kept matches Some(t2) && t2.wf() && t2.spec_attempt() == attempt
            && t2.spec_addr() == t.spec_addr() && t2.spec_request() == t.spec_request()
    }
}

/// Keeps the requests sent to UDP trackers, with the connection ids the
/// trackers gave, and decides what each event asks to do.
pub struct ClientDispatcher {
    bound_addr: PeerAddr,
    active_requests: Vec<(u32, ConnectTimer)>,
    id_cache: ConnectIdCache,
    is_run: bool,
}

impl ClientDispatcher {
    /// The address the dispatcher's socket is bound to.
    pub closed spec fn bound(&self) -> PeerAddr {
        self.bound_addr
    }

    /// The dispatcher runs until it is shut down.
    pub closed spec fn running(&self) -> bool {
        self.is_run
    }

    /// The request waiting under the token, if any.
    pub closed spec fn request(&self, token: u32) -> Option<ConnectTimer> {
        timer_for(self.active_requests@, token)
    }

    /// The tokens of the waiting requests, in the order they are kept.
    pub closed spec fn tokens(&self) -> Seq<u32> {
        self.active_requests@.map_values(|e: (u32, ConnectTimer)| e.0)
    }

    /// The connection ids known, by tracker.
    pub closed spec fn ids(&self) -> Map<PeerAddr, (u64, i64)> {
        self.id_cache.entries()
    }

    pub closed spec fn wf(&self) -> bool {
        &&& unique_tokens(self.active_requests@)
        &&& forall|i: int| 0 <= i < self.active_requests@.len() ==> (#[trigger] self.active_requests@[i]).1.wf()
        &&& self.id_cache.wf()
    }

    /// A dispatcher with no request and no connection id.
    pub fn new(bound_addr: PeerAddr) -> (r: ClientDispatcher)
        ensures
            r.wf(),
            r.bound() == bound_addr,
            forall|t: u32| #[trigger] r.request(t) is None,
            r.ids() == Map::<PeerAddr, (u64, i64)>::empty(),
            r.running(),
    {
        ClientDispatcher { bound_addr, active_requests: Vec::new(), id_cache: ConnectIdCache::new(), is_run: true }
    }

    /// Whether the dispatcher still runs: it stops once shut down.
    pub fn is_running(&self) -> (r: bool)
        ensures
            r == self.running(),
    {
        self.is_run
    }

    fn position(&self, token: u32) -> (r: Option<usize>)
        requires
            self.wf(),
        ensures
            match r {
                Some(i) => i < self.active_requests@.len() && self.active_requests@[i as int].0 == token
                    && self.request(token) == Some(self.active_requests@[i as int].1),
                None => self.request(token) is None,
            },
    {
        let mut i: usize = 0;
        while i < self.active_requests.len()
            invariant
                i <= self.active_requests@.len(),
                self.wf(),
                forall|j: int| 0 <= j < i ==> (#[trigger] self.active_requests@[j]).0 != token,
            decreases self.active_requests@.len() - i,
        {
            if self.active_requests[i].0 == token {
                proof {
                    lemma_timer_at(self.active_requests@, i as int);
                }
                return Some(i);
            }
            i = i + 1;
        }
        None
    }

    /// Takes the request under the token out.
    fn take(&mut self, token: u32) -> (r: Option<ConnectTimer>)
        requires
            old(self).wf(),
        ensures
            final(self).wf(),
            r == old(self).request(token),
            final(self).request(token) is None,
            forall|t: u32| t != token ==> #[trigger] final(self).request(t) == old(self).request(t),
            final(self).bound() == old(self).bound(),
            final(self).running() == old(self).running(),
            final(self).ids() == old(self).ids(),
            r matches Some(t) ==> t.wf(),
    {
        match self.position(token) {
            None => None,
            Some(i) => {
                let ghost s = self.active_requests@;
                let (_, timer) = self.active_requests.remove(i);
                proof {
                    let u = self.active_requests@;
                    assert forall|a: int, b: int| 0 <= a < b < u.len() implies (#[trigger] u[a]).0 != (#[trigger] u[b]).0 by {
                        let a0 = if a < i { a } else { a + 1 };
                        let b0 = if b < i { b } else { b + 1 };
                        assert(u[a] == s[a0] && u[b] == s[b0]);
                    }
                    assert forall|a: int| 0 <= a < u.len() implies (#[trigger] u[a]).1.wf() by {
                        let a0 = if a < i { a } else { a + 1 };
                        assert(u[a] == s[a0]);
                    }
                    assert forall|t: u32| t != token implies #[trigger] timer_for(u, t) == timer_for(s, t) by {
                        if exists|k: int| 0 <= k < u.len() && (#[trigger] u[k]).0 == t {
                            let k = choose|k: int| 0 <= k < u.len() && (#[trigger] u[k]).0 == t;
                            let k0 = if k < i { k } else { k + 1 };
                            assert(u[k] == s[k0]);
                            lemma_timer_at(u, k);
                            lemma_timer_at(s, k0);
                        } else if exists|k: int| 0 <= k < s.len() && (#[trigger] s[k]).0 == t {
                            let k = choose|k: int| 0 <= k < s.len() && (#[trigger] s[k]).0 == t;
                            assert(k != i);
                            let k1 = if k < i { k } else { k - 1 };
                            assert(u[k1] == s[k]);
                        }
                    }
                    if exists|k: int| 0 <= k < u.len() && (#[trigger] u[k]).0 == token {
                        let k = choose|k: int| 0 <= k < u.len() && (#[trigger] u[k]).0 == token;
                        let k0 = if k < i { k } else { k + 1 };
                        assert(u[k] == s[k0]);
                        assert(s[k0].0 == s[i as int].0);
                    }
                }
                Some(timer)
            },
        }
    }

    /// Keeps the request under the token, in place of any before.
    fn keep(&mut self, token: u32, timer: ConnectTimer)
        requires
            old(self).wf(),
            timer.wf(),
        ensures
            final(self).wf(),
            final(self).request(token) == Some(timer),
            forall|t: u32| t != token ==> #[trigger] final(self).request(t) == old(self).request(t),
            final(self).bound() == old(self).bound(),
            final(self).running() == old(self).running(),
            final(self).ids() == old(self).ids(),
    {
        let _ = self.take(token);
        let ghost mid = *self;
        let ghost s = self.active_requests@;
        self.active_requests.push((token, timer));
        proof {
            let u = self.active_requests@;
            assert forall|a: int, b: int| 0 <= a < b < u.len() implies (#[trigger] u[a]).0 != (#[trigger] u[b]).0 by {
                if b == u.len() - 1 {
                    assert(u[a] == s[a]);
                    if s[a].0 == token {
                        assert(exists|k: int| 0 <= k < s.len() && (#[trigger] s[k]).0 == token);
                    }
                } else {
                    assert(u[a] == s[a] && u[b] == s[b]);
                }
            }
            assert forall|a: int| 0 <= a < u.len() implies (#[trigger] u[a]).1.wf() by {
                if a < s.len() {
                    assert(u[a] == s[a]);
                }
            }
            lemma_timer_at(u, u.len() - 1);
            assert forall|t: u32| t != token implies #[trigger] timer_for(u, t) == timer_for(s, t) by {
                if exists|k: int| 0 <= k < s.len() && (#[trigger] s[k]).0 == t {
                    let k = choose|k: int| 0 <= k < s.len() && (#[trigger] s[k]).0 == t;
                    assert(u[k] == s[k]);
                    lemma_timer_at(u, k);
                    lemma_timer_at(s, k);
                } else if exists|k: int| 0 <= k < u.len() && (#[trigger] u[k]).0 == t {
                    let k = choose|k: int| 0 <= k < u.len() && (#[trigger] u[k]).0 == t;
                    if k < s.len() {
                        assert(u[k] == s[k]);
                    } else {
                        assert(u[k].0 == token);
                    }
                }
            }
            assert forall|t: u32| t != token implies #[trigger] self.request(t) == old(self).request(t) by {
                assert(timer_for(u, t) == timer_for(s, t));
                assert(mid.request(t) == old(self).request(t));
            }
        }
    }
    /// Runs the next step of the request under the token, after a timeout
    /// or not (see `request_step`); a token with no request does nothing.
    pub fn process_request(&mut self, token: u32, timed_out: bool, now: i64) -> (r: ClientAction)
        requires
            old(self).wf(),
        ensures
            final(self).wf(),
            final(self).bound() == old(self).bound(),
            final(self).running() == old(self).running(),
            forall|t: u32| t != token ==> #[trigger] final(self).request(t) == old(self).request(t),
            match old(self).request(token) {
                None => r == ClientAction::Nothing && final(self).request(token) is None && final(self).ids() == old(self).ids(),
                Some(t) => request_step(t, timed_out, old(self).ids(), final(self).ids(), now, token, r, final(self).request(token)),
            },
    {
        match self.take(token) {
            None => ClientAction::Nothing,
            Some(mut timer) => {
                let ghost t0 = timer;
                match timer.current_timeout(timed_out) {
                    None => ClientAction::Finish { token, result: Err(ClientError::MaxTimeout) },
                    Some(timeout) => {
                        let (addr, request) = timer.message_params();
                        let kind = match request {
                            ClientRequest::Announce(_) => RequestKind::Announce,
                            ClientRequest::Scrape(_) => RequestKind::Scrape,
                        };
                        let ghost ids0 = self.id_cache.entries();
                        let ghost before_get = *self;
                        let cached = self.id_cache.get_at(addr, now);
                        assert(self.active_requests@ == before_get.active_requests@);
                        let action = match cached {
                            Some(id) => ClientAction::Send { token, addr, conn_id: id, kind, timeout },
                            None => ClientAction::Send { token, addr, conn_id: CONNECT_ID_PROTOCOL_ID, kind: RequestKind::Connect, timeout },
                        };
                        let ghost before_keep = *self;
                        self.keep(token, timer);
                        proof {
                            assert(get_outcome(ids0, self.ids(), t0.spec_addr(), now, cached));
                            assert forall|t: u32| t != token implies #[trigger] self.request(t) == old(self).request(t) by {
                                assert(self.request(t) == before_keep.request(t));
                                assert(before_keep.request(t) == before_get.request(t));
                            }
                        }
                        action
                    },
                }
            },
        }
    }

    /// A client's request to the tracker at `addr`: refused when the
    /// tracker's IP family is not the socket's, else kept under the token
    /// (in place of any request before) and sent (see `request_step`).
    pub fn send_request(&mut self, addr: PeerAddr, token: u32, request: ClientRequest, now: i64) -> (r: ClientAction)
        requires
            old(self).wf(),
        ensures
            final(self).wf(),
            final(self).bound() == old(self).bound(),
            final(self).running() == old(self).running(),
            forall|t: u32| t != token ==> #[trigger] final(self).request(t) == old(self).request(t),
            is_v4(old(self).bound()) != is_v4(addr) ==> r == (ClientAction::Finish { token, result: Err(ClientError::IPVersionMismatch) })
                && final(self).request(token) == old(self).request(token) && final(self).ids() == old(self).ids(),
            is_v4(old(self).bound()) == is_v4(addr) ==> exists|t: ConnectTimer| t.spec_attempt() == 0 && t.spec_addr() == addr
                && t.spec_request() == request && #[trigger] request_step(t, false, old(self).ids(), final(self).ids(), now, token, r,
                    final(self).request(token)),
    {
        if !ip_versions_match(self.bound_addr, addr) {
            return ClientAction::Finish { token, result: Err(ClientError::IPVersionMismatch) };
        }
        let timer = ConnectTimer::new(addr, request);
        let ghost t0 = timer;
        self.keep(token, timer);
        let r = self.process_request(token, false, now);
        proof {
            assert(request_step(t0, false, old(self).ids(), self.ids(), now, token, r, self.request(token)));
        }
        r
    }

    /// A response from `from` to the request under the token (see
    /// `response_outcome`): a response to no waiting request, or from
    /// another address, does nothing (the request then being dropped);
    /// otherwise the request's timeout is to be cancelled, and a
    /// connection id is cached for the tracker at `now` and the request
    /// sent on (see `request_step`), while any other answer ends the
    /// request and is handed to the client.
    pub fn recv_response(&mut self, from: PeerAddr, token: u32, kind: ResponseKind, now: i64) -> (r: (bool, ClientAction))
        requires
            old(self).wf(),
        ensures
            final(self).wf(),
            final(self).bound() == old(self).bound(),
            final(self).running() == old(self).running(),
            forall|t: u32| t != token ==> #[trigger] final(self).request(t) == old(self).request(t),
            match old(self).request(token) {
                None => r == (false, ClientAction::Nothing) && final(self).request(token) is None && final(self).ids() == old(self).ids(),
                Some(t) => match spec_response_outcome(t.spec_request(), t.spec_addr(), from, kind) {
                    ResponseOutcome::Dropped => r == (false, ClientAction::Nothing)
                        && final(self).request(token) is None && final(self).ids() == old(self).ids(),
                    ResponseOutcome::CacheAndResend(id) => r.0
                        && request_step(t, false, old(self).ids().insert(from, (id, now)), final(self).ids(), now, token, r.1,
                            final(self).request(token)),
                    ResponseOutcome::Announced => r == (true, (ClientAction::Finish { token, result: Ok(RequestKind::Announce) }))
                        && final(self).request(token) is None && final(self).ids() == old(self).ids(),
                    ResponseOutcome::Scraped => r == (true, (ClientAction::Finish { token, result: Ok(RequestKind::Scrape) }))
                        && final(self).request(token) is None && final(self).ids() == old(self).ids(),
                    ResponseOutcome::ServerMessage => r == (true, (ClientAction::Finish { token, result: Err(ClientError::ServerMessage) }))
                        && final(self).request(token) is None && final(self).ids() == old(self).ids(),
                    ResponseOutcome::ServerError => r == (true, (ClientAction::Finish { token, result: Err(ClientError::ServerError) }))
                        && final(self).request(token) is None && final(self).ids() == old(self).ids(),
                },
            },
    {
        let timer = match self.take(token) {
            None => {
                return (false, ClientAction::Nothing);
            },
            Some(t) => t,
        };
        match response_outcome(&timer, from, kind) {
            ResponseOutcome::Dropped => (false, ClientAction::Nothing),
            ResponseOutcome::CacheAndResend(id) => {
                let ghost before_put = *self;
                self.id_cache.put_at(from, id, now);
                assert(self.active_requests@ == before_put.active_requests@);
                let ghost t0 = timer;
                let ghost mid = *self;
                self.keep(token, timer);
                let r = self.process_request(token, false, now);
                proof {
                    assert(mid.ids() == old(self).ids().insert(from, (id, now)));
                    assert forall|t: u32| t != token implies #[trigger] self.request(t) == old(self).request(t) by {
                        assert(mid.request(t) == before_put.request(t));
                    }
                }
                (true, r)
            },
            ResponseOutcome::Announced => (true, ClientAction::Finish { token, result: Ok(RequestKind::Announce) }),
            ResponseOutcome::Scraped => (true, ClientAction::Finish { token, result: Ok(RequestKind::Scrape) }),
            ResponseOutcome::ServerMessage => (true, ClientAction::Finish { token, result: Err(ClientError::ServerMessage) }),
            ResponseOutcome::ServerError => (true, ClientAction::Finish { token, result: Err(ClientError::ServerError) }),
        }
    }

    /// Shuts down: every waiting request is dropped; returns their tokens,
    /// each of whose clients is told of the shutdown.
    pub fn shutdown(&mut self) -> (r: Vec<u32>)
        requires
            old(self).wf(),
        ensures
            final(self).wf(),
            r@ == old(self).tokens(),
            forall|t: u32| #[trigger] final(self).request(t) is None,
            final(self).ids() == old(self).ids(),
            final(self).bound() == old(self).bound(),
            !final(self).running(),
    {
        let mut r: Vec<u32> = Vec::new();
        let mut i: usize = 0;
        while i < self.active_requests.len()
            invariant
                i <= self.active_requests@.len(),
                r@ == self.active_requests@.take(i as int).map_values(|e: (u32, ConnectTimer)| e.0),
            decreases self.active_requests@.len() - i,
        {
            r.push(self.active_requests[i].0);
            proof {
                assert(self.active_requests@.take(i + 1).map_values(|e: (u32, ConnectTimer)| e.0)
                    =~= self.active_requests@.take(i as int).map_values(|e: (u32, ConnectTimer)| e.0).push(self.active_requests@[i as int].0));
            }
            i = i + 1;
        }
        proof {
            assert(self.active_requests@.take(self.active_requests@.len() as int) =~= self.active_requests@);
        }
        self.active_requests.clear();
        self.is_run = false;
        r
    }
}

} // verus!
