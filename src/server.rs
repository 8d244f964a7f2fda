//! The daemon's table of clients: who has been heard from, and who gets the
//! session's events.
use vstd::prelude::*;

use crate::CLIENT_TTL_MS;

verus! {

/// A client's address on the loopback interface.
#[derive(Clone, Copy, PartialEq, Eq, Structural, Debug)]
pub struct PeerAddr {
    pub ip: u32,
    pub port: u16,
}

/// A client and the last time a packet came from it, in milliseconds.
#[derive(Clone, Copy, PartialEq, Eq, Structural, Debug)]
pub struct ClientRecord {
    pub last_heard_ms: u64,
    pub addr: PeerAddr,
}

/// Milliseconds from `then` to `now`; none when the clock went back.
pub open spec fn elapsed(now: u64, then: u64) -> int {
    if now >= then {
        now - then
    } else {
        0
    }
}

/// A client is subscribed while it has been silent for at most the TTL.
pub open spec fn is_live(c: ClientRecord, now: u64) -> bool {
    elapsed(now, c.last_heard_ms) <= CLIENT_TTL_MS
}

pub open spec fn distinct_addrs(s: Seq<ClientRecord>) -> bool {
    forall|i: int, j: int| 0 <= i < s.len() && 0 <= j < s.len() && i != j ==> s[i].addr != s[j].addr
}

/// The records of `s` that are live at `now`, in their order.
pub open spec fn live_only(s: Seq<ClientRecord>, now: u64) -> Seq<ClientRecord>
    decreases s.len(),
{
    if s.len() == 0 {
        s
    } else {
        let r = live_only(s.drop_last(), now);
        if is_live(s.last(), now) {
            r.push(s.last())
        } else {
            r
        }
    }
}

/// What a packet from `addr` at `now` does to the records: the client's
/// record is refreshed in place, or a new one is appended.
pub open spec fn touched(s: Seq<ClientRecord>, addr: PeerAddr, now: u64, s2: Seq<ClientRecord>) -> bool {
    let rec = ClientRecord { last_heard_ms: now, addr };
    if exists|i: int| 0 <= i < s.len() && s[i].addr == addr {
        exists|i: int| 0 <= i < s.len() && s[i].addr == addr && s2 == s.update(i, rec)
    } else {
        s2 == s.push(rec)
    }
}

proof fn lemma_live_only(s: Seq<ClientRecord>, now: u64)
    ensures
        forall|x: ClientRecord| #[trigger] live_only(s, now).contains(x) <==> (s.contains(x) && is_live(x, now)),
        distinct_addrs(s) ==> distinct_addrs(live_only(s, now)),
    decreases s.len(),
{
    if s.len() > 0 {
        let d = s.drop_last();
        let e = s.last();
        lemma_live_only(d, now);
        let r = live_only(d, now);
        assert(s =~= d.push(e));
        assert forall|x: ClientRecord| #[trigger] s.contains(x) <==> (d.contains(x) || x == e) by {
            if s.contains(x) {
                let i = choose|i: int| 0 <= i < s.len() && s[i] == x;
                if i < d.len() {
                    assert(d[i] == x);
                }
            }
            if d.contains(x) {
                let i = choose|i: int| 0 <= i < d.len() && d[i] == x;
                assert(s[i] == x);
            }
            if x == e {
                assert(s[s.len() - 1] == x);
            }
        }
        if distinct_addrs(s) {
            assert forall|i: int, j: int|
                0 <= i < d.len() && 0 <= j < d.len() && i != j implies d[i].addr != d[j].addr by {
                assert(s[i] == d[i] && s[j] == d[j]);
            }
            assert forall|x: ClientRecord| #[trigger] d.contains(x) implies x.addr != e.addr by {
                let i = choose|i: int| 0 <= i < d.len() && d[i] == x;
                assert(s[i] == d[i]);
                assert(s[s.len() - 1] == e);
            }
        }
        if is_live(e, now) {
            assert forall|x: ClientRecord| #[trigger] r.push(e).contains(x) <==> (r.contains(x) || x == e) by {
                if r.push(e).contains(x) {
                    let i = choose|i: int| 0 <= i < r.push(e).len() && r.push(e)[i] == x;
                    if i < r.len() {
                        assert(r[i] == x);
                    }
                }
                if r.contains(x) {
                    let i = choose|i: int| 0 <= i < r.len() && r[i] == x;
                    assert(r.push(e)[i] == x);
                }
                if x == e {
                    assert(r.push(e)[r.len() as int] == x);
                }
            }
            if distinct_addrs(s) {
                assert forall|i: int| 0 <= i < r.len() implies r[i].addr != e.addr by {
                    assert(r.contains(r[i]));
                    assert(d.contains(r[i]));
                }
            }
        }
    }
}

/// The clients that the daemon has heard from, in order of first contact.
pub struct ClientTable {
    clients: Vec<ClientRecord>,
}

impl ClientTable {
    pub closed spec fn records(&self) -> Seq<ClientRecord> {
        self.clients@
    }

    pub open spec fn wf(&self) -> bool {
        distinct_addrs(self.records())
    }

    pub fn new() -> (r: ClientTable)
        ensures
            r.wf(),
            r.records().len() == 0,
    {
        ClientTable { clients: Vec::new() }
    }

    pub fn len(&self) -> (r: usize)
        ensures
            r == self.records().len(),
    {
        self.clients.len()
    }

    /// Notes that a packet came from `addr` at `now`.
    pub fn touch(&mut self, addr: PeerAddr, now: u64)
        requires
            old(self).wf(),
        ensures
            final(self).wf(),
            touched(old(self).records(), addr, now, final(self).records()),
    {
        let rec = ClientRecord { last_heard_ms: now, addr };
        let ghost s = self.clients@;
        let mut i: usize = 0;
        while i < self.clients.len()
            invariant
                self.clients@ == s,
                i <= s.len(),
                forall|j: int| 0 <= j < i ==> s[j].addr != addr,
            ensures
                self.clients@ == s,
                i <= s.len(),
                forall|j: int| 0 <= j < i ==> s[j].addr != addr,
                i < s.len() ==> s[i as int].addr == addr,
            decreases s.len() - i,
        {
            if self.clients[i].addr == addr {
                break;
            }
            i = i + 1;
        }
        if i < self.clients.len() {
            self.clients.set(i, rec);
            proof {
                assert(s[i as int].addr == addr);
                assert(self.clients@ == s.update(i as int, rec));
                assert forall|a: int, b: int|
                    0 <= a < self.clients@.len() && 0 <= b < self.clients@.len() && a != b
                    implies self.clients@[a].addr != self.clients@[b].addr by {
                    if a != i && b != i {
                        assert(self.clients@[a] == s[a] && self.clients@[b] == s[b]);
                    } else if a == i {
                        assert(self.clients@[b] == s[b]);
                        assert(s[b].addr != s[i as int].addr);
                    } else {
                        assert(self.clients@[a] == s[a]);
                        assert(s[a].addr != s[i as int].addr);
                    }
                }
            }
            return;
        }
        self.clients.push(rec);
    }

    /// Drops the clients that have been silent for longer than the TTL.
    pub fn gc(&mut self, now: u64)
        requires
            old(self).wf(),
        ensures
            final(self).wf(),
            final(self).records() == live_only(old(self).records(), now),
    {
        let ghost s = self.clients@;
        let mut kept: Vec<ClientRecord> = Vec::new();
        let mut i: usize = 0;
        while i < self.clients.len()
            invariant
                s == self.clients@,
                i <= s.len(),
                kept@ == live_only(s.take(i as int), now),
            decreases self.clients@.len() - i,
        {
            let ghost t = s.take(i as int + 1);
            assert(t.drop_last() =~= s.take(i as int));
            let c = self.clients[i];
            if now < c.last_heard_ms || now - c.last_heard_ms <= CLIENT_TTL_MS {
                kept.push(c);
            }
            i = i + 1;
        }
        assert(s.take(s.len() as int) =~= s);
        self.clients = kept;
        proof {
            lemma_live_only(s, now);
        }
    }

    /// The addresses to send an event to at `now`: the table is first rid
    /// of silent clients, then every remaining client gets one copy.
    pub fn event_targets(&mut self, now: u64) -> (r: Vec<PeerAddr>)
        requires
            old(self).wf(),
        ensures
            final(self).wf(),
            fanned_out(old(self).records(), now, final(self).records(), r@),
    {
        self.gc(now);
        let mut r: Vec<PeerAddr> = Vec::new();
        let mut i: usize = 0;
        while i < self.clients.len()
            invariant
                i <= self.clients@.len(),
                r@.len() == i,
                forall|j: int| 0 <= j < i ==> r@[j] == self.clients@[j].addr,
            decreases self.clients@.len() - i,
        {
            r.push(self.clients[i].addr);
            i = i + 1;
        }
        r
    }
}

/// An event at `now` on records `s` leaves records `s2` and goes to the
/// addresses `r`: one per live client, in the table's order.
pub open spec fn fanned_out(s: Seq<ClientRecord>, now: u64, s2: Seq<ClientRecord>, r: Seq<PeerAddr>) -> bool {
    &&& s2 == live_only(s, now)
    &&& r.len() == s2.len()
    &&& forall|i: int| 0 <= i < r.len() ==> r[i] == s2[i].addr
}

/// An event reaches exactly the clients heard from within the TTL, each of
/// them once: the addresses sent to are the live clients' addresses, with no
/// repeats, so there are as many datagrams as live clients.
pub proof fn lemma_fan_out(t: ClientTable, now: u64, s2: Seq<ClientRecord>, r: Seq<PeerAddr>)
    requires
        t.wf(),
        fanned_out(t.records(), now, s2, r),
    ensures
        r.no_duplicates(),
        forall|a: PeerAddr| r.contains(a) <==> exists|i: int|
            0 <= i < t.records().len() && #[trigger] t.records()[i].addr == a && is_live(t.records()[i], now),
        r.len() == r.to_set().len(),
{
    let s = t.records();
    lemma_live_only(s, now);
    assert forall|i: int, j: int| 0 <= i < r.len() && 0 <= j < r.len() && i != j implies r[i] != r[j] by {}
    assert forall|a: PeerAddr| r.contains(a) <==> exists|i: int|
        0 <= i < s.len() && #[trigger] s[i].addr == a && is_live(s[i], now) by {
        if r.contains(a) {
            let k = choose|k: int| 0 <= k < r.len() && r[k] == a;
            assert(s2.contains(s2[k]));
            let i = choose|i: int| 0 <= i < s.len() && s[i] == s2[k];
            assert(s[i].addr == a);
        }
        if exists|i: int| 0 <= i < s.len() && #[trigger] s[i].addr == a && is_live(s[i], now) {
            let i = choose|i: int| 0 <= i < s.len() && #[trigger] s[i].addr == a && is_live(s[i], now);
            assert(s.contains(s[i]));
            assert(s2.contains(s[i]));
            let k = choose|k: int| 0 <= k < s2.len() && s2[k] == s[i];
            assert(r[k] == a);
        }
    }
    r.unique_seq_to_set();
}

/// A client that has been silent for longer than the TTL gets no event.
pub proof fn lemma_silent_client_dropped(t: ClientTable, now: u64, i: int, s2: Seq<ClientRecord>, r: Seq<PeerAddr>)
    requires
        t.wf(),
        0 <= i < t.records().len(),
        !is_live(t.records()[i], now),
        fanned_out(t.records(), now, s2, r),
    ensures
        !r.contains(t.records()[i].addr),
{
    lemma_fan_out(t, now, s2, r);
    let s = t.records();
    if r.contains(s[i].addr) {
        let j = choose|j: int| 0 <= j < s.len() && #[trigger] s[j].addr == s[i].addr && is_live(s[j], now);
        assert(i != j);
    }
}

/// A client that sent a packet within the TTL before an event gets it.
pub proof fn lemma_recent_sender_gets_event(
    t0: ClientTable,
    addr: PeerAddr,
    sent: u64,
    t1: ClientTable,
    now: u64,
    s2: Seq<ClientRecord>,
    r: Seq<PeerAddr>,
)
    requires
        t0.wf(),
        t1.wf(),
        touched(t0.records(), addr, sent, t1.records()),
        sent <= now,
        now - sent <= CLIENT_TTL_MS,
        fanned_out(t1.records(), now, s2, r),
    ensures
        r.contains(addr),
{
    lemma_fan_out(t1, now, s2, r);
    let s0 = t0.records();
    let s1 = t1.records();
    let rec = ClientRecord { last_heard_ms: sent, addr };
    if exists|i: int| 0 <= i < s0.len() && s0[i].addr == addr {
        let i = choose|i: int| 0 <= i < s0.len() && s0[i].addr == addr && s1 == s0.update(i, rec);
        assert(s1[i] == rec);
        assert(s1[i].addr == addr && is_live(s1[i], now));
    } else {
        assert(s1[s0.len() as int] == rec);
        assert(s1[s0.len() as int].addr == addr && is_live(s1[s0.len() as int], now));
    }
}

} // verus!
