//! The client's side of a request: request ids, the responses that have
//! arrived and are not yet claimed, and the step of waiting for one.
use vstd::prelude::*;

use crate::facade::{start, started, CallError, LocalOnly};
use crate::registry::{HandleRegistry, SessionEvent};

verus! {

/// Hands out request ids: 1, 2, 3, ... (0 is kept for events).
pub struct RequestIds {
    next: u128,
}

impl RequestIds {
    /// The id that the next request gets.
    pub closed spec fn peek(&self) -> u128 {
        self.next
    }

    pub open spec fn wf(&self) -> bool {
        self.peek() >= 1
    }

    pub fn new() -> (r: RequestIds)
        ensures
            r.wf(),
            r.peek() == 1,
    {
        RequestIds { next: 1 }
    }

    /// A fresh request id, larger than every id given out before; `None`
    /// once all of them are used up.
    pub fn generate(&mut self) -> (r: Option<u128>)
        requires
            old(self).wf(),
        ensures
            final(self).wf(),
            old(self).peek() < u128::MAX ==> r == Some(old(self).peek()) && final(self).peek() == old(self).peek() + 1,
            old(self).peek() == u128::MAX ==> r is None && final(self).peek() == old(self).peek(),
    {
        if self.next == u128::MAX {
            None
        } else {
            let id = self.next;
            self.next = id + 1;
            Some(id)
        }
    }
}

/// Some response in `s` carries request id `id`.
pub open spec fn has_id<T>(s: Seq<(u128, T)>, id: u128) -> bool {
    exists|i: int| 0 <= i < s.len() && s[i].0 == id
}

/// Claiming the response to request `id` from `s` leaves `s2` and gives
/// `r`: the first response that carries `id`, taken out, or nothing when
/// none does.
pub open spec fn taken<T>(s: Seq<(u128, T)>, id: u128, s2: Seq<(u128, T)>, r: Option<T>) -> bool {
    match r {
        None => !has_id(s, id) && s2 == s,
        Some(t) => exists|i: int|
            0 <= i < s.len() && s[i] == (id, t) && (forall|j: int| 0 <= j < i ==> s[j].0 != id)
                && s2 == s.remove(i),
    }
}

/// Responses that have arrived and that no caller has claimed yet, in order
/// of arrival.
pub struct PendingResponses<T> {
    items: Vec<(u128, T)>,
}

/// Where a wait for a response stands.
pub enum WaitOutcome<T> {
    /// The response has arrived.
    Ready(T),
    /// The deadline has passed and no response has come.
    TimedOut,
    /// Not yet: receive more packets and ask again.
    Pending,
}

impl<T> PendingResponses<T> {
    pub closed spec fn items(&self) -> Seq<(u128, T)> {
        self.items@
    }

    pub fn new() -> (r: Self)
        ensures
            r.items() == Seq::<(u128, T)>::empty(),
    {
        PendingResponses { items: Vec::new() }
    }

    pub fn len(&self) -> (r: usize)
        ensures
            r == self.items().len(),
    {
        self.items.len()
    }

    /// Keeps a response until its caller claims it.
    pub fn push(&mut self, id: u128, response: T)
        ensures
            final(self).items() == old(self).items().push((id, response)),
    {
        self.items.push((id, response));
    }

    /// Claims the response to request `id`, if it has arrived.
    pub fn take(&mut self, id: u128) -> (r: Option<T>)
        ensures
            taken(old(self).items(), id, final(self).items(), r),
    {
        let mut i: usize = 0;
        while i < self.items.len()
            invariant
                self.items@ == old(self).items@,
                i <= self.items@.len(),
                forall|j: int| 0 <= j < i ==> self.items@[j].0 != id,
            decreases self.items@.len() - i,
        {
            if self.items[i].0 == id {
                let ghost before = self.items@;
                let (_, t) = self.items.remove(i);
                assert(before[i as int] == (id, t));
                return Some(t);
            }
            i = i + 1;
        }
        None
    }

    /// One step of waiting for the response to request `id`, `elapsed_ms`
    /// after the request was sent: the response if it is here, else a time
    /// out once `timeout_ms` have passed, else a request to receive more.
    pub fn poll(&mut self, id: u128, elapsed_ms: u64, timeout_ms: u64) -> (r: WaitOutcome<T>)
        ensures
            r matches WaitOutcome::Ready(t) ==> taken(old(self).items(), id, final(self).items(), Some(t)),
            r is TimedOut ==> !has_id(old(self).items(), id) && elapsed_ms >= timeout_ms && final(self).items() == old(self).items(),
            r is Pending ==> !has_id(old(self).items(), id) && elapsed_ms < timeout_ms && final(self).items() == old(self).items(),
    {
        match self.take(id) {
            Some(t) => WaitOutcome::Ready(t),
            None => if elapsed_ms >= timeout_ms {
                WaitOutcome::TimedOut
            } else {
                WaitOutcome::Pending
            },
        }
    }
}

/// Two callers that wait for distinct request ids on one client each get
/// the response that carries their own id, and the first claim does not take
/// the second caller's response away.
pub proof fn lemma_correlation<T>(
    s0: Seq<(u128, T)>,
    a: u128,
    s1: Seq<(u128, T)>,
    ra: Option<T>,
    b: u128,
    s2: Seq<(u128, T)>,
    rb: Option<T>,
)
    requires
        a != b,
        taken(s0, a, s1, ra),
        taken(s1, b, s2, rb),
    ensures
        ra matches Some(t) ==> s0.contains((a, t)),
        rb matches Some(u) ==> s0.contains((b, u)),
        has_id(s0, a) ==> ra is Some,
        has_id(s0, b) ==> rb is Some,
{
    match ra {
        Some(t) => {
            let i = choose|i: int|
                0 <= i < s0.len() && s0[i] == (a, t) && (forall|j: int| 0 <= j < i ==> s0[j].0 != a)
                    && s1 == s0.remove(i);
            if has_id(s0, b) {
                let k = choose|k: int| 0 <= k < s0.len() && s0[k].0 == b;
                if k < i {
                    assert(s1[k] == s0[k]);
                } else {
                    assert(k != i);
                    assert(s1[k - 1] == s0[k]);
                }
            }
            match rb {
                Some(u) => {
                    let m = choose|m: int|
                        0 <= m < s1.len() && s1[m] == (b, u) && (forall|j: int| 0 <= j < m ==> s1[j].0 != b)
                            && s2 == s1.remove(m);
                    if m < i {
                        assert(s0[m] == s1[m]);
                    } else {
                        assert(s0[m + 1] == s1[m]);
                    }
                },
                None => {},
            }
        },
        None => {
            match rb {
                Some(u) => {
                    let m = choose|m: int|
                        0 <= m < s1.len() && s1[m] == (b, u) && (forall|j: int| 0 <= j < m ==> s1[j].0 != b)
                            && s2 == s1.remove(m);
                    assert(s0[m] == s1[m]);
                },
                None => {},
            }
        },
    }
}

/// What arrives at a client: the response to one of its requests, or an
/// event that the daemon sends to every client.
pub enum Incoming<T> {
    Response(u128, T),
    Event(SessionEvent),
}

/// The ids in `s`, but `id`.
fn without_id(s: &Vec<u128>, id: u128) -> (r: Vec<u128>)
    ensures
        forall|x: u128| r@.contains(x) <==> (s@.contains(x) && x != id),
{
    let mut r: Vec<u128> = Vec::new();
    let mut i: usize = 0;
    while i < s.len()
        invariant
            i <= s@.len(),
            forall|x: u128| r@.contains(x) <==> (s@.subrange(0, i as int).contains(x) && x != id),
        decreases s@.len() - i,
    {
        let ghost before = r@;
        let ghost p = s@.subrange(0, i as int);
        let ghost q = s@.subrange(0, i as int + 1);
        assert(q =~= p.push(s@[i as int]));
        assert forall|x: u128| q.contains(x) <==> (p.contains(x) || x == s@[i as int]) by {
            if q.contains(x) {
                let j = choose|j: int| 0 <= j < q.len() && q[j] == x;
                if j < p.len() {
                    assert(p[j] == x);
                }
            }
            if p.contains(x) {
                let j = choose|j: int| 0 <= j < p.len() && p[j] == x;
                assert(q[j] == x);
            }
            if x == s@[i as int] {
                assert(q[i as int] == x);
            }
        }
        if s[i] != id {
            r.push(s[i]);
            assert(r@ == before.push(s@[i as int]));
            assert forall|x: u128| r@.contains(x) <==> (before.contains(x) || x == s@[i as int]) by {
                if r@.contains(x) {
                    let j = choose|j: int| 0 <= j < r@.len() && r@[j] == x;
                    if j < before.len() {
                        assert(before[j] == x);
                    }
                }
                if before.contains(x) {
                    let j = choose|j: int| 0 <= j < before.len() && before[j] == x;
                    assert(r@[j] == x);
                }
                if x == s@[i as int] {
                    assert(r@[before.len() as int] == x);
                }
            }
        }
        assert forall|x: u128| r@.contains(x) <==> (q.contains(x) && x != id) by {
            assert(before.contains(x) <==> (p.contains(x) && x != id));
            assert(q.contains(x) <==> (p.contains(x) || x == s@[i as int]));
        }
        i = i + 1;
    }
    assert(s@.subrange(0, s@.len() as int) =~= s@);
    r
}

/// The requests that a caller is still waiting for.
pub struct InFlight {
    ids: Vec<u128>,
}

impl InFlight {
    pub closed spec fn members(&self) -> Set<u128> {
        self.ids@.to_set()
    }

    pub fn new() -> (r: InFlight)
        ensures
            r.members().is_empty(),
    {
        let r = InFlight { ids: Vec::new() };
        assert(r.members() =~= Set::<u128>::empty());
        r
    }

    pub fn insert(&mut self, id: u128)
        ensures
            final(self).members() == old(self).members().insert(id),
    {
        let ghost before = self.ids@;
        self.ids.push(id);
        proof {
            assert forall|x: u128| self.ids@.contains(x) <==> (before.contains(x) || x == id) by {
                if self.ids@.contains(x) {
                    let j = choose|j: int| 0 <= j < self.ids@.len() && self.ids@[j] == x;
                    if j < before.len() {
                        assert(before[j] == x);
                    }
                }
                if before.contains(x) {
                    let j = choose|j: int| 0 <= j < before.len() && before[j] == x;
                    assert(self.ids@[j] == x);
                }
                if x == id {
                    assert(self.ids@[before.len() as int] == x);
                }
            }
            assert forall|x: u128| self.members().contains(x) <==> before.to_set().insert(id).contains(x) by {
                assert(self.members().contains(x) == self.ids@.contains(x));
                assert(before.to_set().contains(x) == before.contains(x));
            }
            assert(self.members() =~= before.to_set().insert(id));
        }
    }

    pub fn remove(&mut self, id: u128)
        ensures
            final(self).members() == old(self).members().remove(id),
    {
        let ghost before = self.ids@;
        self.ids = without_id(&self.ids, id);
        assert(self.members() =~= before.to_set().remove(id));
    }

    pub fn contains(&self, id: u128) -> (r: bool)
        ensures
            r == self.members().contains(id),
    {
        let mut i: usize = 0;
        while i < self.ids.len()
            invariant
                i <= self.ids@.len(),
                forall|j: int| 0 <= j < i ==> self.ids@[j] != id,
            decreases self.ids@.len() - i,
        {
            if self.ids[i] == id {
                assert(self.ids@.contains(id));
                return true;
            }
            i = i + 1;
        }
        false
    }
}

/// The state that a client keeps between requests.
pub struct ClientCore<T> {
    pub ids: RequestIds,
    pub pending: PendingResponses<T>,
    pub registry: HandleRegistry,
    pub waiting: InFlight,
}

impl<T> ClientCore<T> {
    /// The requests that a caller is still waiting for.
    pub open spec fn waiting(&self) -> Set<u128> {
        self.waiting.members()
    }

    pub open spec fn wf(&self) -> bool {
        self.ids.wf() && self.registry.wf()
    }

    pub fn new() -> (r: Self)
        ensures
            r.wf(),
            r.ids.peek() == 1,
            r.pending.items().len() == 0,
            r.waiting().is_empty(),
            r.registry.locations.rows().len() == 0,
            r.registry.elements.rows().len() == 0,
            r.registry.modules.rows().len() == 0,
    {
        ClientCore {
            ids: RequestIds::new(),
            pending: PendingResponses::new(),
            registry: HandleRegistry::new(),
            waiting: InFlight::new(),
        }
    }

    /// Opens a call (see `facade::start`); a request that goes out is
    /// waited for from now on.
    pub fn begin<E>(&mut self, local_only: Option<LocalOnly>) -> (r: Result<u128, CallError<E>>)
        requires
            old(self).wf(),
        ensures
            final(self).wf(),
            final(self).pending.items() == old(self).pending.items(),
            final(self).registry == old(self).registry,
            started(old(self).ids, local_only, final(self).ids, r),
            r matches Ok(id) ==> final(self).waiting() == old(self).waiting().insert(id),
            r is Err ==> final(self).waiting() == old(self).waiting(),
    {
        let r = start(&mut self.ids, local_only);
        if let Ok(id) = r {
            self.waiting.insert(id);
        }
        r
    }

    /// One step of waiting for the response to request `id` (see
    /// `PendingResponses::poll`); once it has come or timed out, nobody waits
    /// for `id` any more.
    pub fn poll(&mut self, id: u128, elapsed_ms: u64, timeout_ms: u64) -> (r: WaitOutcome<T>)
        requires
            old(self).wf(),
        ensures
            final(self).wf(),
            final(self).ids == old(self).ids,
            final(self).registry == old(self).registry,
            r matches WaitOutcome::Ready(t) ==> taken(old(self).pending.items(), id, final(self).pending.items(), Some(t)),
            r is TimedOut ==> !has_id(old(self).pending.items(), id) && elapsed_ms >= timeout_ms
                && final(self).pending.items() == old(self).pending.items(),
            r is Pending ==> !has_id(old(self).pending.items(), id) && elapsed_ms < timeout_ms
                && final(self).pending.items() == old(self).pending.items(),
            r is Pending ==> final(self).waiting() == old(self).waiting(),
            !(r is Pending) ==> final(self).waiting() == old(self).waiting().remove(id),
    {
        let r = self.pending.poll(id, elapsed_ms, timeout_ms);
        match r {
            WaitOutcome::Pending => {},
            _ => self.waiting.remove(id),
        }
        r
    }

    /// Files a packet that has arrived: a response waits for its caller, or
    /// is dropped when nobody waits for it (late, or a repeat); an event goes
    /// to the handle registry.
    pub fn receive(&mut self, packet: Incoming<T>)
        requires
            old(self).wf(),
        ensures
            final(self).wf(),
            final(self).ids == old(self).ids,
            final(self).waiting() == old(self).waiting(),
            match packet {
                Incoming::Response(id, t) => final(self).registry == old(self).registry && if old(
                    self,
                ).waiting().contains(id) {
                    final(self).pending.items() == old(self).pending.items().push((id, t))
                } else {
                    final(self).pending.items() == old(self).pending.items()
                },
                Incoming::Event(e) => final(self).pending.items() == old(self).pending.items()
                    && crate::registry::event_applied(old(self).registry, e, final(self).registry),
            },
    {
        match packet {
            Incoming::Response(id, t) => {
                if self.waiting.contains(id) {
                    self.pending.push(id, t);
                }
            },
            Incoming::Event(e) => self.registry.apply_event(&e),
        }
    }
}

} // verus!
