//! The balancer core: membership keyed by endpoint identity, weighted
//! power-of-two-choices selection, and per-request bookkeeping.
use vstd::prelude::*;

use crate::peak_ewma::{after_observe, load_of, PeakEwma};

verus! {

/// One member of the balancer: its identity, weight, the instance number it
/// was inserted under, its estimator and its count of requests in flight.
#[derive(Clone, Copy, Debug)]
pub struct Endpoint {
    pub key: u64,
    pub weight: u32,
    pub instance: u64,
    pub ewma: PeakEwma,
    pub pending: u32,
}

/// A change reported by discovery.
#[derive(Clone, Copy, Debug, PartialEq, Eq, Structural)]
pub enum Event {
    Insert { key: u64, weight: u32 },
    Remove { key: u64 },
}

/// Where the balancer stands with respect to its discovery feed.
#[derive(Clone, Copy, Debug, PartialEq, Eq, Structural)]
pub enum BalancerState {
    Empty,
    Pending,
    Ready,
    Failed,
}

/// Why a request could not be admitted.
#[derive(Clone, Copy, Debug, PartialEq, Eq, Structural)]
pub enum BalanceError {
    /// The discovery feed failed; the balancer admits nothing more.
    Discovery,
    /// No endpoint is ready yet; the caller should wait and try again.
    NoEndpointsAvailable,
}

/// Names the endpoint instance that a dispatched request went to.
#[derive(Clone, Copy, Debug, PartialEq, Eq, Structural)]
pub struct Ticket {
    pub key: u64,
    pub instance: u64,
}

/// The set of identities held by a sequence of endpoints.
pub open spec fn keys_of(eps: Seq<Endpoint>) -> Set<u64> {
    Set::new(|k: u64| exists|i: int| 0 <= i < eps.len() && eps[i].key == k)
}

/// No identity occurs twice.
pub open spec fn unique_keys(eps: Seq<Endpoint>) -> bool {
    forall|i: int, j: int|
        0 <= i < eps.len() && 0 <= j < eps.len() && i != j ==> eps[i].key != eps[j].key
}

/// What one discovery event does to the set of members. An insert with
/// weight zero is refused.
pub open spec fn event_effect(s: Set<u64>, e: Event) -> Set<u64> {
    match e {
        Event::Insert { key, weight } => if weight > 0 { s.insert(key) } else { s },
        Event::Remove { key } => s.remove(key),
    }
}

/// The members after applying `events` in order, starting from `s`.
pub open spec fn members_after(s: Set<u64>, events: Seq<Event>) -> Set<u64>
    decreases events.len(),
{
    if events.len() == 0 {
        s
    } else {
        event_effect(members_after(s, events.drop_last()), events.last())
    }
}

/// The identity an event is about.
pub open spec fn event_key(e: Event) -> u64 {
    match e {
        Event::Insert { key, weight: _ } => key,
        Event::Remove { key } => key,
    }
}

/// Some event of `events` is about `k`.
pub open spec fn mentions(events: Seq<Event>, k: u64) -> bool {
    exists|i: int| 0 <= i < events.len() && #[trigger] event_key(events[i]) == k
}

/// `new` is `old` without the endpoint keyed `k`, order kept.
pub open spec fn removed(old: Seq<Endpoint>, new: Seq<Endpoint>, k: u64) -> bool {
    if keys_of(old).contains(k) {
        exists|i: int| 0 <= i < old.len() && old[i].key == k && new == old.remove(i)
    } else {
        new == old
    }
}

/// The endpoint's load with its requests in flight counted.
pub open spec fn endpoint_load(e: Endpoint) -> nat {
    load_of(e.ewma, e.pending as nat)
}

/// `a` is no more loaded than `b` per unit of weight: `load(a) / weight(a) <=
/// load(b) / weight(b)`, cross-multiplied.
pub open spec fn prefers(a: Endpoint, b: Endpoint) -> bool {
    endpoint_load(a) * (b.weight as nat) <= endpoint_load(b) * (a.weight as nat)
}

/// The first candidate drawn from `n` by the random value `r1`.
pub open spec fn first_pick(n: nat, r1: nat) -> nat {
    r1 % n
}

/// The second candidate, distinct from the first, drawn by `r2`.
pub open spec fn second_pick(n: nat, r1: nat, r2: nat) -> nat {
    let b = r2 % ((n - 1) as nat);
    if b >= first_pick(n, r1) { b + 1 } else { b }
}

/// The index chosen among `eps` for the draws `r1` and `r2`: the only one if
/// there is one, else the less loaded of the two candidates, the first on a tie.
pub open spec fn choice(eps: Seq<Endpoint>, r1: nat, r2: nat) -> int {
    if eps.len() <= 1 {
        0
    } else {
        let a = first_pick(eps.len(), r1) as int;
        let b = second_pick(eps.len(), r1, r2) as int;
        if prefers(eps[a], eps[b]) { a } else { b }
    }
}

proof fn lemma_keys_remove(s: Seq<Endpoint>, i: int)
    requires
        unique_keys(s),
        0 <= i < s.len(),
    ensures
        keys_of(s.remove(i)) == keys_of(s).remove(s[i].key),
        unique_keys(s.remove(i)),
{
    let r = s.remove(i);
    assert forall|k: u64| keys_of(r).contains(k) implies keys_of(s).remove(s[i].key).contains(k) by {
        let j = choose|j: int| 0 <= j < r.len() && r[j].key == k;
        if j < i {
            assert(s[j].key == k);
        } else {
            assert(s[j + 1].key == k);
        }
    }
    assert forall|k: u64| keys_of(s).remove(s[i].key).contains(k) implies keys_of(r).contains(k) by {
        let j = choose|j: int| 0 <= j < s.len() && s[j].key == k;
        if j < i {
            assert(r[j].key == k);
        } else {
            assert(r[j - 1].key == k);
        }
    }
    assert(keys_of(r) =~= keys_of(s).remove(s[i].key));
    assert forall|a: int, b: int| 0 <= a < r.len() && 0 <= b < r.len() && a != b implies r[a].key
        != r[b].key by {
        let a2 = if a < i { a } else { a + 1 };
        let b2 = if b < i { b } else { b + 1 };
        assert(r[a] == s[a2] && r[b] == s[b2]);
    }
}

proof fn lemma_removed_keeps_others(old: Seq<Endpoint>, new: Seq<Endpoint>, k: u64, e: Endpoint)
    requires
        removed(old, new, k),
        old.contains(e),
        e.key != k,
    ensures
        new.contains(e),
{
    if keys_of(old).contains(k) {
        let i = choose|i: int| 0 <= i < old.len() && old[i].key == k && new == old.remove(i);
        let j = choose|j: int| 0 <= j < old.len() && old[j] == e;
        if j < i {
            assert(new[j] == e);
        } else {
            assert(new[j - 1] == e);
        }
    }
}

proof fn lemma_keys_push(s: Seq<Endpoint>, e: Endpoint)
    requires
        unique_keys(s),
        !keys_of(s).contains(e.key),
    ensures
        keys_of(s.push(e)) == keys_of(s).insert(e.key),
        unique_keys(s.push(e)),
{
    let p = s.push(e);
    assert forall|k: u64| keys_of(p).contains(k) implies keys_of(s).insert(e.key).contains(k) by {
        let j = choose|j: int| 0 <= j < p.len() && p[j].key == k;
        if j < s.len() {
            assert(s[j].key == k);
        }
    }
    assert forall|k: u64| keys_of(s).insert(e.key).contains(k) implies keys_of(p).contains(k) by {
        if k == e.key {
            assert(p[s.len() as int].key == k);
        } else {
            let j = choose|j: int| 0 <= j < s.len() && s[j].key == k;
            assert(p[j].key == k);
        }
    }
    assert(keys_of(p) =~= keys_of(s).insert(e.key));
    assert forall|a: int, b: int| 0 <= a < p.len() && 0 <= b < p.len() && a != b implies p[a].key
        != p[b].key by {
        if a == s.len() {
            assert(keys_of(s).contains(p[b].key));
        } else if b == s.len() {
            assert(keys_of(s).contains(p[a].key));
        }
    }
}

/// The endpoint that an accepted insert adds.
pub open spec fn fresh_endpoint(b: Balancer, key: u64, weight: u32) -> Endpoint {
    Endpoint {
        key,
        weight,
        instance: b.next_instance,
        ewma: PeakEwma { estimate: b.default_rtt, last_update: 0, observed: false, decay: b.decay },
        pending: 0,
    }
}

/// The endpoint with one more request in flight (the count saturates).
pub open spec fn dispatched(e: Endpoint) -> Endpoint {
    Endpoint { pending: if e.pending < u32::MAX { (e.pending + 1) as u32 } else { e.pending }, ..e }
}

/// The endpoint once a request to it has finished: one request fewer in
/// flight, and its estimator fed with `rtt` at `now` when one was measured.
pub open spec fn completed(e: Endpoint, rtt: Option<u64>, now: u64) -> Endpoint {
    Endpoint {
        pending: if e.pending > 0 { (e.pending - 1) as u32 } else { 0 },
        ewma: match rtt {
            Some(x) => after_observe(e.ewma, x, now),
            None => e.ewma,
        },
        ..e
    }
}

/// Two balancers agree on everything but their members.
pub open spec fn same_setup(a: Balancer, b: Balancer) -> bool {
    &&& a.state == b.state
    &&& a.default_rtt == b.default_rtt
    &&& a.decay == b.decay
    &&& a.next_instance == b.next_instance
}

/// Members in insertion order, the feed's state, the configuration every new
/// estimator gets (seed latency and decay, in nanoseconds) and the next
/// instance number to hand out.
pub struct Balancer {
    pub endpoints: Vec<Endpoint>,
    pub state: BalancerState,
    pub default_rtt: u64,
    pub decay: u64,
    pub next_instance: u64,
}

impl Balancer {
    /// Identities unique, every weight positive, every instance number
    /// already handed out.
    pub open spec fn wf(&self) -> bool {
        &&& unique_keys(self.endpoints@)
        &&& forall|i: int| 0 <= i < self.endpoints@.len() ==> #[trigger] self.endpoints@[i].weight > 0
        &&& forall|i: int|
            0 <= i < self.endpoints@.len() ==> #[trigger] self.endpoints@[i].instance
                < self.next_instance
    }

    /// The identities that selection can currently pick from.
    pub open spec fn members(&self) -> Set<u64> {
        keys_of(self.endpoints@)
    }

    /// An empty balancer that seeds each estimator with `default_rtt` and
    /// decays it over `decay`, waiting for its first discovery update.
    pub fn new(default_rtt: u64, decay: u64) -> (r: Balancer)
        ensures
            r.wf(),
            r.endpoints@.len() == 0,
            r.state == BalancerState::Empty,
            r.default_rtt == default_rtt,
            r.decay == decay,
            r.next_instance == 0,
    {
        Balancer { endpoints: Vec::new(), state: BalancerState::Empty, default_rtt, decay, next_instance: 0 }
    }

    /// The position of the member keyed `key`, if there is one.
    pub fn find(&self, key: u64) -> (r: Option<usize>)
        ensures
            match r {
                Some(i) => i < self.endpoints@.len() && self.endpoints@[i as int].key == key,
                None => !self.members().contains(key),
            },
    {
        let mut i: usize = 0;
        while i < self.endpoints.len()
            invariant
                i <= self.endpoints@.len(),
                forall|j: int| 0 <= j < i ==> self.endpoints@[j].key != key,
            decreases self.endpoints@.len() - i,
        {
            if self.endpoints[i].key == key {
                return Some(i);
            }
            i = i + 1;
        }
        None
    }

    /// Applies one discovery event. An insert replaces any member with the
    /// same identity by a fresh one; an insert with weight zero is refused and
    /// changes nothing. Requests in flight against a removed member keep their
    /// tickets, which then match no member.
    pub fn apply_event(&mut self, event: Event)
        requires
            old(self).wf(),
            old(self).next_instance < u64::MAX,
        ensures
            final(self).wf(),
            final(self).members() == event_effect(old(self).members(), event),
            final(self).state == old(self).state,
            final(self).default_rtt == old(self).default_rtt,
            final(self).decay == old(self).decay,
            match event {
                Event::Insert { key, weight } => if weight > 0 {
                    &&& final(self).next_instance == old(self).next_instance + 1
                    &&& exists|mid: Seq<Endpoint>|
                        removed(old(self).endpoints@, mid, key) && final(self).endpoints@ == mid.push(
                            fresh_endpoint(*old(self), key, weight),
                        )
                } else {
                    final(self).endpoints@ == old(self).endpoints@
                        && final(self).next_instance == old(self).next_instance
                },
                Event::Remove { key } => {
                    &&& removed(old(self).endpoints@, final(self).endpoints@, key)
                    &&& final(self).next_instance == old(self).next_instance
                },
            },
    {
        let ghost s0 = *self;
        let (key, weight, is_insert) = match event {
            Event::Insert { key, weight } => (key, weight, true),
            Event::Remove { key } => (key, 0u32, false),
        };
        if is_insert && weight == 0 {
            return;
        }
        match self.find(key) {
            Some(i) => {
                proof {
                    lemma_keys_remove(self.endpoints@, i as int);
                }
                self.endpoints.remove(i);
                assert forall|j: int| 0 <= j < self.endpoints@.len() implies
                    #[trigger] self.endpoints@[j].weight > 0
                    && self.endpoints@[j].instance < self.next_instance by {
                    if j >= i {
                        assert(self.endpoints@[j] == s0.endpoints@[j + 1]);
                    } else {
                        assert(self.endpoints@[j] == s0.endpoints@[j]);
                    }
                }
            },
            None => {
                assert(keys_of(s0.endpoints@).remove(key) =~= keys_of(s0.endpoints@));
            },
        }
        assert(removed(s0.endpoints@, self.endpoints@, key));
        if is_insert {
            let ghost mid = self.endpoints@;
            let e = Endpoint {
                key,
                weight,
                instance: self.next_instance,
                ewma: PeakEwma::new(self.default_rtt, self.decay),
                pending: 0,
            };
            proof {
                lemma_keys_push(mid, e);
            }
            self.endpoints.push(e);
            self.next_instance = self.next_instance + 1;
            assert(e == fresh_endpoint(s0, key, weight));
            assert(self.endpoints@ == mid.push(fresh_endpoint(s0, key, weight)));
            assert forall|j: int| 0 <= j < self.endpoints@.len() implies
                #[trigger] self.endpoints@[j].weight > 0
                && self.endpoints@[j].instance < self.next_instance by {
                if j < mid.len() {
                    assert(self.endpoints@[j] == mid[j]);
                }
            }
        }
    }
}

impl Balancer {
    /// The balancer has a membership snapshot and something in it.
    pub open spec fn admits(&self) -> bool {
        self.state == BalancerState::Ready && self.endpoints@.len() > 0
    }

    fn prefers_at(&self, a: usize, b: usize) -> (r: bool)
        requires
            a < self.endpoints@.len(),
            b < self.endpoints@.len(),
        ensures
            r == prefers(self.endpoints@[a as int], self.endpoints@[b as int]),
    {
        let ea = self.endpoints[a];
        let eb = self.endpoints[b];
        let la = ea.ewma.load(ea.pending);
        let lb = eb.ewma.load(eb.pending);
        proof {
            assert((la as nat) * (eb.weight as nat) < 0x1_0000_0000_0000_0000_0000_0000_0000_0000)
                by (nonlinear_arith)
                requires la < 0x1_0000_0000_0000_0000_0000_0000, eb.weight <= u32::MAX;
            assert((lb as nat) * (ea.weight as nat) < 0x1_0000_0000_0000_0000_0000_0000_0000_0000)
                by (nonlinear_arith)
                requires lb < 0x1_0000_0000_0000_0000_0000_0000, ea.weight <= u32::MAX;
        }
        la * (eb.weight as u128) <= lb * (ea.weight as u128)
    }

    /// The index that power-of-two-choices picks for the random draws `r1`
    /// and `r2`.
    pub fn choose_index(&self, r1: u64, r2: u64) -> (r: usize)
        requires
            self.endpoints@.len() > 0,
        ensures
            r == choice(self.endpoints@, r1 as nat, r2 as nat),
            r < self.endpoints@.len(),
    {
        let n = self.endpoints.len();
        if n == 1 {
            0
        } else {
            let a = (r1 % (n as u64)) as usize;
            let b0 = (r2 % ((n - 1) as u64)) as usize;
            let b = if b0 >= a { b0 + 1 } else { b0 };
            if self.prefers_at(a, b) { a } else { b }
        }
    }

    /// Admits one request: picks an endpoint for the draws `r1` and `r2`,
    /// counts the request against it and hands back its ticket.
    pub fn select(&mut self, r1: u64, r2: u64) -> (r: Result<Ticket, BalanceError>)
        requires
            old(self).wf(),
        ensures
            final(self).wf(),
            same_setup(*final(self), *old(self)),
            (r == Err::<Ticket, BalanceError>(BalanceError::Discovery)) <==> old(self).state
                == BalancerState::Failed,
            (r == Err::<Ticket, BalanceError>(BalanceError::NoEndpointsAvailable)) <==> (old(
                self,
            ).state != BalancerState::Failed && !old(self).admits()),
            r.is_ok() <==> old(self).admits(),
            r.is_err() ==> final(self).endpoints@ == old(self).endpoints@,
            r.is_ok() ==> ({
                let i = choice(old(self).endpoints@, r1 as nat, r2 as nat);
                let e = old(self).endpoints@[i];
                &&& r == Ok::<Ticket, BalanceError>(Ticket { key: e.key, instance: e.instance })
                &&& final(self).endpoints@ == old(self).endpoints@.update(i, dispatched(e))
            }),
    {
        if self.state == BalancerState::Failed {
            return Err(BalanceError::Discovery);
        }
        if self.state != BalancerState::Ready || self.endpoints.len() == 0 {
            return Err(BalanceError::NoEndpointsAvailable);
        }
        let i = self.choose_index(r1, r2);
        let mut e = self.endpoints[i];
        let ticket = Ticket { key: e.key, instance: e.instance };
        if e.pending < u32::MAX {
            e.pending = e.pending + 1;
        }
        let ghost before = self.endpoints@;
        self.endpoints.set(i, e);
        proof {
            assert forall|a: int, b: int|
                0 <= a < self.endpoints@.len() && 0 <= b < self.endpoints@.len() && a != b implies
                self.endpoints@[a].key != self.endpoints@[b].key by {
                assert(before[a].key != before[b].key);
            }
            assert forall|j: int| 0 <= j < self.endpoints@.len() implies
                #[trigger] self.endpoints@[j].weight > 0
                && self.endpoints@[j].instance < self.next_instance by {
                assert(before[j].weight > 0 && before[j].instance < self.next_instance);
            }
        }
        Ok(ticket)
    }

    /// Ends the request behind `ticket`. If the endpoint instance it went to
    /// is still a member, its count of requests in flight drops by one and a
    /// measured first-byte latency `rtt` at `now` feeds its estimator;
    /// otherwise nothing changes.
    pub fn complete(&mut self, ticket: Ticket, rtt: Option<u64>, now: u64)
        requires
            old(self).wf(),
        ensures
            final(self).wf(),
            same_setup(*final(self), *old(self)),
            (exists|i: int|
                0 <= i < old(self).endpoints@.len() && old(self).endpoints@[i].key == ticket.key
                    && old(self).endpoints@[i].instance == ticket.instance
                    && final(self).endpoints@ == old(self).endpoints@.update(
                    i,
                    completed(old(self).endpoints@[i], rtt, now),
                )) || ((forall|i: int|
                0 <= i < old(self).endpoints@.len() && old(self).endpoints@[i].key == ticket.key
                    ==> old(self).endpoints@[i].instance != ticket.instance)
                && final(self).endpoints@ == old(self).endpoints@),
    {
        let ghost before = self.endpoints@;
        match self.find(ticket.key) {
            None => {},
            Some(i) => {
                let mut e = self.endpoints[i];
                if e.instance == ticket.instance {
                    e.pending = if e.pending > 0 { e.pending - 1 } else { 0 };
                    if let Some(x) = rtt {
                        e.ewma.observe(x, now);
                    }
                    self.endpoints.set(i, e);
                    proof {
                        assert(e == completed(before[i as int], rtt, now));
                        assert forall|a: int, b: int|
                            0 <= a < self.endpoints@.len() && 0 <= b < self.endpoints@.len() && a
                                != b implies self.endpoints@[a].key != self.endpoints@[b].key by {
                            assert(before[a].key != before[b].key);
                        }
                        assert forall|j: int| 0 <= j < self.endpoints@.len() implies
                            #[trigger] self.endpoints@[j].weight > 0
                            && self.endpoints@[j].instance < self.next_instance by {
                            assert(before[j].weight > 0 && before[j].instance < self.next_instance);
                        }
                    }
                } else {
                    proof {
                        assert forall|j: int|
                            0 <= j < before.len() && before[j].key == ticket.key implies before[j].instance
                            != ticket.instance by {
                            if j != i {
                                assert(before[j].key != before[i as int].key);
                            }
                        }
                    }
                }
            },
        }
    }
}

impl Balancer {
    /// A discovery update has arrived and is being applied; admission waits
    /// until it lands. A failed balancer stays failed.
    pub fn begin_update(&mut self)
        requires
            old(self).wf(),
        ensures
            final(self).wf(),
            final(self).endpoints@ == old(self).endpoints@,
            final(self).state == if old(self).state == BalancerState::Failed {
                BalancerState::Failed
            } else {
                BalancerState::Pending
            },
            final(self).default_rtt == old(self).default_rtt,
            final(self).decay == old(self).decay,
            final(self).next_instance == old(self).next_instance,
    {
        if self.state != BalancerState::Failed {
            self.state = BalancerState::Pending;
        }
    }

    /// The discovery feed ended or failed: the balancer admits nothing more.
    pub fn fail(&mut self)
        requires
            old(self).wf(),
        ensures
            final(self).wf(),
            final(self).endpoints@ == old(self).endpoints@,
            final(self).state == BalancerState::Failed,
            final(self).default_rtt == old(self).default_rtt,
            final(self).decay == old(self).decay,
            final(self).next_instance == old(self).next_instance,
    {
        self.state = BalancerState::Failed;
    }

    /// Applies a batch of discovery events in order, then marks the balancer
    /// ready. A failed balancer refuses the batch and stays as it is.
    pub fn apply_batch(&mut self, batch: &Vec<Event>) -> (r: Result<(), BalanceError>)
        requires
            old(self).wf(),
            old(self).next_instance + batch@.len() < u64::MAX,
        ensures
            final(self).wf(),
            final(self).default_rtt == old(self).default_rtt,
            final(self).decay == old(self).decay,
            r.is_err() <==> old(self).state == BalancerState::Failed,
            r.is_err() ==> r == Err::<(), BalanceError>(BalanceError::Discovery)
                && final(self).endpoints@ == old(self).endpoints@
                && final(self).state == BalancerState::Failed
                && final(self).next_instance == old(self).next_instance,
            r.is_ok() ==> final(self).state == BalancerState::Ready && final(self).members()
                == members_after(old(self).members(), batch@),
            forall|e: Endpoint|
                old(self).endpoints@.contains(e) && !mentions(batch@, e.key)
                    ==> #[trigger] final(self).endpoints@.contains(e),
    {
        if self.state == BalancerState::Failed {
            return Err(BalanceError::Discovery);
        }
        let ghost start = self.members();
        let ghost first = self.next_instance;
        let mut i: usize = 0;
        while i < batch.len()
            invariant
                self.wf(),
                i <= batch@.len(),
                self.next_instance <= first + i,
                first + batch@.len() < u64::MAX,
                self.default_rtt == old(self).default_rtt,
                self.decay == old(self).decay,
                self.members() == members_after(start, batch@.take(i as int)),
                forall|e: Endpoint|
                    old(self).endpoints@.contains(e) && !mentions(batch@, e.key)
                        ==> #[trigger] self.endpoints@.contains(e),
            decreases batch@.len() - i,
        {
            let ghost prev = *self;
            let ghost before = self.endpoints@;
            let event = batch[i];
            self.apply_event(event);
            proof {
                assert forall|e: Endpoint|
                    old(self).endpoints@.contains(e) && !mentions(batch@, e.key) implies
                    #[trigger] self.endpoints@.contains(e) by {
                    assert(event_key(batch@[i as int]) != e.key);
                    match event {
                        Event::Insert { key, weight } => {
                            if weight > 0 {
                                let mid = choose|mid: Seq<Endpoint>|
                                    removed(before, mid, key) && self.endpoints@ == mid.push(
                                        fresh_endpoint(prev, key, weight),
                                    );
                                lemma_removed_keeps_others(before, mid, key, e);
                                let j = choose|j: int| 0 <= j < mid.len() && mid[j] == e;
                                assert(self.endpoints@[j] == e);
                            }
                        },
                        Event::Remove { key } => {
                            lemma_removed_keeps_others(before, self.endpoints@, key, e);
                        },
                    }
                }
            }
            assert(batch@.take(i + 1).drop_last() == batch@.take(i as int));
            i = i + 1;
        }
        assert(batch@.take(i as int) == batch@);
        self.state = BalancerState::Ready;
        Ok(())
    }
}

/// `e` inserts `k` with a positive weight.
pub open spec fn inserts(e: Event, k: u64) -> bool {
    match e {
        Event::Insert { key, weight } => key == k && weight > 0,
        Event::Remove { key: _ } => false,
    }
}

/// Starting from no members, an identity is a member after a sequence of
/// discovery events exactly when some insert of it with positive weight is not
/// followed by a removal of it.
pub proof fn lemma_members_follow_events(events: Seq<Event>, k: u64)
    ensures
        members_after(Set::empty(), events).contains(k) <==> exists|i: int|
            0 <= i < events.len() && #[trigger] inserts(events[i], k) && forall|j: int|
                i < j < events.len() ==> events[j] != (Event::Remove { key: k }),
    decreases events.len(),
{
    if events.len() > 0 {
        let p = events.drop_last();
        let n = events.len() - 1;
        let last = events.last();
        lemma_members_follow_events(p, k);
        if last == (Event::Remove { key: k }) {
            assert forall|i: int| 0 <= i < events.len() && #[trigger] inserts(events[i], k) implies
                !(forall|j: int| i < j < events.len() ==> events[j] != (Event::Remove { key: k })) by {
                assert(i != n);
                assert(events[n] == (Event::Remove { key: k }));
            }
        } else if inserts(last, k) {
            assert(inserts(events[n], k));
        } else {
            assert(members_after(Set::empty(), events).contains(k) == members_after(
                Set::empty(),
                p,
            ).contains(k));
            if members_after(Set::empty(), events).contains(k) {
                let i = choose|i: int|
                    0 <= i < p.len() && #[trigger] inserts(p[i], k) && forall|j: int|
                        i < j < p.len() ==> p[j] != (Event::Remove { key: k });
                assert(inserts(events[i], k));
                assert forall|j: int| i < j < events.len() implies events[j] != (Event::Remove {
                    key: k,
                }) by {
                    if j < n {
                        assert(events[j] == p[j]);
                    }
                }
            }
            if exists|i: int|
                0 <= i < events.len() && #[trigger] inserts(events[i], k) && forall|j: int|
                    i < j < events.len() ==> events[j] != (Event::Remove { key: k }) {
                let i = choose|i: int|
                    0 <= i < events.len() && #[trigger] inserts(events[i], k) && forall|j: int|
                        i < j < events.len() ==> events[j] != (Event::Remove { key: k });
                assert(i != n);
                assert(inserts(p[i], k));
                assert forall|j: int| i < j < p.len() implies p[j] != (Event::Remove { key: k }) by {
                    assert(events[j] == p[j]);
                }
            }
        }
    }
}

/// A balancer that had no members and then applied a batch of discovery
/// events selects from exactly the identities that some insert with positive
/// weight added and no later removal took away.
pub proof fn lemma_selectable_set(before: Balancer, after: Balancer, events: Seq<Event>, k: u64)
    requires
        before.endpoints@.len() == 0,
        after.members() == members_after(before.members(), events),
    ensures
        after.members().contains(k) <==> exists|i: int|
            0 <= i < events.len() && #[trigger] inserts(events[i], k) && forall|j: int|
                i < j < events.len() ==> events[j] != (Event::Remove { key: k }),
{
    assert(before.members() =~= Set::empty());
    lemma_members_follow_events(events, k);
}

/// The two candidates are distinct members; the one chosen is one of them,
/// and is no more loaded per unit of weight than the other.
pub proof fn lemma_two_choices(eps: Seq<Endpoint>, r1: nat, r2: nat)
    requires
        eps.len() >= 2,
    ensures
        ({
            let a = first_pick(eps.len(), r1) as int;
            let b = second_pick(eps.len(), r1, r2) as int;
            let c = choice(eps, r1, r2);
            &&& 0 <= a < eps.len() && 0 <= b < eps.len() && a != b
            &&& c == a || c == b
            &&& c == a ==> prefers(eps[a], eps[b])
            &&& c == b ==> prefers(eps[b], eps[a])
        }),
{
}

/// Every ordered pair of distinct members is drawn by some pair of draws
/// below `n` and `n - 1`.
pub proof fn lemma_every_pair_drawn(n: nat, a: nat, b: nat)
    requires
        2 <= n,
        a < n,
        b < n,
        a != b,
    ensures
        exists|r1: nat, r2: nat|
            r1 < n && r2 < n - 1 && first_pick(n, r1) == a && #[trigger] second_pick(n, r1, r2) == b,
{
    let r2: nat = if b > a { (b - 1) as nat } else { b };
    vstd::arithmetic::div_mod::lemma_small_mod(a, n);
    vstd::arithmetic::div_mod::lemma_small_mod(r2, (n - 1) as nat);
    assert(first_pick(n, a) == a);
    assert(second_pick(n, a, r2) == b);
}

/// With exactly two ready endpoints, the one strictly less loaded per unit of
/// weight is chosen, whatever the draws.
pub proof fn lemma_lower_load_chosen(eps: Seq<Endpoint>, r1: nat, r2: nat)
    requires
        eps.len() == 2,
        endpoint_load(eps[0]) * (eps[1].weight as nat) < endpoint_load(eps[1]) * (
        eps[0].weight as nat),
    ensures
        choice(eps, r1, r2) == 0,
{
    lemma_two_choices(eps, r1, r2);
}

/// An insert with weight zero adds nothing, so the endpoint chosen from a
/// well-formed balancer always has a positive weight.
pub proof fn lemma_zero_weight_never_chosen(b: Balancer, k: u64, r1: nat, r2: nat)
    requires
        b.wf(),
        b.endpoints@.len() > 0,
    ensures
        event_effect(b.members(), Event::Insert { key: k, weight: 0 }) == b.members(),
        b.endpoints@[choice(b.endpoints@, r1, r2)].weight > 0,
{
    if b.endpoints@.len() >= 2 {
        lemma_two_choices(b.endpoints@, r1, r2);
    }
}

/// Once `k` is removed it is no member, selection cannot return it, and no
/// ticket for it matches any member, so completing such a ticket changes
/// nothing.
pub proof fn lemma_removed_not_chosen(
    before: Seq<Endpoint>,
    after: Seq<Endpoint>,
    k: u64,
    r1: nat,
    r2: nat,
)
    requires
        unique_keys(before),
        removed(before, after, k),
    ensures
        !keys_of(after).contains(k),
        forall|i: int| 0 <= i < after.len() ==> #[trigger] after[i].key != k,
        after.len() > 0 ==> after[choice(after, r1, r2)].key != k,
{
    if keys_of(before).contains(k) {
        let i = choose|i: int| 0 <= i < before.len() && before[i].key == k && after == before.remove(i);
        lemma_keys_remove(before, i);
    }
    assert forall|i: int| 0 <= i < after.len() implies #[trigger] after[i].key != k by {
        if after[i].key == k {
            assert(keys_of(after).contains(k));
        }
    }
    if after.len() >= 2 {
        lemma_two_choices(after, r1, r2);
    }
}

} // verus!
