//! The peer registry: who is registered, until when, and what each peer holds
//! or waits for.

use vstd::prelude::*;
use crate::error::ThrottleError;

verus! {

/// A queued request: which semaphore, how much, and when it arrived.
#[derive(Debug, Clone, Copy, PartialEq, Eq, Structural)]
pub struct Ticket {
    /// The rank of the semaphore asked for.
    pub semaphore: usize,
    pub amount: u32,
    /// The arrival number: a ticket that arrived earlier has a smaller one.
    pub arrival: u64,
}

/// A registered client session.
pub struct Peer {
    pub id: u64,
    /// The deadline after which the peer may be swept away.
    pub expires_at: u64,
    /// By rank of the semaphore, the amount granted to this peer.
    pub active: Vec<Option<u32>>,
    /// The one request of this peer that is queued, if any.
    pub pending: Option<Ticket>,
}

impl Peer {
    /// The amount the peer holds of the semaphore at rank `s`.
    pub open spec fn held(&self, s: int) -> int {
        if 0 <= s < self.active@.len() {
            match self.active@[s] {
                Some(a) => a as int,
                None => 0,
            }
        } else {
            0
        }
    }

    /// Whether the peer's queued request is for the semaphore at rank `s`.
    pub open spec fn waits_on(&self, s: int) -> bool {
        self.pending matches Some(t) && t.semaphore == s
    }

    /// Whether the peer holds or waits for the semaphore at rank `s`.
    pub open spec fn touches(&self, s: int) -> bool {
        (0 <= s < self.active@.len() && self.active@[s] is Some) || self.waits_on(s)
    }

    /// The acquisition order: a peer may ask for the semaphore at rank `s` only
    /// if it ranks strictly above all that the peer holds or waits for.
    pub open spec fn may_request(&self, s: int) -> bool {
        forall|j: int| s <= j ==> !#[trigger] self.touches(j)
    }

    /// Decides whether a request for the semaphore at rank `s` keeps the
    /// acquisition order.
    pub fn permits(&self, s: usize) -> (allowed: bool)
        ensures
            allowed == self.may_request(s as int),
    {
        if let Some(t) = self.pending {
            if t.semaphore >= s {
                assert(self.touches(t.semaphore as int));
                return false;
            }
        }
        let mut j: usize = s;
        while j < self.active.len()
            invariant
                s <= j,
                forall|k: int| s <= k < j ==> !#[trigger] self.touches(k),
                self.pending matches Some(t) ==> t.semaphore < s,
            decreases self.active@.len() - j,
        {
            if self.active[j].is_some() {
                assert(self.touches(j as int));
                return false;
            }
            j += 1;
        }
        true
    }
}

/// What is summed over the peers.
pub enum Measure {
    /// The amount held of the semaphore at this rank.
    Held(int),
    /// One for each peer whose deadline is not after this instant.
    Expired(u64),
    /// One for each peer whose queued request is for the semaphore at this rank.
    Waiting(int),
}

/// What one peer counts for under a measure.
pub open spec fn weigh(p: Peer, m: Measure) -> int {
    match m {
        Measure::Held(s) => p.held(s),
        Measure::Expired(now) => if p.expires_at <= now { 1 } else { 0 },
        Measure::Waiting(s) => if p.waits_on(s) { 1 } else { 0 },
    }
}

/// The sum of a measure over the peers.
pub open spec fn total(peers: Seq<Peer>, m: Measure) -> int
    decreases peers.len(),
{
    if peers.len() == 0 {
        0
    } else {
        total(peers.drop_last(), m) + weigh(peers.last(), m)
    }
}

/// What all peers together hold of the semaphore at rank `s`.
pub open spec fn total_held(peers: Seq<Peer>, s: int) -> int {
    total(peers, Measure::Held(s))
}

/// How many peers have a deadline that is not after `now`.
pub open spec fn count_expired(peers: Seq<Peer>, now: u64) -> int {
    total(peers, Measure::Expired(now))
}

/// No total is negative.
pub proof fn lemma_total_nonnegative(peers: Seq<Peer>, m: Measure)
    ensures
        total(peers, m) >= 0,
    decreases peers.len(),
{
    if peers.len() > 0 {
        lemma_total_nonnegative(peers.drop_last(), m);
    }
}

/// Where no peer weighs anything the total is nothing.
pub proof fn lemma_total_zero(peers: Seq<Peer>, m: Measure)
    requires
        forall|j: int| 0 <= j < peers.len() ==> weigh(#[trigger] peers[j], m) == 0,
    ensures
        total(peers, m) == 0,
    decreases peers.len(),
{
    if peers.len() > 0 {
        lemma_total_zero(peers.drop_last(), m);
    }
}

/// Peers that weigh the same one by one weigh the same in total.
pub proof fn lemma_total_same(a: Seq<Peer>, b: Seq<Peer>, m: Measure)
    requires
        a.len() == b.len(),
        forall|j: int| 0 <= j < a.len() ==> weigh(a[j], m) == weigh(b[j], m),
    ensures
        total(a, m) == total(b, m),
    decreases a.len(),
{
    if a.len() > 0 {
        lemma_total_same(a.drop_last(), b.drop_last(), m);
    }
}

/// Where only the peer at `i` weighs differently, the total differs by that much.
pub proof fn lemma_total_one_changed(a: Seq<Peer>, b: Seq<Peer>, i: int, m: Measure)
    requires
        a.len() == b.len(),
        0 <= i < a.len(),
        forall|j: int| 0 <= j < a.len() && j != i ==> weigh(a[j], m) == weigh(b[j], m),
    ensures
        total(b, m) == total(a, m) - weigh(a[i], m) + weigh(b[i], m),
    decreases a.len(),
{
    if i == a.len() - 1 {
        lemma_total_same(a.drop_last(), b.drop_last(), m);
    } else {
        lemma_total_one_changed(a.drop_last(), b.drop_last(), i, m);
    }
}

/// Taking the peer at `i` out takes its weight out of the total.
pub proof fn lemma_total_remove(a: Seq<Peer>, i: int, m: Measure)
    requires
        0 <= i < a.len(),
    ensures
        total(a.remove(i), m) == total(a, m) - weigh(a[i], m),
    decreases a.len(),
{
    if i == a.len() - 1 {
        assert(a.remove(i) =~= a.drop_last());
    } else {
        assert(a.remove(i).drop_last() =~= a.drop_last().remove(i));
        assert(a.remove(i).last() == a.last());
        lemma_total_remove(a.drop_last(), i, m);
    }
}

/// Adding a peer at the end adds its weight to the total.
pub proof fn lemma_total_push(a: Seq<Peer>, p: Peer, m: Measure)
    ensures
        total(a.push(p), m) == total(a, m) + weigh(p, m),
{
    assert(a.push(p).drop_last() =~= a);
}

/// The registered peers, in the order in which they registered.
pub struct PeerRegistry {
    pub peers: Vec<Peer>,
    /// The identifier that the next peer gets; none given out reaches it.
    pub next_id: u64,
    /// The number of semaphores that each peer's holdings range over.
    pub width: usize,
}

impl PeerRegistry {
    /// No identifier occurs twice, none is one still to be given out, and each
    /// peer's holdings range over all semaphores.
    pub open spec fn wf(&self) -> bool {
        &&& forall|i: int|
            0 <= i < self.peers@.len() ==> (#[trigger] self.peers@[i]).id < self.next_id
                && self.peers@[i].active@.len() == self.width
        &&& forall|i: int, j: int|
            0 <= i < j < self.peers@.len() ==> (#[trigger] self.peers@[i]).id != (
            #[trigger] self.peers@[j]).id
    }

    /// Whether a peer with this identifier is registered.
    pub open spec fn has(&self, id: u64) -> bool {
        exists|i: int| 0 <= i < self.peers@.len() && (#[trigger] self.peers@[i]).id == id
    }

    /// Where the peer with this identifier stands, if it is registered.
    pub open spec fn position(&self, id: u64) -> int {
        choose|i: int| 0 <= i < self.peers@.len() && (#[trigger] self.peers@[i]).id == id
    }

    /// The peer with this identifier, if it is registered.
    pub open spec fn peer(&self, id: u64) -> Peer {
        self.peers@[self.position(id)]
    }

    /// All peers but the one at `i` are those of `other`, and so are the
    /// identifier, next identifier and width.
    pub open spec fn same_but_peer(&self, other: &PeerRegistry, i: int) -> bool {
        &&& self.peers@.len() == other.peers@.len()
        &&& self.next_id == other.next_id
        &&& self.width == other.width
        &&& forall|j: int|
            0 <= j < self.peers@.len() && j != i ==> #[trigger] self.peers@[j] == other.peers@[j]
        &&& 0 <= i < self.peers@.len() ==> self.peers@[i].id == other.peers@[i].id
    }

    /// The same identifiers are registered as in `other`, each at the same place.
    pub open spec fn same_ids(&self, other: &PeerRegistry) -> bool {
        forall|id: u64|
            (#[trigger] self.has(id)) == other.has(id) && (self.has(id) ==> self.position(id)
                == other.position(id))
    }

    /// Registries whose peers have the same identifiers place by place
    /// register the same identifiers.
    pub proof fn lemma_same_ids(&self, other: &PeerRegistry)
        requires
            self.wf(),
            other.wf(),
            self.peers@.len() == other.peers@.len(),
            forall|j: int| 0 <= j < self.peers@.len() ==> self.peers@[j].id == other.peers@[j].id,
        ensures
            self.same_ids(other),
    {
        assert forall|id: u64|
            (#[trigger] self.has(id)) == other.has(id) && (self.has(id) ==> self.position(id)
                == other.position(id)) by {
            if self.has(id) {
                let a = self.position(id);
                assert(self.peers@[a].id == id);
                assert(other.peers@[a].id == id);
                let b = other.position(id);
                assert(other.peers@[b].id == id);
                assert(self.peers@[b].id == id);
                assert(a == b);
            }
            if other.has(id) {
                let b = other.position(id);
                assert(other.peers@[b].id == id);
                assert(self.peers@[b].id == id);
            }
        }
    }

    /// An empty registry for `width` semaphores.
    pub fn new(width: usize) -> (registry: PeerRegistry)
        ensures
            registry.wf(),
            registry.peers@.len() == 0,
            registry.next_id == 0,
            registry.width == width,
    {
        PeerRegistry { peers: Vec::new(), next_id: 0, width }
    }

    /// Where the peer with this identifier stands, if it is registered.
    pub fn index_of(&self, id: u64) -> (found: Option<usize>)
        requires
            self.wf(),
        ensures
            found is Some == self.has(id),
            found matches Some(i) ==> i == self.position(id) && i < self.peers@.len()
                && self.peers@[i as int].id == id,
    {
        let mut i: usize = 0;
        while i < self.peers.len()
            invariant
                self.wf(),
                i <= self.peers@.len(),
                forall|j: int| 0 <= j < i ==> (#[trigger] self.peers@[j]).id != id,
            decreases self.peers@.len() - i,
        {
            if self.peers[i].id == id {
                proof {
                    assert(self.has(id));
                    let r = self.position(id);
                    assert(self.peers@[r].id == id);
                    assert(self.peers@[i as int].id == id);
                    assert(r == i);
                }
                return Some(i);
            }
            i += 1;
        }
        None
    }

    /// Whether a peer with this identifier is registered.
    pub fn contains(&self, id: u64) -> (found: bool)
        requires
            self.wf(),
        ensures
            found == self.has(id),
    {
        self.index_of(id).is_some()
    }

    /// Registers a peer under an identifier that no registered peer has. It
    /// holds nothing, waits for nothing and expires at `deadline`; identifiers
    /// given out later are greater than this one.
    pub fn register(&mut self, id: u64, deadline: u64)
        requires
            old(self).wf(),
            !old(self).has(id),
            id < u64::MAX,
        ensures
            final(self).wf(),
            final(self).has(id),
            final(self).position(id) == old(self).peers@.len(),
            final(self).next_id == (if id < old(self).next_id {
                old(self).next_id
            } else {
                (id + 1) as u64
            }),
            final(self).width == old(self).width,
            final(self).peers@.len() == old(self).peers@.len() + 1,
            final(self).peers@.drop_last() == old(self).peers@,
            final(self).peers@.last().id == id,
            final(self).peers@.last().expires_at == deadline,
            final(self).peers@.last().pending is None,
            final(self).peers@.last().active@ == Seq::new(
                old(self).width as nat,
                |s: int| None::<u32>,
            ),
            forall|other: u64| other != id ==> final(self).has(other) == old(self).has(other),
    {
        let mut active: Vec<Option<u32>> = Vec::new();
        let mut s: usize = 0;
        while s < self.width
            invariant
                s <= self.width,
                active@.len() == s,
                forall|k: int| 0 <= k < s ==> active@[k] is None,
            decreases self.width - s,
        {
            active.push(None);
            s += 1;
        }
        assert(active@ =~= Seq::new(self.width as nat, |s: int| None::<u32>));
        let ghost before = self.peers@;
        self.peers.push(Peer { id, expires_at: deadline, active, pending: None });
        if id >= self.next_id {
            self.next_id = id + 1;
        }
        proof {
            assert(self.peers@.drop_last() =~= before);
            assert forall|i: int| 0 <= i < before.len() implies before[i] == self.peers@[i] by {}
            assert forall|i: int, j: int| 0 <= i < j < self.peers@.len() implies (
            #[trigger] self.peers@[i]).id != (#[trigger] self.peers@[j]).id by {
                assert(before[i] == self.peers@[i]);
                if j < before.len() {
                    assert(before[j] == self.peers@[j]);
                }
            }
            assert(self.peers@[before.len() as int].id == id);
            assert(self.has(id));
            let r = self.position(id);
            assert(self.peers@[r].id == id);
            assert(r == before.len());
            assert forall|other: u64| other != id implies self.has(other) == old(self).has(other) by {
                if old(self).has(other) {
                    let k = old(self).position(other);
                    assert(self.peers@[k].id == other);
                }
                if self.has(other) {
                    let k = self.position(other);
                    assert(self.peers@[k].id == other);
                    assert(before[k].id == other);
                }
            }
        }
    }

    /// Registers a new peer that holds nothing, waits for nothing and expires
    /// `ttl` after `now`. Its identifier was never given out before.
    pub fn create(&mut self, ttl: u64, now: u64) -> (id: u64)
        requires
            old(self).wf(),
            old(self).next_id < u64::MAX,
            now + ttl <= u64::MAX,
        ensures
            final(self).wf(),
            id == old(self).next_id,
            !old(self).has(id),
            final(self).has(id),
            final(self).position(id) == old(self).peers@.len(),
            final(self).next_id == old(self).next_id + 1,
            final(self).width == old(self).width,
            final(self).peers@.len() == old(self).peers@.len() + 1,
            final(self).peers@.drop_last() == old(self).peers@,
            final(self).peers@.last().id == id,
            final(self).peers@.last().expires_at == now + ttl,
            final(self).peers@.last().pending is None,
            final(self).peers@.last().active@ == Seq::new(
                old(self).width as nat,
                |s: int| None::<u32>,
            ),
            forall|other: u64| other != id ==> final(self).has(other) == old(self).has(other),
    {
        let id = self.next_id;
        proof {
            if self.has(id) {
                assert(self.peers@[self.position(id)].id == id);
            }
        }
        self.register(id, now + ttl);
        id
    }

    /// Moves the deadline of the peer to `ttl` after `now`.
    pub fn touch(&mut self, id: u64, ttl: u64, now: u64) -> (r: Result<(), ThrottleError>)
        requires
            old(self).wf(),
            now + ttl <= u64::MAX,
        ensures
            final(self).wf(),
            r == (if old(self).has(id) {
                Ok::<(), ThrottleError>(())
            } else {
                Err(ThrottleError::UnknownPeer)
            }),
            r is Err ==> *final(self) == *old(self),
            final(self).same_ids(old(self)),
            r is Ok ==> final(self).same_but_peer(old(self), old(self).position(id))
                && final(self).peer(id).expires_at == now + ttl && final(self).peer(id).active
                == old(self).peer(id).active && final(self).peer(id).pending == old(self).peer(
                id,
            ).pending && final(self).position(id) == old(self).position(id),
    {
        match self.index_of(id) {
            Some(i) => {
                self.peers[i].expires_at = now + ttl;
                proof {
                    self.lemma_same_ids(old(self));
                }
                Ok(())
            },
            None => {
                proof {
                    self.lemma_same_ids(old(self));
                }
                Err(ThrottleError::UnknownPeer)
            },
        }
    }

    /// Takes the peer out if it is registered, and says whether it was.
    pub fn remove(&mut self, id: u64) -> (existed: bool)
        requires
            old(self).wf(),
        ensures
            final(self).wf(),
            existed == old(self).has(id),
            !final(self).has(id),
            !existed ==> *final(self) == *old(self),
            existed ==> final(self).peers@ == old(self).peers@.remove(old(self).position(id))
                && final(self).next_id == old(self).next_id && final(self).width == old(self).width,
    {
        match self.index_of(id) {
            Some(i) => {
                self.peers.remove(i);
                proof {
                    lemma_removed_is_gone(old(self), self, i as int);
                }
                true
            },
            None => false,
        }
    }
}

/// A registry from which the peer at `i` was taken is well formed again and no
/// longer has that peer's identifier.
pub proof fn lemma_removed_is_gone(before: &PeerRegistry, after: &PeerRegistry, i: int)
    requires
        before.wf(),
        0 <= i < before.peers@.len(),
        after.peers@ == before.peers@.remove(i),
        after.next_id == before.next_id,
        after.width == before.width,
    ensures
        after.wf(),
        !after.has(before.peers@[i].id),
        forall|id: u64| id != before.peers@[i].id ==> after.has(id) == before.has(id),
{
    assert forall|j: int| 0 <= j < after.peers@.len() implies #[trigger] after.peers@[j]
        == before.peers@[if j < i { j } else { j + 1 }] by {}
    assert forall|id: u64| id != before.peers@[i].id implies after.has(id) == before.has(id) by {
        if before.has(id) {
            let k = before.position(id);
            assert(before.peers@[k].id == id);
            let j = if k < i { k } else { k - 1 };
            assert(after.peers@[j].id == id);
        }
        if after.has(id) {
            let j = after.position(id);
            assert(after.peers@[j].id == id);
            assert(before.peers@[if j < i { j } else { j + 1 }].id == id);
        }
    }
    assert(!after.has(before.peers@[i].id)) by {
        if after.has(before.peers@[i].id) {
            let j = after.position(before.peers@[i].id);
            assert(after.peers@[j].id == before.peers@[i].id);
            assert(before.peers@[if j < i { j } else { j + 1 }].id == before.peers@[i].id);
        }
    }
}

} // verus!
