//! The admission engine: it decides for each request whether it is granted,
//! queued or refused, and promotes queued requests when capacity frees.

use vstd::prelude::*;
use crate::error::ThrottleError;
use crate::ledger::SemaphoreLedger;
use crate::registry::{
    count_expired, lemma_removed_is_gone, lemma_total_nonnegative, lemma_total_one_changed,
    lemma_total_push, lemma_total_remove, lemma_total_same, lemma_total_zero, total, total_held,
    Measure, Peer, PeerRegistry, Ticket,
};

verus! {

/// The whole state of the broker. Every operation on it is one indivisible step.
pub struct State {
    pub ledger: SemaphoreLedger,
    pub registry: PeerRegistry,
    /// The arrival number that the next ticket gets.
    pub next_arrival: u64,
}

/// A peer's ticket is for a configured semaphore of which the peer holds
/// nothing, and arrived before `next_arrival`.
pub open spec fn ticket_ok(p: Peer, next_arrival: u64) -> bool {
    p.pending matches Some(t) ==> t.semaphore < p.active@.len() && t.arrival < next_arrival
        && p.active@[t.semaphore as int] is None
}

/// What one peer looks like after a request of `amount` from the semaphore at
/// rank `s` was admitted: granted at once, or queued with the arrival number
/// `arrival`. Its deadline is `deadline` either way.
pub open spec fn admitted(
    pre: Peer,
    post: Peer,
    s: int,
    amount: u32,
    deadline: int,
    granted: bool,
    arrival: u64,
) -> bool {
    &&& post.id == pre.id
    &&& post.expires_at == deadline
    &&& granted ==> post.active@ == pre.active@.update(s, Some(amount)) && post.pending
        == pre.pending
    &&& !granted ==> post.active@ == pre.active@ && post.pending == Some(
        Ticket { semaphore: s as usize, amount, arrival },
    )
}

/// `post` is `pre` after the ticket of `pre` was promoted to a lease, for a
/// semaphore whose rank is in `on`.
pub open spec fn promotion_of(pre: Peer, post: Peer, on: Set<int>) -> bool {
    &&& pre.pending matches Some(t) && on.contains(t.semaphore as int) && post.active@
        == pre.active@.update(t.semaphore as int, Some(t.amount))
    &&& post.id == pre.id
    &&& post.expires_at == pre.expires_at
    &&& post.pending is None
}

/// `post` comes from `pre` by promoting tickets for semaphores in `on`, and
/// never a ticket while one that arrived earlier for the same semaphore stays
/// queued.
pub open spec fn promoted(pre: Seq<Peer>, post: Seq<Peer>, on: Set<int>) -> bool {
    &&& pre.len() == post.len()
    &&& forall|i: int|
        0 <= i < pre.len() ==> (#[trigger] post[i]) == pre[i] || promotion_of(pre[i], post[i], on)
    &&& forall|i: int, j: int|
        0 <= i < pre.len() && 0 <= j < pre.len() && pre[i].pending is Some && pre[j].pending is Some
            && pre[i].pending.unwrap().semaphore == pre[j].pending.unwrap().semaphore && (
        #[trigger] post[i]).pending is None && (#[trigger] post[j]).pending is Some
            ==> pre[i].pending.unwrap().arrival < pre[j].pending.unwrap().arrival
}

/// The ranks below `bound` of the semaphores that `p` holds or waits for.
pub open spec fn touched_below(p: Peer, bound: int) -> Set<int> {
    Set::new(|k: int| 0 <= k < bound && p.touches(k))
}


/// Promotions one after the other are a promotion: the order of arrival is
/// kept across both.
pub proof fn lemma_promoted_chain(a: Seq<Peer>, b: Seq<Peer>, c: Seq<Peer>, on: Set<int>, then_on: Set<int>)
    requires
        promoted(a, b, on),
        promoted(b, c, then_on),
    ensures
        promoted(a, c, on.union(then_on)),
{
    let both = on.union(then_on);
    assert forall|i: int| 0 <= i < a.len() implies (#[trigger] c[i]) == a[i] || promotion_of(
        a[i],
        c[i],
        both,
    ) by {
        assert(b[i] == a[i] || promotion_of(a[i], b[i], on));
        assert(c[i] == b[i] || promotion_of(b[i], c[i], then_on));
    }
    assert forall|i: int, j: int|
        0 <= i < a.len() && 0 <= j < a.len() && a[i].pending is Some && a[j].pending is Some
            && a[i].pending.unwrap().semaphore == a[j].pending.unwrap().semaphore && (
        #[trigger] c[i]).pending is None && (#[trigger] c[j]).pending is Some
            implies a[i].pending.unwrap().arrival < a[j].pending.unwrap().arrival by {
        assert(b[i] == a[i] || promotion_of(a[i], b[i], on));
        assert(c[i] == b[i] || promotion_of(b[i], c[i], then_on));
        assert(b[j] == a[j] || promotion_of(a[j], b[j], on));
        assert(c[j] == b[j] || promotion_of(b[j], c[j], then_on));
    }
}

/// A ticket that arrived before another for the same semaphore is never left
/// queued while the other is promoted.
pub proof fn lemma_promotion_keeps_arrival_order(
    pre: Seq<Peer>,
    post: Seq<Peer>,
    on: Set<int>,
    a: int,
    b: int,
)
    requires
        promoted(pre, post, on),
        0 <= a < pre.len(),
        0 <= b < pre.len(),
        pre[a].pending is Some,
        pre[b].pending is Some,
        pre[a].pending.unwrap().semaphore == pre[b].pending.unwrap().semaphore,
        pre[a].pending.unwrap().arrival < pre[b].pending.unwrap().arrival,
        post[a].pending is Some,
    ensures
        post[b] == pre[b],
        post[b].pending is Some,
{
    assert(post[b] == pre[b] || promotion_of(pre[b], post[b], on));
    if post[b].pending is None {
        assert(post[a].pending is Some);
    }
}

/// After a sweep, when every deadline is after `now`, a second sweep at the
/// same instant finds no peer to remove.
pub proof fn lemma_swept_stays_swept(peers: Seq<Peer>, now: u64)
    requires
        forall|i: int| 0 <= i < peers.len() ==> (#[trigger] peers[i]).expires_at > now,
    ensures
        count_expired(peers, now) == 0,
{
    lemma_total_zero(peers, Measure::Expired(now));
}

/// A promotion changes no peer's identifier or deadline.
pub proof fn lemma_promoted_keeps_peers(pre: Seq<Peer>, post: Seq<Peer>, on: Set<int>)
    requires
        promoted(pre, post, on),
    ensures
        forall|i: int|
            0 <= i < pre.len() ==> (#[trigger] post[i]).id == pre[i].id && post[i].expires_at
                == pre[i].expires_at,
{
    assert forall|i: int| 0 <= i < pre.len() implies (#[trigger] post[i]).id == pre[i].id
        && post[i].expires_at == pre[i].expires_at by {
        assert(post[i] == pre[i] || promotion_of(pre[i], post[i], on));
    }
}

impl State {
    /// The registered peers, in the order in which they registered.
    pub open spec fn peers(&self) -> Seq<Peer> {
        self.registry.peers@
    }

    /// The ledger and the registry are well formed and agree: what is granted
    /// of each semaphore is the sum of what the peers hold of it, every ticket
    /// is in order, and no two tickets have one arrival number.
    pub open spec fn wf(&self) -> bool {
        &&& self.ledger.wf()
        &&& self.registry.wf()
        &&& self.registry.width == self.ledger.len()
        &&& forall|s: int|
            0 <= s < self.ledger.len() ==> total_held(self.peers(), s)
                == #[trigger] self.ledger.granted_at(s)
        &&& forall|i: int|
            0 <= i < self.peers().len() ==> ticket_ok(#[trigger] self.peers()[i], self.next_arrival)
        &&& forall|i: int, j: int|
            0 <= i < j < self.peers().len() && (#[trigger] self.peers()[i]).pending is Some && (
            #[trigger] self.peers()[j]).pending is Some ==> self.peers()[i].pending.unwrap().arrival
                != self.peers()[j].pending.unwrap().arrival
    }

    /// No ticket is queued for the semaphore at rank `s`.
    pub open spec fn queue_empty(&self, s: int) -> bool {
        forall|i: int| 0 <= i < self.peers().len() ==> !(#[trigger] self.peers()[i]).waits_on(s)
    }

    /// The peer at `h` has the ticket that arrived first of those queued for
    /// the semaphore at rank `s`.
    pub open spec fn is_head(&self, h: int, s: int) -> bool {
        &&& 0 <= h < self.peers().len()
        &&& self.peers()[h].waits_on(s)
        &&& forall|q: int|
            0 <= q < self.peers().len() && (#[trigger] self.peers()[q]).waits_on(s)
                ==> self.peers()[h].pending.unwrap().arrival
                <= self.peers()[q].pending.unwrap().arrival
    }

    /// The ticket at the head of the queue for the semaphore at rank `s`, if
    /// there is one, does not fit.
    pub open spec fn head_blocked(&self, s: int) -> bool {
        forall|h: int| #[trigger]
            self.is_head(h, s) ==> !self.ledger.fits(s, self.peers()[h].pending.unwrap().amount)
    }

    /// A broker over the configured semaphores, of which nothing is granted
    /// yet, with no peer.
    pub fn new(ledger: SemaphoreLedger) -> (state: State)
        requires
            ledger.wf(),
            forall|s: int| 0 <= s < ledger.len() ==> ledger.granted_at(s) == 0,
        ensures
            state.wf(),
            state.ledger == ledger,
            state.peers().len() == 0,
            state.next_arrival == 0,
            state.registry.next_id == 0,
    {
        let width = ledger.semaphores.len();
        let state = State { ledger, registry: PeerRegistry::new(width), next_arrival: 0 };
        assert(state.wf());
        state
    }

    /// Registers a peer under an identifier that no registered peer has.
    fn enroll(&mut self, id: u64, deadline: u64)
        requires
            old(self).wf(),
            !old(self).registry.has(id),
            id < u64::MAX,
        ensures
            final(self).wf(),
            final(self).enrolled(old(self), id, deadline as int),
    {
        self.registry.register(id, deadline);
        proof {
            let before = old(self).peers();
            let after = self.peers();
            assert(after =~= before.push(after.last()));
            assert forall|s: int| 0 <= s < self.ledger.len() implies total_held(after, s)
                == #[trigger] self.ledger.granted_at(s) by {
                lemma_total_push(before, after.last(), Measure::Held(s));
                assert(old(self).ledger.granted_at(s) == total_held(before, s));
            }
            assert forall|i: int| 0 <= i < after.len() implies ticket_ok(
                #[trigger] after[i],
                self.next_arrival,
            ) by {
                if i < before.len() {
                    assert(after[i] == before[i]);
                }
            }
            assert forall|i: int, j: int|
                0 <= i < j < after.len() && (#[trigger] after[i]).pending is Some && (
                #[trigger] after[j]).pending is Some implies after[i].pending.unwrap().arrival
                != after[j].pending.unwrap().arrival by {
                assert(after[i] == before[i]);
                assert(after[j] == before[j]);
            }
        }
    }

    /// What registering a peer changes: the peer stands last, holds nothing,
    /// waits for nothing and expires at `deadline`; all else is as it was.
    pub open spec fn enrolled(&self, pre: &State, id: u64, deadline: int) -> bool {
        &&& self.registry.has(id)
        &&& self.registry.position(id) == pre.peers().len()
        &&& forall|other: u64| other != id ==> self.registry.has(other) == pre.registry.has(other)
        &&& self.ledger == pre.ledger
        &&& self.next_arrival == pre.next_arrival
        &&& self.registry.next_id == (if id < pre.registry.next_id {
            pre.registry.next_id
        } else {
            (id + 1) as u64
        })
        &&& self.peers().len() == pre.peers().len() + 1
        &&& self.peers().drop_last() == pre.peers()
        &&& self.peers().last().id == id
        &&& self.peers().last().expires_at == deadline
        &&& self.peers().last().pending is None
        &&& self.peers().last().active@ == Seq::new(pre.ledger.len() as nat, |s: int| None::<u32>)
    }

    /// Registers a new peer that holds nothing and expires `ttl` after `now`.
    /// Its identifier was never given out before.
    pub fn create(&mut self, ttl: u64, now: u64) -> (id: u64)
        requires
            old(self).wf(),
            old(self).registry.next_id < u64::MAX,
            now + ttl <= u64::MAX,
        ensures
            final(self).wf(),
            id == old(self).registry.next_id,
            !old(self).registry.has(id),
            final(self).enrolled(old(self), id, now + ttl),
    {
        let id = self.registry.next_id;
        proof {
            if self.registry.has(id) {
                assert(self.peers()[self.registry.position(id)].id == id);
            }
        }
        self.enroll(id, now + ttl);
        id
    }

    /// Whether no ticket is queued for the semaphore at rank `s`.
    pub fn is_queue_empty(&self, s: usize) -> (empty: bool)
        ensures
            empty == self.queue_empty(s as int),
    {
        let mut i: usize = 0;
        while i < self.registry.peers.len()
            invariant
                i <= self.peers().len(),
                forall|j: int| 0 <= j < i ==> !(#[trigger] self.peers()[j]).waits_on(s as int),
            decreases self.peers().len() - i,
        {
            if let Some(t) = self.registry.peers[i].pending {
                if t.semaphore == s {
                    assert(self.peers()[i as int].waits_on(s as int));
                    return false;
                }
            }
            i += 1;
        }
        true
    }

    /// What `acquire` answers to a request, before it changes anything.
    pub open spec fn acquire_outcome(&self, peer_id: u64, name: Seq<char>, amount: u32) -> Result<
        bool,
        ThrottleError,
    > {
        if !self.registry.has(peer_id) {
            Err(ThrottleError::UnknownPeer)
        } else if !self.ledger.known(name) {
            Err(ThrottleError::UnknownSemaphore)
        } else {
            self.admission(self.registry.peer(peer_id), self.ledger.rank(name), amount)
        }
    }

    /// What a request of `amount` from the semaphore at rank `s` gets when
    /// peer `p` makes it: refused where it can never fit or breaks the
    /// acquisition order, else granted exactly if nobody is queued for the
    /// semaphore and the amount fits.
    pub open spec fn admission(&self, p: Peer, s: int, amount: u32) -> Result<bool, ThrottleError> {
        if amount > self.ledger.max_at(s) {
            Err(ThrottleError::ForeverPending { asked: amount as i64, max: self.ledger.semaphores@[s].max })
        } else if !p.may_request(s) {
            Err(ThrottleError::Deadlock)
        } else {
            Ok(self.queue_empty(s) && self.ledger.fits(s, amount))
        }
    }

    /// What an admitted request changes: the peer at `i` as `admitted` says,
    /// the grant of the semaphore at rank `s` if it was granted, the next
    /// arrival number if it was queued, and nothing else.
    pub open spec fn admitted_at(
        &self,
        pre: &State,
        i: int,
        s: int,
        amount: u32,
        deadline: int,
        granted: bool,
    ) -> bool {
        &&& self.registry.same_but_peer(&pre.registry, i)
        &&& admitted(pre.peers()[i], self.peers()[i], s, amount, deadline, granted, pre.next_arrival)
        &&& self.ledger.same_but_granted(&pre.ledger, s)
        &&& self.ledger.granted_at(s) == pre.ledger.granted_at(s) + (if granted {
            amount as int
        } else {
            0
        })
        &&& self.next_arrival == pre.next_arrival + (if granted {
            0int
        } else {
            1int
        })
    }

    /// Admits the request of the peer at `i` for `amount` from the semaphore at
    /// rank `s`, which is neither too large nor out of order.
    fn enter(&mut self, i: usize, s: usize, amount: u32, deadline: u64) -> (granted: bool)
        requires
            old(self).wf(),
            i < old(self).peers().len(),
            s < old(self).ledger.len(),
            old(self).next_arrival < u64::MAX,
            old(self).peers()[i as int].may_request(s as int),
        ensures
            final(self).wf(),
            granted == (old(self).queue_empty(s as int) && old(self).ledger.fits(s as int, amount)),
            final(self).admitted_at(old(self), i as int, s as int, amount, deadline as int, granted),
            final(self).registry.same_ids(&old(self).registry),
    {
        let ghost pre = *self;
        let ghost before = self.peers();
        assert(!before[i as int].touches(s as int));
        assert(before[i as int].held(s as int) == 0);
        assert(before[i as int].active@.len() == self.registry.width);
        self.registry.peers[i].expires_at = deadline;
        let empty = self.is_queue_empty(s);
        assert(empty == pre.queue_empty(s as int)) by {
            assert forall|j: int| 0 <= j < before.len() implies before[j].waits_on(s as int)
                == self.peers()[j].waits_on(s as int) by {}
        }
        let granted = empty && self.ledger.try_reserve_at(s, amount);
        if granted {
            self.registry.peers[i].active[s] = Some(amount);
        } else {
            let arrival = self.next_arrival;
            self.registry.peers[i].pending = Some(Ticket { semaphore: s, amount, arrival });
            self.next_arrival = arrival + 1;
        }
        proof {
            let after = self.peers();
            assert forall|k: int| 0 <= k < self.ledger.len() implies total_held(after, k)
                == #[trigger] self.ledger.granted_at(k) by {
                assert(pre.ledger.granted_at(k) == total_held(before, k));
                lemma_total_one_changed(before, after, i as int, Measure::Held(k));
            }
            assert forall|j: int| 0 <= j < after.len() implies ticket_ok(
                #[trigger] after[j],
                self.next_arrival,
            ) by {
                assert(ticket_ok(before[j], pre.next_arrival));
                if j == i && granted && before[j].pending is Some {
                    assert(before[j].touches(before[j].pending.unwrap().semaphore as int));
                }
            }
            assert forall|j: int, k: int|
                0 <= j < k < after.len() && (#[trigger] after[j]).pending is Some && (
                #[trigger] after[k]).pending is Some implies after[j].pending.unwrap().arrival
                != after[k].pending.unwrap().arrival by {
                assert(ticket_ok(before[j], pre.next_arrival));
                assert(ticket_ok(before[k], pre.next_arrival));
            }
            self.registry.lemma_same_ids(&old(self).registry);
        }
        granted
    }

    /// Asks for `amount` of the named semaphore on behalf of a peer, and moves
    /// the peer's deadline to `ttl` after `now`. Answers `true` where the lease
    /// is granted at once and `false` where the request is queued. A refused
    /// request changes nothing.
    ///
    /// A peer has one queued request at most: where a peer that waits for a
    /// lower semaphore is queued again, the new ticket replaces the old one.
    pub fn acquire(&mut self, peer_id: u64, semaphore: &str, amount: u32, ttl: u64, now: u64) -> (r:
        Result<bool, ThrottleError>)
        requires
            old(self).wf(),
            old(self).next_arrival < u64::MAX,
            now + ttl <= u64::MAX,
        ensures
            final(self).wf(),
            r == old(self).acquire_outcome(peer_id, semaphore@, amount),
            r is Err ==> *final(self) == *old(self),
            final(self).registry.same_ids(&old(self).registry),
            r matches Ok(granted) ==> final(self).admitted_at(
                old(self),
                old(self).registry.position(peer_id),
                old(self).ledger.rank(semaphore@),
                amount,
                now + ttl,
                granted,
            ),
    {
        let i = match self.registry.index_of(peer_id) {
            Some(i) => i,
            None => { return Err(ThrottleError::UnknownPeer); },
        };
        let s = match self.ledger.index_of(semaphore) {
            Some(s) => s,
            None => { return Err(ThrottleError::UnknownSemaphore); },
        };
        let max = self.ledger.semaphores[s].max;
        if amount as i64 > max {
            return Err(ThrottleError::ForeverPending { asked: amount as i64, max });
        }
        if !self.registry.peers[i].permits(s) {
            return Err(ThrottleError::Deadlock);
        }
        Ok(self.enter(i, s, amount, now + ttl))
    }

    /// The peer whose ticket arrived first of those queued for the semaphore at
    /// rank `s`, if any is queued.
    pub fn head_of(&self, s: usize) -> (head: Option<usize>)
        ensures
            head is None == self.queue_empty(s as int),
            head matches Some(h) ==> self.is_head(h as int, s as int),
    {
        let mut best: Option<usize> = None;
        let mut least: u64 = 0;
        let mut i: usize = 0;
        while i < self.registry.peers.len()
            invariant
                i <= self.peers().len(),
                best is None ==> forall|j: int|
                    0 <= j < i ==> !(#[trigger] self.peers()[j]).waits_on(s as int),
                best matches Some(h) ==> h < i && self.peers()[h as int].waits_on(s as int)
                    && self.peers()[h as int].pending.unwrap().arrival == least && forall|q: int|
                    0 <= q < i && (#[trigger] self.peers()[q]).waits_on(s as int) ==> least
                        <= self.peers()[q].pending.unwrap().arrival,
            decreases self.peers().len() - i,
        {
            if let Some(t) = self.registry.peers[i].pending {
                if t.semaphore == s && (best.is_none() || t.arrival < least) {
                    best = Some(i);
                    least = t.arrival;
                }
            }
            i += 1;
        }
        proof {
            if let Some(h) = best {
                assert(self.peers()[h as int].waits_on(s as int));
            }
        }
        best
    }

    /// Grants the tickets queued for the semaphore at rank `s` in the order of
    /// their arrival for as long as the one at the head fits, and stops at the
    /// first that does not: a later, smaller request never overtakes it.
    pub fn promote(&mut self, s: usize)
        requires
            old(self).wf(),
            s < old(self).ledger.len(),
        ensures
            final(self).wf(),
            final(self).next_arrival == old(self).next_arrival,
            final(self).registry.next_id == old(self).registry.next_id,
            final(self).ledger.same_but_granted(&old(self).ledger, s as int),
            promoted(old(self).peers(), final(self).peers(), set![s as int]),
            final(self).head_blocked(s as int),
            final(self).registry.same_ids(&old(self).registry),
    {
        let mut done = false;
        while !done
            invariant
                self.wf(),
                old(self).wf(),
                s < self.ledger.len(),
                self.next_arrival == old(self).next_arrival,
                self.registry.next_id == old(self).registry.next_id,
                self.ledger.same_but_granted(&old(self).ledger, s as int),
                promoted(old(self).peers(), self.peers(), set![s as int]),
                done ==> self.head_blocked(s as int),
            decreases total(self.peers(), Measure::Waiting(s as int)) + (if done { 0int } else { 1int }),
        {
            let ghost pre = *self;
            let ghost before = self.peers();
            proof {
                lemma_total_nonnegative(before, Measure::Waiting(s as int));
            }
            match self.head_of(s) {
                None => {
                    done = true;
                },
                Some(h) => {
                    let t = self.registry.peers[h].pending.unwrap();
                    assert(ticket_ok(before[h as int], self.next_arrival));
                    if self.ledger.try_reserve_at(s, t.amount) {
                        self.registry.peers[h].active[s] = Some(t.amount);
                        self.registry.peers[h].pending = None;
                        proof {
                            let after = self.peers();
                            let first = old(self).peers();
                            assert(before[h as int].held(s as int) == 0);
                            assert(after[h as int].held(s as int) == t.amount);
                            assert forall|k: int| 0 <= k < self.ledger.len() implies total_held(
                                after,
                                k,
                            ) == #[trigger] self.ledger.granted_at(k) by {
                                assert(pre.ledger.granted_at(k) == total_held(before, k));
                                lemma_total_one_changed(before, after, h as int, Measure::Held(k));
                            }
                            assert forall|j: int| 0 <= j < after.len() implies ticket_ok(
                                #[trigger] after[j],
                                self.next_arrival,
                            ) by {
                                assert(ticket_ok(before[j], pre.next_arrival));
                            }
                            assert forall|j: int, k: int|
                                0 <= j < k < after.len() && (#[trigger] after[j]).pending is Some && (
                                #[trigger] after[k]).pending is Some implies after[j].pending.unwrap().arrival
                                != after[k].pending.unwrap().arrival by {
                                assert(before[j] == after[j]);
                                assert(before[k] == after[k]);
                            }
                            lemma_total_one_changed(before, after, h as int, Measure::Waiting(s as int));
                            assert(before[h as int] == first[h as int]);
                            assert(promotion_of(first[h as int], after[h as int], set![s as int]));
                            assert forall|j: int| 0 <= j < first.len() implies (#[trigger] after[j])
                                == first[j] || promotion_of(first[j], after[j], set![s as int]) by {
                                if j != h {
                                    assert(after[j] == before[j]);
                                }
                            }
                            assert forall|j: int, k: int|
                                0 <= j < first.len() && 0 <= k < first.len() && first[j].pending is Some
                                    && first[k].pending is Some && first[j].pending.unwrap().semaphore
                                    == first[k].pending.unwrap().semaphore && (
                                #[trigger] after[j]).pending is None && (
                                #[trigger] after[k]).pending is Some implies first[j].pending.unwrap().arrival
                                < first[k].pending.unwrap().arrival by {
                                assert(after[k] == before[k]);
                                assert(before[k] == first[k]);
                                if j == h {
                                    assert(before[k].waits_on(s as int));
                                    if h < k {
                                        assert(before[h as int].pending.unwrap().arrival
                                            != before[k].pending.unwrap().arrival);
                                    } else {
                                        assert(before[k].pending.unwrap().arrival
                                            != before[h as int].pending.unwrap().arrival);
                                    }
                                } else {
                                    assert(after[j] == before[j]);
                                }
                            }
                        }
                    } else {
                        done = true;
                        proof {
                            assert forall|g: int| #[trigger] self.is_head(g, s as int) implies !self.ledger.fits(
                                s as int,
                                self.peers()[g].pending.unwrap().amount,
                            ) by {
                                assert(self.peers()[g].waits_on(s as int));
                                assert(self.peers()[h as int].waits_on(s as int));
                                if g < h {
                                    assert(self.peers()[g].pending.unwrap().arrival
                                        != self.peers()[h as int].pending.unwrap().arrival);
                                } else if h < g {
                                    assert(self.peers()[h as int].pending.unwrap().arrival
                                        != self.peers()[g].pending.unwrap().arrival);
                                }
                            }
                        }
                    }
                },
            }
        }
        proof {
            lemma_promoted_keeps_peers(old(self).peers(), self.peers(), set![s as int]);
            self.registry.lemma_same_ids(&old(self).registry);
        }
    }

    /// A promotion for the semaphore at rank `s` leaves the head of every
    /// other queue blocked where it was.
    proof fn lemma_blocked_elsewhere(&self, pre: &State, s: int, k: int)
        requires
            promoted(pre.peers(), self.peers(), set![s]),
            self.ledger.same_but_granted(&pre.ledger, s),
            k != s,
            0 <= k < pre.ledger.len(),
            pre.head_blocked(k),
        ensures
            self.head_blocked(k),
    {
        let a = pre.peers();
        let b = self.peers();
        assert forall|h: int| #[trigger] self.is_head(h, k) implies !self.ledger.fits(
            k,
            b[h].pending.unwrap().amount,
        ) by {
            assert(b[h] == a[h] || promotion_of(a[h], b[h], set![s]));
            assert forall|q: int| 0 <= q < a.len() && (#[trigger] a[q]).waits_on(k)
                implies a[h].pending.unwrap().arrival <= a[q].pending.unwrap().arrival by {
                assert(b[q] == a[q] || promotion_of(a[q], b[q], set![s]));
                assert(b[q].waits_on(k));
            }
            assert(pre.is_head(h, k));
            assert(self.ledger.semaphores@[k].granted == pre.ledger.semaphores@[k].granted);
            assert(self.ledger.semaphores@[k].max == pre.ledger.semaphores@[k].max);
        }
    }

    /// What taking out the peer at `i` changes: its holdings go back to their
    /// semaphores, its ticket leaves its queue, and the tickets queued for the
    /// semaphores it held or waited for are promoted as far as they fit.
    pub open spec fn released_at(&self, pre: &State, i: int) -> bool {
        let gone = pre.peers()[i];
        let width = pre.ledger.len();
        &&& self.next_arrival == pre.next_arrival
        &&& self.registry.next_id == pre.registry.next_id
        &&& self.ledger.same_config(&pre.ledger)
        &&& promoted(pre.peers().remove(i), self.peers(), touched_below(gone, width))
        &&& forall|s: int| 0 <= s < width && gone.touches(s) ==> #[trigger] self.head_blocked(s)
        &&& forall|s: int|
            0 <= s < width && !gone.touches(s) ==> #[trigger] self.ledger.granted_at(s)
                == pre.ledger.granted_at(s)
    }

    /// Takes out the peer at `i`.
    fn release_at(&mut self, i: usize)
        requires
            old(self).wf(),
            i < old(self).peers().len(),
        ensures
            final(self).wf(),
            final(self).released_at(old(self), i as int),
            !final(self).registry.has(old(self).peers()[i as int].id),
            forall|id: u64|
                id != old(self).peers()[i as int].id ==> final(self).registry.has(id) == old(
                    self,
                ).registry.has(id),
    {
        let ghost first = old(self).peers();
        let ghost rest = first.remove(i as int);
        let gone = self.registry.peers.remove(i);
        proof {
            lemma_removed_is_gone(&old(self).registry, &self.registry, i as int);
        }
        let width = self.ledger.semaphores.len();
        assert(gone.active@.len() == width);
        let mut s: usize = 0;
        while s < width
            invariant
                s <= width,
                width == self.ledger.len(),
                gone == first[i as int],
                gone.active@.len() == width,
                old(self).wf(),
                first == old(self).peers(),
                0 <= i < first.len(),
                rest == first.remove(i as int),
                self.registry.peers@ == rest,
                self.registry.next_id == old(self).registry.next_id,
                self.registry.width == old(self).registry.width,
                self.next_arrival == old(self).next_arrival,
                self.ledger.wf(),
                self.ledger.same_config(&old(self).ledger),
                forall|k: int|
                    0 <= k < s ==> #[trigger] self.ledger.granted_at(k) == old(self).ledger.granted_at(k)
                        - gone.held(k),
                forall|k: int|
                    s <= k < width ==> #[trigger] self.ledger.granted_at(k) == old(
                        self,
                    ).ledger.granted_at(k),
            decreases width - s,
        {
            if let Some(amount) = gone.active[s] {
                proof {
                    lemma_total_remove(first, i as int, Measure::Held(s as int));
                    lemma_total_nonnegative(rest, Measure::Held(s as int));
                    assert(old(self).ledger.granted_at(s as int) == total_held(first, s as int));
                    assert(self.ledger.granted_at(s as int) == old(self).ledger.granted_at(s as int));
                }
                let ghost ledger_before = self.ledger;
                self.ledger.release_at(s, amount);
                proof {
                    assert forall|k: int| 0 <= k < s implies #[trigger] self.ledger.granted_at(k) == old(
                        self,
                    ).ledger.granted_at(k) - gone.held(k) by {
                        assert(self.ledger.semaphores@[k].granted == ledger_before.semaphores@[k].granted);
                        assert(ledger_before.granted_at(k) == old(self).ledger.granted_at(k) - gone.held(k));
                    }
                    assert forall|k: int| s < k < width implies #[trigger] self.ledger.granted_at(k) == old(
                        self,
                    ).ledger.granted_at(k) by {
                        assert(self.ledger.semaphores@[k].granted == ledger_before.semaphores@[k].granted);
                        assert(ledger_before.granted_at(k) == old(self).ledger.granted_at(k));
                    }
                    assert forall|k: int| 0 <= k < width implies (#[trigger] self.ledger.semaphores@[k]).name@
                        == old(self).ledger.semaphores@[k].name@ && self.ledger.semaphores@[k].max == old(
                        self,
                    ).ledger.semaphores@[k].max by {
                        assert(self.ledger.semaphores@[k].name@ == ledger_before.semaphores@[k].name@);
                        assert(ledger_before.semaphores@[k].name@ == old(self).ledger.semaphores@[k].name@);
                    }
                }
            }
            s += 1;
        }
        proof {
            assert forall|k: int| 0 <= k < self.ledger.len() implies total_held(rest, k)
                == #[trigger] self.ledger.granted_at(k) by {
                lemma_total_remove(first, i as int, Measure::Held(k));
                assert(old(self).ledger.granted_at(k) == total_held(first, k));
            }
            assert forall|j: int| 0 <= j < rest.len() implies #[trigger] rest[j] == first[if j < i {
                j
            } else {
                j + 1
            }] by {}
            assert forall|j: int| 0 <= j < rest.len() implies ticket_ok(
                #[trigger] rest[j],
                self.next_arrival,
            ) by {
                assert(ticket_ok(first[if j < i { j } else { j + 1 }], self.next_arrival));
            }
            assert forall|j: int, k: int|
                0 <= j < k < rest.len() && (#[trigger] rest[j]).pending is Some && (
                #[trigger] rest[k]).pending is Some implies rest[j].pending.unwrap().arrival
                != rest[k].pending.unwrap().arrival by {
                let fj = if j < i { j } else { j + 1 };
                let fk = if k < i { k } else { k + 1 };
                assert(first[fj].pending is Some && first[fk].pending is Some);
            }
            assert(self.wf());
            assert(touched_below(gone, 0) =~= Set::<int>::empty());
            assert(promoted(rest, self.peers(), touched_below(gone, 0)));
        }
        let ghost mid = *self;
        let mut s: usize = 0;
        while s < width
            invariant
                s <= width,
                width == self.ledger.len(),
                gone.active@.len() == width,
                gone == first[i as int],
                old(self).wf(),
                first == old(self).peers(),
                0 <= i < first.len(),
                rest == first.remove(i as int),
                mid.registry.peers@ == rest,
                mid.registry.next_id == old(self).registry.next_id,
                mid.registry.width == old(self).registry.width,
                forall|k: int|
                    0 <= k < width ==> #[trigger] mid.ledger.granted_at(k) == old(self).ledger.granted_at(k)
                        - gone.held(k),
                mid.ledger.same_config(&old(self).ledger),
                self.wf(),
                self.registry.next_id == mid.registry.next_id,
                self.next_arrival == mid.next_arrival,
                self.ledger.same_config(&mid.ledger),
                promoted(rest, self.peers(), touched_below(gone, s as int)),
                forall|k: int| 0 <= k < s && gone.touches(k) ==> #[trigger] self.head_blocked(k),
                forall|k: int|
                    0 <= k < width && !(k < s && gone.touches(k)) ==> #[trigger] self.ledger.granted_at(
                        k,
                    ) == mid.ledger.granted_at(k),
            decreases width - s,
        {
            let waited = match gone.pending {
                Some(t) => t.semaphore == s,
                None => false,
            };
            let touched = gone.active[s].is_some() || waited;
            assert(touched == gone.touches(s as int));
            let ghost before = *self;
            if touched {
                self.promote(s);
                proof {
                    lemma_promoted_chain(
                        rest,
                        before.peers(),
                        self.peers(),
                        touched_below(gone, s as int),
                        set![s as int],
                    );
                    assert(touched_below(gone, s as int).union(set![s as int]) =~= touched_below(
                        gone,
                        s as int + 1,
                    ));
                    assert forall|k: int| 0 <= k < s && gone.touches(k) implies #[trigger] self.head_blocked(
                        k,
                    ) by {
                        assert(before.head_blocked(k));
                        self.lemma_blocked_elsewhere(&before, s as int, k);
                    }
                    assert forall|k: int|
                        0 <= k < width && !(k < s + 1 && gone.touches(k)) implies #[trigger] self.ledger.granted_at(
                        k,
                    ) == mid.ledger.granted_at(k) by {
                        assert(self.ledger.semaphores@[k].granted == before.ledger.semaphores@[k].granted);
                        assert(before.ledger.granted_at(k) == mid.ledger.granted_at(k));
                    }
                    assert forall|k: int| 0 <= k < width implies (#[trigger] self.ledger.semaphores@[k]).name@
                        == mid.ledger.semaphores@[k].name@ && self.ledger.semaphores@[k].max
                        == mid.ledger.semaphores@[k].max by {
                        assert(self.ledger.semaphores@[k].name@ == before.ledger.semaphores@[k].name@);
                        assert(before.ledger.semaphores@[k].name@ == mid.ledger.semaphores@[k].name@);
                    }
                }
            } else {
                proof {
                    assert(touched_below(gone, s as int) =~= touched_below(gone, s as int + 1));
                }
            }
            s += 1;
        }
        proof {
            lemma_promoted_keeps_peers(rest, self.peers(), touched_below(gone, width as int));
            lemma_removed_is_gone(&old(self).registry, &mid.registry, i as int);
            assert forall|id: u64| mid.registry.has(id) == self.registry.has(id) by {
                if mid.registry.has(id) {
                    let j = mid.registry.position(id);
                    assert(self.peers()[j].id == id);
                }
                if self.registry.has(id) {
                    let j = self.registry.position(id);
                    assert(self.peers()[j].id == id);
                    assert(rest[j].id == id);
                }
            }
            assert forall|k: int| 0 <= k < width && !gone.touches(k) implies #[trigger] self.ledger.granted_at(
                k,
            ) == old(self).ledger.granted_at(k) by {
                assert(mid.ledger.granted_at(k) == old(self).ledger.granted_at(k) - gone.held(k));
            }
            assert forall|k: int| 0 <= k < width implies (#[trigger] self.ledger.semaphores@[k]).name@
                == old(self).ledger.semaphores@[k].name@ && self.ledger.semaphores@[k].max == old(
                self,
            ).ledger.semaphores@[k].max by {
                assert(self.ledger.semaphores@[k].name@ == mid.ledger.semaphores@[k].name@);
                assert(mid.ledger.semaphores@[k].name@ == old(self).ledger.semaphores@[k].name@);
            }
        }
    }

    /// Takes the peer out if it is registered, and says whether it was: its
    /// holdings go back to their semaphores, its ticket is discarded, and the
    /// queues of the semaphores it held or waited for are promoted. Releasing
    /// an unknown peer changes nothing.
    pub fn release(&mut self, peer_id: u64) -> (existed: bool)
        requires
            old(self).wf(),
        ensures
            final(self).wf(),
            existed == old(self).registry.has(peer_id),
            !final(self).registry.has(peer_id),
            !existed ==> *final(self) == *old(self),
            existed ==> final(self).released_at(old(self), old(self).registry.position(peer_id)),
            forall|id: u64|
                id != peer_id ==> final(self).registry.has(id) == old(self).registry.has(id),
    {
        match self.registry.index_of(peer_id) {
            Some(i) => {
                self.release_at(i);
                true
            },
            None => false,
        }
    }

    /// Every peer of `self` is a peer of `pre`, as it was or with its ticket
    /// promoted, and no ticket was promoted while one that arrived earlier for
    /// the same semaphore stays queued.
    pub open spec fn survivors_of(&self, pre: &State) -> bool {
        &&& forall|id: u64|
            self.registry.has(id) ==> pre.registry.has(id) && ((#[trigger] self.registry.peer(id))
                == pre.registry.peer(id) || promotion_of(
                pre.registry.peer(id),
                self.registry.peer(id),
                Set::full(),
            ))
        &&& forall|x: u64, y: u64|
            self.registry.has(x) && self.registry.has(y) && pre.registry.peer(x).pending is Some
                && pre.registry.peer(y).pending is Some && pre.registry.peer(
                x,
            ).pending.unwrap().semaphore == pre.registry.peer(y).pending.unwrap().semaphore && (
            #[trigger] self.registry.peer(x)).pending is None && (#[trigger] self.registry.peer(
                y,
            )).pending is Some ==> pre.registry.peer(x).pending.unwrap().arrival < pre.registry.peer(
                y,
            ).pending.unwrap().arrival
    }

    /// Where a peer that is left after the peer at `i` was taken out stood before.
    proof fn lemma_stood_before(&self, pre: &State, i: int, id: u64)
        requires
            pre.wf(),
            self.wf(),
            0 <= i < pre.peers().len(),
            self.released_at(pre, i),
            self.registry.has(id),
        ensures
            pre.registry.has(id),
            0 <= self.registry.position(id) < self.peers().len(),
            pre.peers().remove(i)[self.registry.position(id)] == pre.registry.peer(id),
    {
        let rest = pre.peers().remove(i);
        let on = touched_below(pre.peers()[i], pre.ledger.len());
        lemma_promoted_keeps_peers(rest, self.peers(), on);
        let j = self.registry.position(id);
        assert(self.peers()[j].id == id);
        let f = if j < i { j } else { j + 1 };
        assert(rest[j] == pre.peers()[f]);
        assert(pre.peers()[f].id == id);
        assert(pre.registry.has(id));
        let q = pre.registry.position(id);
        assert(pre.peers()[q].id == id);
        assert(q == f);
    }

    /// Some peer whose deadline is not after `now` holds or waits for the
    /// semaphore at rank `s`.
    pub open spec fn expired_touches(&self, now: u64, s: int) -> bool {
        exists|i: int|
            0 <= i < self.peers().len() && (#[trigger] self.peers()[i]).expires_at <= now
                && self.peers()[i].touches(s)
    }

    /// The head of the queue is blocked for every semaphore whose rank is in `on`.
    pub open spec fn blocked_on(&self, on: Set<int>) -> bool {
        forall|s: int| 0 <= s < self.ledger.len() && on.contains(s) ==> #[trigger] self.head_blocked(s)
    }

    /// `freed` holds the rank of every semaphore that a peer of `first` held or
    /// waited for which is no longer registered.
    pub open spec fn freed_covers(&self, first: &State, freed: Set<int>) -> bool {
        forall|k: int, s: int|
            0 <= k < first.peers().len() && 0 <= s < first.ledger.len() && !self.registry.has(
                first.peers()[k].id,
            ) && #[trigger] first.peers()[k].touches(s) ==> freed.contains(s)
    }

    /// Taking out a peer leaves the head of a queue blocked where it was, for
    /// a semaphore that the peer neither held nor waited for.
    proof fn lemma_blocked_after_release(&self, pre: &State, i: int, s: int)
        requires
            pre.wf(),
            0 <= i < pre.peers().len(),
            self.released_at(pre, i),
            0 <= s < pre.ledger.len(),
            !pre.peers()[i].touches(s),
            pre.head_blocked(s),
        ensures
            self.head_blocked(s),
    {
        let a = pre.peers();
        let rest = a.remove(i);
        let b = self.peers();
        let on = touched_below(a[i], pre.ledger.len());
        assert(!on.contains(s));
        assert forall|h: int| #[trigger] self.is_head(h, s) implies !self.ledger.fits(
            s,
            b[h].pending.unwrap().amount,
        ) by {
            assert(b[h] == rest[h] || promotion_of(rest[h], b[h], on));
            let f = if h < i { h } else { h + 1 };
            assert(rest[h] == a[f]);
            assert forall|q: int| 0 <= q < a.len() && (#[trigger] a[q]).waits_on(s)
                implies a[f].pending.unwrap().arrival <= a[q].pending.unwrap().arrival by {
                assert(a[q].touches(s));
                assert(q != i);
                let r = if q < i { q } else { q - 1 };
                assert(rest[r] == a[q]);
                assert(b[r] == rest[r] || promotion_of(rest[r], b[r], on));
                assert(b[r].waits_on(s));
            }
            assert(pre.is_head(f, s));
            assert(self.ledger.granted_at(s) == pre.ledger.granted_at(s));
            assert(self.ledger.semaphores@[s].max == pre.ledger.semaphores@[s].max);
        }
    }

    /// One step of a sweep keeps account of the semaphores that were freed.
    proof fn lemma_sweep_step(&self, first: &State, before: &State, i: int, freed: Set<int>)
        requires
            first.wf(),
            before.wf(),
            0 <= i < before.peers().len(),
            self.released_at(before, i),
            !self.registry.has(before.peers()[i].id),
            forall|id: u64|
                id != before.peers()[i].id ==> self.registry.has(id) == before.registry.has(id),
            before.survivors_of(first),
            before.ledger.len() == first.ledger.len(),
            before.blocked_on(freed),
            before.freed_covers(first, freed),
        ensures
            self.blocked_on(freed.union(touched_below(before.peers()[i], before.ledger.len()))),
            self.freed_covers(first, freed.union(touched_below(before.peers()[i], before.ledger.len()))),
    {
        let gone = before.peers()[i];
        let width = before.ledger.len();
        let more = freed.union(touched_below(gone, width));
        assert forall|s: int| 0 <= s < self.ledger.len() && more.contains(s) implies #[trigger] self.head_blocked(
            s,
        ) by {
            if !gone.touches(s) {
                assert(before.head_blocked(s));
                self.lemma_blocked_after_release(before, i, s);
            }
        }
        assert forall|k: int, s: int|
            0 <= k < first.peers().len() && 0 <= s < first.ledger.len() && !self.registry.has(
                first.peers()[k].id,
            ) && #[trigger] first.peers()[k].touches(s) implies more.contains(s) by {
            let id = first.peers()[k].id;
            if before.registry.has(id) {
                assert(id == gone.id);
                assert(first.registry.has(id));
                let q = first.registry.position(id);
                assert(first.peers()[q].id == id);
                assert(q == k);
                let j = before.registry.position(id);
                assert(before.peers()[j].id == id);
                assert(j == i);
                assert(before.registry.peer(id) == first.registry.peer(id) || promotion_of(
                    first.registry.peer(id),
                    before.registry.peer(id),
                    Set::full(),
                ));
                assert(ticket_ok(first.peers()[k], first.next_arrival));
                assert(gone.touches(s));
                assert(touched_below(gone, width).contains(s));
            } else {
                assert(freed.contains(s));
            }
        }
    }

    /// Where the first peer stands whose deadline is not after `now`.
    fn find_expired(&self, now: u64) -> (found: Option<usize>)
        ensures
            found is None ==> forall|i: int|
                0 <= i < self.peers().len() ==> (#[trigger] self.peers()[i]).expires_at > now,
            found matches Some(i) ==> i < self.peers().len() && self.peers()[i as int].expires_at
                <= now,
    {
        let mut i: usize = 0;
        while i < self.registry.peers.len()
            invariant
                i <= self.peers().len(),
                forall|j: int| 0 <= j < i ==> (#[trigger] self.peers()[j]).expires_at > now,
            decreases self.peers().len() - i,
        {
            if self.registry.peers[i].expires_at <= now {
                return Some(i);
            }
            i += 1;
        }
        None
    }

    /// Releases every peer whose deadline is not after `now` and says how many
    /// they were. A peer whose deadline is later stays registered; a second
    /// sweep at the same instant removes nothing.
    pub fn sweep(&mut self, now: u64) -> (removed: usize)
        requires
            old(self).wf(),
        ensures
            final(self).wf(),
            removed == count_expired(old(self).peers(), now),
            count_expired(final(self).peers(), now) == 0,
            forall|i: int|
                0 <= i < final(self).peers().len() ==> (#[trigger] final(self).peers()[i]).expires_at
                    > now,
            forall|id: u64|
                final(self).registry.has(id) == (old(self).registry.has(id) && old(
                    self,
                ).registry.peer(id).expires_at > now),
            final(self).survivors_of(old(self)),
            forall|s: int|
                0 <= s < old(self).ledger.len() && old(self).expired_touches(now, s)
                    ==> #[trigger] final(self).head_blocked(s),
            final(self).ledger.same_config(&old(self).ledger),
            final(self).next_arrival == old(self).next_arrival,
            final(self).registry.next_id == old(self).registry.next_id,
    {
        let mut removed: usize = 0;
        let mut done = false;
        let ghost mut freed: Set<int> = Set::empty();
        proof {
            assert forall|k: int, s: int|
                0 <= k < self.peers().len() && 0 <= s < self.ledger.len() && !self.registry.has(
                    self.peers()[k].id,
                ) && #[trigger] self.peers()[k].touches(s) implies freed.contains(s) by {
                assert(self.registry.has(self.peers()[k].id));
            }
        }
        while !done
            invariant
                self.wf(),
                old(self).wf(),
                removed + count_expired(self.peers(), now) == count_expired(old(self).peers(), now),
                removed + self.peers().len() <= old(self).peers().len(),
                done ==> forall|i: int|
                    0 <= i < self.peers().len() ==> (#[trigger] self.peers()[i]).expires_at > now,
                forall|id: u64|
                    self.registry.has(id) ==> old(self).registry.has(id) && self.registry.peer(
                        id,
                    ).expires_at == old(self).registry.peer(id).expires_at,
                forall|id: u64|
                    old(self).registry.has(id) && old(self).registry.peer(id).expires_at > now
                        ==> self.registry.has(id),
                self.survivors_of(old(self)),
                self.blocked_on(freed),
                self.freed_covers(old(self), freed),
                self.ledger.same_config(&old(self).ledger),
                self.next_arrival == old(self).next_arrival,
                self.registry.next_id == old(self).registry.next_id,
            decreases self.peers().len() + (if done { 0int } else { 1int }),
        {
            match self.find_expired(now) {
                None => {
                    done = true;
                },
                Some(i) => {
                    let ghost before = *self;
                    assert(removed < old(self).registry.peers.len());
                    self.release_at(i);
                    removed = removed + 1;
                    proof {
                        self.lemma_sweep_step(old(self), &before, i as int, freed);
                        freed = freed.union(touched_below(before.peers()[i as int], before.ledger.len()));
                        let rest = before.peers().remove(i as int);
                        let on = touched_below(before.peers()[i as int], before.ledger.len());
                        lemma_promoted_keeps_peers(rest, self.peers(), on);
                        lemma_total_remove(before.peers(), i as int, Measure::Expired(now));
                        lemma_total_same(rest, self.peers(), Measure::Expired(now));
                        assert forall|k: int| 0 <= k < self.ledger.len() implies (
                        #[trigger] self.ledger.semaphores@[k]).name@ == old(self).ledger.semaphores@[k].name@
                            && self.ledger.semaphores@[k].max == old(self).ledger.semaphores@[k].max by {
                            assert(self.ledger.semaphores@[k].name@ == before.ledger.semaphores@[k].name@);
                            assert(before.ledger.semaphores@[k].name@ == old(
                                self,
                            ).ledger.semaphores@[k].name@);
                        }
                        assert forall|id: u64| self.registry.has(id) implies old(self).registry.has(id)
                            && self.registry.peer(id).expires_at == old(self).registry.peer(
                            id,
                        ).expires_at && ((#[trigger] self.registry.peer(id)) == old(self).registry.peer(id)
                            || promotion_of(
                            old(self).registry.peer(id),
                            self.registry.peer(id),
                            Set::full(),
                        )) by {
                            self.lemma_stood_before(&before, i as int, id);
                            let j = self.registry.position(id);
                            assert(self.peers()[j] == rest[j] || promotion_of(rest[j], self.peers()[j], on));
                            assert(before.registry.peer(id) == old(self).registry.peer(id) || promotion_of(
                                old(self).registry.peer(id),
                                before.registry.peer(id),
                                Set::full(),
                            ));
                        }
                        assert forall|x: u64, y: u64|
                            self.registry.has(x) && self.registry.has(y) && old(self).registry.peer(
                                x,
                            ).pending is Some && old(self).registry.peer(y).pending is Some && old(
                                self,
                            ).registry.peer(x).pending.unwrap().semaphore == old(self).registry.peer(
                                y,
                            ).pending.unwrap().semaphore && (#[trigger] self.registry.peer(x)).pending is None
                                && (#[trigger] self.registry.peer(y)).pending is Some implies old(
                            self,
                        ).registry.peer(x).pending.unwrap().arrival < old(self).registry.peer(
                            y,
                        ).pending.unwrap().arrival by {
                            self.lemma_stood_before(&before, i as int, x);
                            self.lemma_stood_before(&before, i as int, y);
                            let jx = self.registry.position(x);
                            let jy = self.registry.position(y);
                            assert(self.peers()[jx] == rest[jx] || promotion_of(rest[jx], self.peers()[jx], on));
                            assert(self.peers()[jy] == rest[jy] || promotion_of(rest[jy], self.peers()[jy], on));
                            assert(before.registry.peer(x) == old(self).registry.peer(x) || promotion_of(
                                old(self).registry.peer(x),
                                before.registry.peer(x),
                                Set::full(),
                            ));
                            assert(before.registry.peer(y) == old(self).registry.peer(y) || promotion_of(
                                old(self).registry.peer(y),
                                before.registry.peer(y),
                                Set::full(),
                            ));
                            if before.registry.peer(x).pending is None {
                                assert(before.registry.peer(y).pending is Some);
                            }
                        }
                    }
                },
            }
        }
        proof {
            lemma_total_zero(self.peers(), Measure::Expired(now));
            assert forall|id: u64| self.registry.has(id) implies old(self).registry.peer(id).expires_at
                > now by {
                let j = self.registry.position(id);
                assert(self.peers()[j].expires_at > now);
            }
            assert forall|s: int|
                0 <= s < old(self).ledger.len() && old(self).expired_touches(now, s)
                    implies #[trigger] self.head_blocked(s) by {
                let k = choose|k: int|
                    0 <= k < old(self).peers().len() && (#[trigger] old(self).peers()[k]).expires_at <= now
                        && old(self).peers()[k].touches(s);
                let id = old(self).peers()[k].id;
                assert(old(self).registry.has(id));
                let q = old(self).registry.position(id);
                assert(old(self).peers()[q].id == id);
                assert(q == k);
                assert(!self.registry.has(id));
                assert(freed.contains(s));
            }
        }
        removed
    }

    /// Moves the deadline of the peer to `ttl` after `now`. The lease that the
    /// heartbeat names is not looked at: a heartbeat grants nothing.
    pub fn heartbeat(&mut self, peer_id: u64, semaphore: &str, amount: u32, ttl: u64, now: u64) -> (r:
        Result<(), ThrottleError>)
        requires
            old(self).wf(),
            now + ttl <= u64::MAX,
        ensures
            final(self).wf(),
            r == (if old(self).registry.has(peer_id) {
                Ok::<(), ThrottleError>(())
            } else {
                Err(ThrottleError::UnknownPeer)
            }),
            r is Err ==> *final(self) == *old(self),
            r is Ok ==> final(self).touched_at(old(self), old(self).registry.position(peer_id), now + ttl),
            final(self).registry.same_ids(&old(self).registry),
    {
        match self.registry.index_of(peer_id) {
            Some(i) => {
                self.touch_at(i, now + ttl);
                Ok(())
            },
            None => Err(ThrottleError::UnknownPeer),
        }
    }

    /// What a heartbeat changes: the deadline of the peer at `i`, nothing else.
    pub open spec fn touched_at(&self, pre: &State, i: int, deadline: int) -> bool {
        &&& self.ledger == pre.ledger
        &&& self.next_arrival == pre.next_arrival
        &&& self.registry.same_but_peer(&pre.registry, i)
        &&& self.peers()[i].expires_at == deadline
        &&& self.peers()[i].active == pre.peers()[i].active
        &&& self.peers()[i].pending == pre.peers()[i].pending
    }

    /// Moves the deadline of the peer at `i`.
    fn touch_at(&mut self, i: usize, deadline: u64)
        requires
            old(self).wf(),
            i < old(self).peers().len(),
        ensures
            final(self).wf(),
            final(self).touched_at(old(self), i as int, deadline as int),
            final(self).registry.same_ids(&old(self).registry),
    {
        self.registry.peers[i].expires_at = deadline;
        proof {
            let before = old(self).peers();
            let after = self.peers();
            assert forall|k: int| 0 <= k < self.ledger.len() implies total_held(after, k)
                == #[trigger] self.ledger.granted_at(k) by {
                assert(old(self).ledger.granted_at(k) == total_held(before, k));
                lemma_total_same(before, after, Measure::Held(k));
            }
            assert forall|j: int| 0 <= j < after.len() implies ticket_ok(
                #[trigger] after[j],
                self.next_arrival,
            ) by {
                assert(ticket_ok(before[j], self.next_arrival));
            }
            assert forall|j: int, k: int|
                0 <= j < k < after.len() && (#[trigger] after[j]).pending is Some && (
                #[trigger] after[k]).pending is Some implies after[j].pending.unwrap().arrival
                != after[k].pending.unwrap().arrival by {
                assert(before[j].pending == after[j].pending);
                assert(before[k].pending == after[k].pending);
            }
            self.registry.lemma_same_ids(&old(self).registry);
        }
    }

    /// What is left of the named semaphore: its maximum less what is granted.
    pub fn remainder(&self, semaphore: &str) -> (r: Result<i64, ThrottleError>)
        requires
            self.wf(),
        ensures
            r == (if self.ledger.known(semaphore@) {
                Ok::<i64, ThrottleError>(
                    (self.ledger.max_at(self.ledger.rank(semaphore@)) - self.ledger.granted_at(
                        self.ledger.rank(semaphore@),
                    )) as i64,
                )
            } else {
                Err(ThrottleError::UnknownSemaphore)
            }),
            r matches Ok(left) ==> 0 <= left <= self.ledger.max_at(self.ledger.rank(semaphore@)),
    {
        match self.ledger.index_of(semaphore) {
            Some(s) => Ok(self.ledger.semaphores[s].max - self.ledger.semaphores[s].granted),
            None => Err(ThrottleError::UnknownSemaphore),
        }
    }

    /// Whether the peer waits for nothing: its request, if it made one, has
    /// been granted.
    pub fn is_acquired(&self, peer_id: u64) -> (r: Result<bool, ThrottleError>)
        requires
            self.wf(),
        ensures
            r == (if self.registry.has(peer_id) {
                Ok::<bool, ThrottleError>(self.registry.peer(peer_id).pending is None)
            } else {
                Err(ThrottleError::UnknownPeer)
            }),
    {
        match self.registry.index_of(peer_id) {
            Some(i) => Ok(self.registry.peers[i].pending.is_none()),
            None => Err(ThrottleError::UnknownPeer),
        }
    }

    /// The first step of a wait for the peer's queued request: moves the peer's
    /// deadline to `ttl` after `now`, and answers `true` where the peer waits
    /// for nothing, so that there is nothing to wait for. On `false` the caller
    /// parks until it is woken or its time is up, and then asks `wait_outcome`.
    pub fn begin_wait(&mut self, peer_id: u64, ttl: u64, now: u64) -> (r: Result<bool, ThrottleError>)
        requires
            old(self).wf(),
            now + ttl <= u64::MAX,
        ensures
            final(self).wf(),
            r == (if old(self).registry.has(peer_id) {
                Ok::<bool, ThrottleError>(old(self).registry.peer(peer_id).pending is None)
            } else {
                Err(ThrottleError::UnknownPeer)
            }),
            r is Err ==> *final(self) == *old(self),
            r is Ok ==> final(self).touched_at(old(self), old(self).registry.position(peer_id), now + ttl),
            final(self).registry.same_ids(&old(self).registry),
    {
        match self.registry.index_of(peer_id) {
            Some(i) => {
                self.touch_at(i, now + ttl);
                Ok(self.registry.peers[i].pending.is_none())
            },
            None => Err(ThrottleError::UnknownPeer),
        }
    }

    /// The last step of a wait, after the caller was woken or its time was up:
    /// `true` exactly where the peer is still registered and waits for nothing.
    pub fn wait_outcome(&self, peer_id: u64) -> (acquired: bool)
        requires
            self.wf(),
        ensures
            acquired == (self.registry.has(peer_id) && self.registry.peer(peer_id).pending is None),
    {
        match self.registry.index_of(peer_id) {
            Some(i) => self.registry.peers[i].pending.is_none(),
            None => false,
        }
    }

    /// What `restore_pending` answers, before it changes anything.
    pub open spec fn restore_outcome(&self, peer_id: u64, name: Seq<char>, amount: u32) -> Result<
        bool,
        ThrottleError,
    > {
        if self.registry.has(peer_id) {
            self.acquire_outcome(peer_id, name, amount)
        } else if !self.ledger.known(name) {
            Err(ThrottleError::UnknownSemaphore)
        } else if amount > self.ledger.max_at(self.ledger.rank(name)) {
            Err(
                ThrottleError::ForeverPending {
                    asked: amount as i64,
                    max: self.ledger.semaphores@[self.ledger.rank(name)].max,
                },
            )
        } else {
            Ok(self.queue_empty(self.ledger.rank(name)) && self.ledger.fits(self.ledger.rank(name), amount))
        }
    }

    /// What restoring the request of a peer that was not registered changes:
    /// the peer is registered under its identifier, and its request admitted.
    pub open spec fn restored_new(
        &self,
        pre: &State,
        peer_id: u64,
        s: int,
        amount: u32,
        deadline: int,
        granted: bool,
    ) -> bool {
        let fresh = Seq::new(pre.ledger.len() as nat, |k: int| None::<u32>);
        &&& self.registry.has(peer_id)
        &&& self.peers().len() == pre.peers().len() + 1
        &&& self.peers().drop_last() =~= pre.peers()
        &&& self.peers().last().id == peer_id
        &&& self.peers().last().expires_at == deadline
        &&& self.peers().last().active@ == (if granted {
            fresh.update(s, Some(amount))
        } else {
            fresh
        })
        &&& self.peers().last().pending == (if granted {
            None::<Ticket>
        } else {
            Some(Ticket { semaphore: s as usize, amount, arrival: pre.next_arrival })
        })
        &&& self.ledger.same_but_granted(&pre.ledger, s)
        &&& self.ledger.granted_at(s) == pre.ledger.granted_at(s) + (if granted {
            amount as int
        } else {
            0
        })
        &&& self.next_arrival == pre.next_arrival + (if granted {
            0int
        } else {
            1int
        })
    }

    /// Brings one request back after a restart: registers the peer under its
    /// identifier if it is not registered, then admits the request as
    /// `acquire` does. A refused request changes nothing, and registers nobody.
    pub fn restore_pending(
        &mut self,
        peer_id: u64,
        ttl: u64,
        semaphore: &str,
        amount: u32,
        now: u64,
    ) -> (r: Result<bool, ThrottleError>)
        requires
            old(self).wf(),
            old(self).next_arrival < u64::MAX,
            now + ttl <= u64::MAX,
            peer_id < u64::MAX,
        ensures
            final(self).wf(),
            r == old(self).restore_outcome(peer_id, semaphore@, amount),
            r is Err ==> *final(self) == *old(self),
            r matches Ok(granted) ==> (if old(self).registry.has(peer_id) {
                final(self).admitted_at(
                    old(self),
                    old(self).registry.position(peer_id),
                    old(self).ledger.rank(semaphore@),
                    amount,
                    now + ttl,
                    granted,
                )
            } else {
                final(self).restored_new(
                    old(self),
                    peer_id,
                    old(self).ledger.rank(semaphore@),
                    amount,
                    now + ttl,
                    granted,
                )
            }),
    {
        if self.registry.contains(peer_id) {
            return self.acquire(peer_id, semaphore, amount, ttl, now);
        }
        let s = match self.ledger.index_of(semaphore) {
            Some(s) => s,
            None => { return Err(ThrottleError::UnknownSemaphore); },
        };
        let max = self.ledger.semaphores[s].max;
        if amount as i64 > max {
            return Err(ThrottleError::ForeverPending { asked: amount as i64, max });
        }
        let i = self.registry.peers.len();
        self.enroll(peer_id, now + ttl);
        let ghost mid = *self;
        proof {
            assert(mid.peers()[i as int] == mid.peers().last());
            assert forall|j: int| s <= j implies !#[trigger] mid.peers()[i as int].touches(j) by {}
            assert forall|j: int| 0 <= j < i implies mid.peers()[j] == old(self).peers()[j] by {
                assert(mid.peers().drop_last()[j] == mid.peers()[j]);
            }
            assert(mid.queue_empty(s as int) == old(self).queue_empty(s as int)) by {
                if old(self).queue_empty(s as int) {
                    assert forall|j: int| 0 <= j < mid.peers().len() implies !(
                    #[trigger] mid.peers()[j]).waits_on(s as int) by {
                        if j < i {
                            assert(!old(self).peers()[j].waits_on(s as int));
                        }
                    }
                }
                if mid.queue_empty(s as int) {
                    assert forall|j: int| 0 <= j < old(self).peers().len() implies !(
                    #[trigger] old(self).peers()[j]).waits_on(s as int) by {
                        assert(!mid.peers()[j].waits_on(s as int));
                    }
                }
            }
        }
        let granted = self.enter(i, s, amount, now + ttl);
        proof {
            assert(self.peers().drop_last() =~= old(self).peers());
            assert(self.peers()[i as int].id == peer_id);
            assert(self.registry.has(peer_id));
        }
        Ok(granted)
    }

    /// Of every semaphore, what is granted is the sum of what the peers hold of
    /// it, and never more than its maximum.
    pub proof fn lemma_never_over_granted(&self, s: int)
        requires
            self.wf(),
            0 <= s < self.ledger.len(),
        ensures
            total_held(self.peers(), s) == self.ledger.granted_at(s),
            0 <= self.ledger.granted_at(s) <= self.ledger.max_at(s),
    {
        assert(self.ledger.granted_at(s) == self.ledger.semaphores@[s].granted);
    }

    /// A peer waits for one semaphore at most, and no ticket belongs to two peers.
    pub proof fn lemma_single_ticket(&self, i: int, j: int, s: int, t: int)
        requires
            self.wf(),
            0 <= i < self.peers().len(),
            0 <= j < self.peers().len(),
            self.peers()[i].waits_on(s),
            self.peers()[j].waits_on(t),
        ensures
            i == j ==> s == t,
            self.peers()[i].pending.unwrap().arrival == self.peers()[j].pending.unwrap().arrival ==> i
                == j,
    {
        if i < j {
            assert(self.peers()[i].pending.unwrap().arrival != self.peers()[j].pending.unwrap().arrival);
        } else if j < i {
            assert(self.peers()[j].pending.unwrap().arrival != self.peers()[i].pending.unwrap().arrival);
        }
    }

    /// A request for more than the semaphore's maximum is always refused as one
    /// that would wait forever.
    pub proof fn lemma_oversized_request_refused(&self, peer_id: u64, name: Seq<char>, amount: u32)
        requires
            self.registry.has(peer_id),
            self.ledger.known(name),
            amount > self.ledger.max_at(self.ledger.rank(name)),
        ensures
            self.acquire_outcome(peer_id, name, amount) == Err::<bool, ThrottleError>(
                ThrottleError::ForeverPending {
                    asked: amount as i64,
                    max: self.ledger.semaphores@[self.ledger.rank(name)].max,
                },
            ),
    {
    }

    /// A peer that holds or waits for a semaphore is refused any semaphore that
    /// does not rank above it.
    pub proof fn lemma_out_of_order_request_refused(
        &self,
        peer_id: u64,
        name: Seq<char>,
        amount: u32,
        held: int,
    )
        requires
            self.registry.has(peer_id),
            self.ledger.known(name),
            amount <= self.ledger.max_at(self.ledger.rank(name)),
            self.registry.peer(peer_id).touches(held),
            self.ledger.rank(name) <= held,
        ensures
            self.acquire_outcome(peer_id, name, amount) == Err::<bool, ThrottleError>(
                ThrottleError::Deadlock,
            ),
    {
    }
}

} // verus!
