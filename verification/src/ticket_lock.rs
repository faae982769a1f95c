//! A ticket lock: a thread takes a ticket with a relaxed `fetch_add` on
//! `next` and is served once `curr` (read with Acquire) equals its ticket;
//! unlocking hands the lock to the next ticket with a Release store.  Threads
//! are served in the order in which they took their tickets.
//!
//! Waiting for one's turn spins until another thread unlocks, so the lock
//! is offered here as its three non-blocking steps.  `TicketProtocol`
//! models the protocol as atomic steps under interleaving and proves the
//! model exclusive and first come first served; the proofs are about the
//! model, not about runs of the code.

use vstd::prelude::*;
use loom::sync::atomic::{AtomicUsize, Ordering};
use crate::primitives::atomic_usize_fetch_add;
use crate::primitives::atomic_usize_initial;
use crate::primitives::atomic_usize_load;
use crate::primitives::atomic_usize_new;
use crate::primitives::atomic_usize_store;

verus! {

/// The ticket after `ticket`, wrapping around at `usize::MAX`.
pub open spec fn spec_successor(ticket: usize) -> usize {
    if ticket == usize::MAX {
        0
    } else {
        (ticket + 1) as usize
    }
}

/// How many tickets lie from `from` up to `to`, counting around the wrap.
pub open spec fn ticket_distance(from: usize, to: usize) -> int {
    if from <= to {
        to - from
    } else {
        to - from + usize::MAX + 1
    }
}

/// The ticket after `ticket`, wrapping around at `usize::MAX`.
pub fn successor(ticket: usize) -> (next: usize)
    ensures
        next == spec_successor(ticket),
{
    ticket.wrapping_add(1)
}

/// Whether a lock whose `curr` reads `curr` serves `ticket`.
pub fn serves(curr: usize, ticket: usize) -> (served: bool)
    ensures
        served == (curr == ticket),
{
    curr == ticket
}

pub struct TicketLock {
    next: AtomicUsize,
    curr: AtomicUsize,
}

impl TicketLock {
    /// The first value of `next`: the first ticket handed out.
    pub closed spec fn first_ticket(&self) -> usize {
        atomic_usize_initial(self.next)
    }

    /// The first value of `curr`: the first ticket served.
    pub closed spec fn first_served(&self) -> usize {
        atomic_usize_initial(self.curr)
    }

    /// A free lock: the first ticket is 0 and it is served at once, as in
    /// `TicketProtocol::initial`.
    pub fn new() -> (lock: Self)
        ensures
            lock.first_ticket() == 0,
            lock.first_served() == 0,
    {
        TicketLock { next: atomic_usize_new(0), curr: atomic_usize_new(0) }
    }

    /// Takes a ticket: a relaxed `fetch_add(1)` on `next`, which returns the
    /// ticket and moves `next` to its successor.
    pub fn take_ticket(&self) -> usize {
        atomic_usize_fetch_add(&self.next, 1, Ordering::Relaxed)
    }

    /// Whether the lock serves `ticket` now: `curr`, read with Acquire,
    /// equals `ticket`.  Once it does, the holder of `ticket` owns the lock.
    pub fn is_serving(&self, ticket: usize) -> bool {
        serves(atomic_usize_load(&self.curr, Ordering::Acquire), ticket)
    }

    /// Releases the lock held with `ticket`: stores its successor into
    /// `curr` with Release, which serves the next ticket.
    pub fn unlock(&self, ticket: usize) {
        atomic_usize_store(&self.curr, successor(ticket), Ordering::Release);
    }
}

impl Default for TicketLock {
    fn default() -> Self {
        Self::new()
    }
}

/// Where a thread stands with respect to the ticket lock.
pub enum TicketPhase {
    /// Holds no ticket.
    Idle,
    /// Took the ticket and waits for `curr` to reach it.
    Waiting(usize),
    /// Was served the ticket and is in its critical section.
    Holding(usize),
}

/// The ticket lock's shared counters together with every thread's phase:
/// the state the steps `take_ticket`, `is_serving` and `unlock` act on.
pub struct TicketProtocol {
    pub next: usize,
    pub curr: usize,
    pub phases: Map<int, TicketPhase>,
}

/// The ticket a thread in `phase` holds, if any.
pub open spec fn ticket_of(phase: TicketPhase) -> Option<usize> {
    match phase {
        TicketPhase::Idle => None,
        TicketPhase::Waiting(k) => Some(k),
        TicketPhase::Holding(k) => Some(k),
    }
}

impl TicketProtocol {
    /// A fresh lock used by the threads in `threads`.
    pub open spec fn initial(threads: Set<int>) -> TicketProtocol {
        TicketProtocol {
            next: 0,
            curr: 0,
            phases: Map::new(|t: int| threads.contains(t), |t: int| TicketPhase::Idle),
        }
    }

    /// Thread `t` can take a ticket: it holds none, and fewer than
    /// `usize::MAX` tickets are outstanding, so `next` cannot wrap onto
    /// `curr`.
    pub open spec fn can_take(self, t: int) -> bool {
        &&& self.phases.contains_key(t)
        &&& self.phases[t] is Idle
        &&& ticket_distance(self.curr, self.next) < usize::MAX
    }

    /// `take_ticket`: `t` gets `next`, and `next` moves on.
    pub open spec fn take(self, t: int) -> TicketProtocol {
        TicketProtocol {
            next: spec_successor(self.next),
            curr: self.curr,
            phases: self.phases.insert(t, TicketPhase::Waiting(self.next)),
        }
    }

    /// Thread `t` is served: `is_serving` finds `curr` at its ticket.
    pub open spec fn can_enter(self, t: int) -> bool {
        &&& self.phases.contains_key(t)
        &&& self.phases[t] matches TicketPhase::Waiting(k)
        &&& k == self.curr
    }

    pub open spec fn enter(self, t: int) -> TicketProtocol {
        TicketProtocol {
            phases: self.phases.insert(t, TicketPhase::Holding(self.curr)),
            ..self
        }
    }

    /// Thread `t` holds the lock and may unlock it.
    pub open spec fn can_release(self, t: int) -> bool {
        &&& self.phases.contains_key(t)
        &&& self.phases[t] is Holding
    }

    /// `unlock`: `curr` moves to the successor of the holder's ticket.
    pub open spec fn release(self, t: int) -> TicketProtocol {
        TicketProtocol {
            next: self.next,
            curr: spec_successor(self.phases[t]->Holding_0),
            phases: self.phases.insert(t, TicketPhase::Idle),
        }
    }

    /// One step of some thread.
    pub open spec fn step(self, post: TicketProtocol) -> bool {
        exists|t: int|
            {
                ||| self.can_take(t) && post == self.take(t)
                ||| self.can_enter(t) && post == self.enter(t)
                ||| self.can_release(t) && post == self.release(t)
            }
    }

    /// The threads in their critical section.
    pub open spec fn holders(self) -> Set<int> {
        self.phases.dom().filter(|t: int| self.phases[t] is Holding)
    }

    /// The protocol invariant: every outstanding ticket lies between `curr`
    /// and `next`, no two threads hold the same ticket, and a thread in its
    /// critical section holds the ticket `curr` serves.
    pub open spec fn inv(self) -> bool {
        &&& forall|t: int|
            #![trigger self.phases[t]]
            self.phases.contains_key(t) && ticket_of(self.phases[t]) is Some ==> ticket_distance(
                self.curr,
                ticket_of(self.phases[t])->0,
            ) < ticket_distance(self.curr, self.next)
        &&& forall|a: int, b: int|
            #![trigger self.phases[a], self.phases[b]]
            self.phases.contains_key(a) && self.phases.contains_key(b) && a != b && ticket_of(
                self.phases[a],
            ) is Some ==> ticket_of(self.phases[a]) != ticket_of(self.phases[b])
        &&& forall|t: int|
            #![trigger self.phases[t]]
            self.phases.contains_key(t) && self.phases[t] is Holding ==> self.phases[t]->Holding_0
                == self.curr
    }
}

proof fn lemma_distance_successor(from: usize, to: usize)
    ensures
        0 <= ticket_distance(from, to) <= usize::MAX,
        ticket_distance(from, to) == 0 <==> from == to,
        ticket_distance(from, to) < usize::MAX ==> ticket_distance(from, spec_successor(to))
            == ticket_distance(from, to) + 1,
        from != to ==> ticket_distance(spec_successor(from), to) == ticket_distance(from, to) - 1,
{
}

/// The lock starts out satisfying its invariant.
pub proof fn lemma_ticket_initial(threads: Set<int>)
    ensures
        TicketProtocol::initial(threads).inv(),
        TicketProtocol::initial(threads).holders().is_empty(),
{
    let s = TicketProtocol::initial(threads);
    assert(s.holders() =~= Set::empty());
}

/// Every step of every thread keeps the invariant.
pub proof fn lemma_ticket_step_keeps_inv(pre: TicketProtocol, post: TicketProtocol)
    requires
        pre.inv(),
        pre.step(post),
    ensures
        post.inv(),
{
    let t = choose|t: int|
        {
            ||| pre.can_take(t) && post == pre.take(t)
            ||| pre.can_enter(t) && post == pre.enter(t)
            ||| pre.can_release(t) && post == pre.release(t)
        };
    lemma_distance_successor(pre.curr, pre.next);
    if pre.can_take(t) && post == pre.take(t) {
        assert forall|u: int|
            #![trigger post.phases[u]]
            post.phases.contains_key(u) && ticket_of(post.phases[u]) is Some implies ticket_distance(
                post.curr,
                ticket_of(post.phases[u])->0,
            ) < ticket_distance(post.curr, post.next) by {
            if u != t {
                assert(pre.phases[u] == post.phases[u]);
            }
        }
        assert forall|a: int, b: int|
            #![trigger post.phases[a], post.phases[b]]
            post.phases.contains_key(a) && post.phases.contains_key(b) && a != b && ticket_of(
                post.phases[a],
            ) is Some implies ticket_of(post.phases[a]) != ticket_of(post.phases[b]) by {
            if a != t && b != t {
                assert(pre.phases[a] == post.phases[a]);
                assert(pre.phases[b] == post.phases[b]);
            } else if a == t {
                assert(pre.phases[b] == post.phases[b]);
                if ticket_of(pre.phases[b]) is Some {
                    lemma_distance_successor(pre.curr, ticket_of(pre.phases[b])->0);
                }
            } else {
                assert(pre.phases[a] == post.phases[a]);
                lemma_distance_successor(pre.curr, ticket_of(pre.phases[a])->0);
            }
        }
    } else if pre.can_enter(t) && post == pre.enter(t) {
        assert forall|u: int|
            #![trigger post.phases[u]]
            post.phases.contains_key(u) && ticket_of(post.phases[u]) is Some implies ticket_distance(
                post.curr,
                ticket_of(post.phases[u])->0,
            ) < ticket_distance(post.curr, post.next) by {
            assert(ticket_of(pre.phases[u]) == ticket_of(post.phases[u]));
        }
        assert forall|a: int, b: int|
            #![trigger post.phases[a], post.phases[b]]
            post.phases.contains_key(a) && post.phases.contains_key(b) && a != b && ticket_of(
                post.phases[a],
            ) is Some implies ticket_of(post.phases[a]) != ticket_of(post.phases[b]) by {
            assert(ticket_of(pre.phases[a]) == ticket_of(post.phases[a]));
            assert(ticket_of(pre.phases[b]) == ticket_of(post.phases[b]));
        }
        assert forall|u: int|
            #![trigger post.phases[u]]
            post.phases.contains_key(u) && post.phases[u] is Holding implies post.phases[u]->Holding_0
                == post.curr by {
            if u != t {
                assert(pre.phases[u] == post.phases[u]);
            }
        }
    } else {
        let k = pre.phases[t]->Holding_0;
        assert(k == pre.curr);
        assert(ticket_distance(pre.curr, pre.next) > 0);
        lemma_distance_successor(pre.curr, pre.next);
        assert forall|u: int|
            #![trigger post.phases[u]]
            post.phases.contains_key(u) && ticket_of(post.phases[u]) is Some implies ticket_distance(
                post.curr,
                ticket_of(post.phases[u])->0,
            ) < ticket_distance(post.curr, post.next) by {
            assert(u != t);
            assert(pre.phases[u] == post.phases[u]);
            let ku = ticket_of(pre.phases[u])->0;
            assert(ticket_of(pre.phases[u]) != ticket_of(pre.phases[t]));
            lemma_distance_successor(pre.curr, ku);
        }
        assert forall|a: int, b: int|
            #![trigger post.phases[a], post.phases[b]]
            post.phases.contains_key(a) && post.phases.contains_key(b) && a != b && ticket_of(
                post.phases[a],
            ) is Some implies ticket_of(post.phases[a]) != ticket_of(post.phases[b]) by {
            assert(a != t);
            assert(pre.phases[a] == post.phases[a]);
            if b != t {
                assert(pre.phases[b] == post.phases[b]);
            }
        }
        assert forall|u: int|
            #![trigger post.phases[u]]
            post.phases.contains_key(u) && post.phases[u] is Holding implies post.phases[u]->Holding_0
                == post.curr by {
            assert(u != t);
            assert(pre.phases[u] == post.phases[u]);
            assert(ticket_of(pre.phases[u]) != ticket_of(pre.phases[t]));
        }
    }
}

/// Mutual exclusion: in any state satisfying the invariant, at most one
/// thread is in its critical section.
pub proof fn lemma_ticket_mutual_exclusion(s: TicketProtocol, a: int, b: int)
    requires
        s.inv(),
        s.holders().contains(a),
        s.holders().contains(b),
    ensures
        a == b,
{
    if a != b {
        assert(ticket_of(s.phases[a]) != ticket_of(s.phases[b]));
    }
}

/// First come, first served: of two waiting threads, the one whose ticket
/// lies nearer to `curr` took it earlier, and the other cannot be served
/// before it.
pub proof fn lemma_ticket_fifo(s: TicketProtocol, first: int, second: int)
    requires
        s.inv(),
        s.phases.contains_key(first),
        s.phases.contains_key(second),
        s.phases[first] is Waiting,
        s.phases[second] is Waiting,
        ticket_distance(s.curr, s.phases[first]->Waiting_0) < ticket_distance(
            s.curr,
            s.phases[second]->Waiting_0,
        ),
    ensures
        !s.can_enter(second),
{
    lemma_distance_successor(s.curr, s.phases[first]->Waiting_0);
    lemma_distance_successor(s.curr, s.phases[second]->Waiting_0);
}

/// Releasing the lock held with ticket `k` serves exactly the thread
/// holding the successor of `k`, if one waits for it.
pub proof fn lemma_ticket_release_serves_successor(s: TicketProtocol, holder: int, waiter: int)
    requires
        s.inv(),
        s.can_release(holder),
        s.phases.contains_key(waiter),
        s.phases[waiter] is Waiting,
    ensures
        s.release(holder).can_enter(waiter) <==> s.phases[waiter]->Waiting_0 == spec_successor(
            s.phases[holder]->Holding_0,
        ),
{
    assert(waiter != holder);
    assert(s.release(holder).phases[waiter] == s.phases[waiter]);
}

/// Unlocking serves the next ticket in line, whatever other tickets are
/// outstanding: after the holder of ticket `k` releases, a waiting thread
/// can enter exactly when its ticket is the successor of `k`, at most one
/// waiting thread holds that ticket, and `next` is left as it was.
pub proof fn lemma_ticket_release_serves_next_in_line(s: TicketProtocol, holder: int, a: int, b: int)
    requires
        s.inv(),
        s.can_release(holder),
        s.release(holder).can_enter(a),
        s.release(holder).can_enter(b),
    ensures
        a == b,
        s.phases[a]->Waiting_0 == spec_successor(s.phases[holder]->Holding_0),
        s.release(holder).next == s.next,
{
    assert(a != holder);
    assert(b != holder);
    assert(s.release(holder).phases[a] == s.phases[a]);
    assert(s.release(holder).phases[b] == s.phases[b]);
    if a != b {
        assert(ticket_of(s.phases[a]) != ticket_of(s.phases[b]));
    }
}

} // verus!
