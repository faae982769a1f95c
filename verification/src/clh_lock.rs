//! The protocol of the CLH queue lock.  A thread enqueues by swapping a fresh
//! node whose flag is set into `tail`; the node it swapped out is its
//! predecessor, and it waits until the predecessor's flag is cleared.
//! Unlocking clears the flag of one's own node.  `ClhProtocol` records, next
//! to the flags and the tail, the order in which the threads enqueued, and
//! proves that only the oldest of them can hold the lock.

use vstd::prelude::*;

verus! {

/// Where a thread stands with respect to the CLH lock.
pub enum ClhPhase {
    /// Not in the queue.
    Idle,
    /// Enqueued with `node`; waits for the flag of `pred` to clear.
    Waiting { node: int, pred: int },
    /// Holds the lock with `node`.
    Holding { node: int },
}

/// The node of a thread in `phase`, if it is enqueued.
pub open spec fn node_of(phase: ClhPhase) -> int {
    match phase {
        ClhPhase::Idle => -1,
        ClhPhase::Waiting { node, .. } => node,
        ClhPhase::Holding { node } => node,
    }
}

/// The node a waiting thread in `phase` waits on.
pub open spec fn pred_of(phase: ClhPhase) -> int {
    match phase {
        ClhPhase::Waiting { pred, .. } => pred,
        _ => -1,
    }
}

/// The CLH lock's node flags and tail, every thread's phase, and the
/// enqueued threads, oldest first.
pub struct ClhProtocol {
    pub flags: Map<int, bool>,
    pub tail: int,
    pub phases: Map<int, ClhPhase>,
    pub queue: Seq<int>,
}

impl ClhProtocol {
    /// A fresh lock, whose tail is the released node `first`, used by the
    /// threads in `threads`.
    pub open spec fn initial(first: int, threads: Set<int>) -> ClhProtocol {
        ClhProtocol {
            flags: map![first => false],
            tail: first,
            phases: Map::new(|t: int| threads.contains(t), |t: int| ClhPhase::Idle),
            queue: Seq::empty(),
        }
    }

    /// Thread `t`, not enqueued, can enqueue the fresh node `n`.
    pub open spec fn can_enqueue(self, t: int, n: int) -> bool {
        &&& self.phases.contains_key(t)
        &&& self.phases[t] is Idle
        &&& !self.flags.contains_key(n)
    }

    /// The swap of `n` into `tail`: `t` waits behind the old tail.
    pub open spec fn enqueue(self, t: int, n: int) -> ClhProtocol {
        ClhProtocol {
            flags: self.flags.insert(n, true),
            tail: n,
            phases: self.phases.insert(t, ClhPhase::Waiting { node: n, pred: self.tail }),
            queue: self.queue.push(t),
        }
    }

    /// Thread `t` sees the flag of its predecessor cleared.
    pub open spec fn can_enter(self, t: int) -> bool {
        &&& self.phases.contains_key(t)
        &&& self.phases[t] matches ClhPhase::Waiting { node, pred }
        &&& self.flags.contains_key(pred)
        &&& !self.flags[pred]
    }

    pub open spec fn enter(self, t: int) -> ClhProtocol {
        ClhProtocol {
            phases: self.phases.insert(t, ClhPhase::Holding { node: node_of(self.phases[t]) }),
            ..self
        }
    }

    /// Thread `t` holds the lock and may unlock it.
    pub open spec fn can_release(self, t: int) -> bool {
        &&& self.phases.contains_key(t)
        &&& self.phases[t] is Holding
    }

    /// Unlocking clears the flag of the holder's node.
    pub open spec fn release(self, t: int) -> ClhProtocol {
        ClhProtocol {
            flags: self.flags.insert(node_of(self.phases[t]), false),
            tail: self.tail,
            phases: self.phases.insert(t, ClhPhase::Idle),
            queue: self.queue.drop_first(),
        }
    }

    /// One step of some thread.
    pub open spec fn step(self, post: ClhProtocol) -> bool {
        ||| exists|t: int, n: int| self.can_enqueue(t, n) && post == self.enqueue(t, n)
        ||| exists|t: int| self.can_enter(t) && post == self.enter(t)
        ||| exists|t: int| self.can_release(t) && post == self.release(t)
    }

    /// The threads holding the lock.
    pub open spec fn holders(self) -> Set<int> {
        self.phases.dom().filter(|t: int| self.phases[t] is Holding)
    }

    /// The enqueued threads are exactly those not idle, each once, each with
    /// its own node whose flag is set; every thread after the first waits on
    /// the node of the thread before it; the tail is the node of the last
    /// one, or a released node when the queue is empty.
    pub open spec fn inv(self) -> bool {
        &&& self.flags.contains_key(self.tail)
        &&& forall|i: int|
            #![trigger self.queue[i]]
            0 <= i < self.queue.len() ==> {
                &&& self.phases.contains_key(self.queue[i])
                &&& !(self.phases[self.queue[i]] is Idle)
                &&& self.flags.contains_key(node_of(self.phases[self.queue[i]]))
                &&& self.flags[node_of(self.phases[self.queue[i]])]
            }
        &&& forall|t: int|
            #![trigger self.phases[t]]
            self.phases.contains_key(t) && !(self.phases[t] is Idle) ==> self.queue.contains(t)
        &&& forall|i: int, j: int|
            #![trigger self.queue[i], self.queue[j]]
            0 <= i < j < self.queue.len() ==> self.queue[i] != self.queue[j] && node_of(
                self.phases[self.queue[i]],
            ) != node_of(self.phases[self.queue[j]])
        &&& forall|i: int|
            #![trigger self.queue[i]]
            0 < i < self.queue.len() ==> self.phases[self.queue[i]] is Waiting && pred_of(
                self.phases[self.queue[i]],
            ) == node_of(self.phases[self.queue[i - 1]])
        &&& self.queue.len() > 0 ==> self.tail == node_of(self.phases[self.queue.last()])
        &&& self.queue.len() == 0 ==> !self.flags[self.tail]
    }
}

/// The lock starts out satisfying its invariant.
pub proof fn lemma_clh_initial(first: int, threads: Set<int>)
    ensures
        ClhProtocol::initial(first, threads).inv(),
        ClhProtocol::initial(first, threads).holders().is_empty(),
{
    let s = ClhProtocol::initial(first, threads);
    assert(s.holders() =~= Set::empty());
}

/// Only the oldest enqueued thread can be let in, or hold the lock.
pub proof fn lemma_clh_only_head_proceeds(s: ClhProtocol, t: int)
    requires
        s.inv(),
        s.can_enter(t) || s.can_release(t),
    ensures
        s.queue.len() > 0,
        s.queue[0] == t,
{
    assert(s.queue.contains(t));
    let i = choose|i: int| 0 <= i < s.queue.len() && s.queue[i] == t;
    if i > 0 {
        assert(s.flags[node_of(s.phases[s.queue[i - 1]])]);
    }
}

/// Enqueueing a fresh node keeps the invariant.
proof fn lemma_clh_enqueue_keeps_inv(pre: ClhProtocol, t: int, n: int)
    requires
        pre.inv(),
        pre.can_enqueue(t, n),
    ensures
        pre.enqueue(t, n).inv(),
{
    let post = pre.enqueue(t, n);
    let len = pre.queue.len();
    assert(!pre.queue.contains(t)) by {
        if pre.queue.contains(t) {
            let i = choose|i: int| 0 <= i < len && pre.queue[i] == t;
            assert(!(pre.phases[pre.queue[i]] is Idle));
        }
    }
    assert forall|i: int| #![trigger post.queue[i]] 0 <= i < len implies post.phases[post.queue[i]]
        == pre.phases[pre.queue[i]] by {
        assert(post.queue[i] == pre.queue[i]);
        assert(pre.queue[i] != t);
    }
    assert forall|i: int|
        #![trigger post.queue[i]]
        0 <= i < post.queue.len() implies {
        &&& post.phases.contains_key(post.queue[i])
        &&& !(post.phases[post.queue[i]] is Idle)
        &&& post.flags.contains_key(node_of(post.phases[post.queue[i]]))
        &&& post.flags[node_of(post.phases[post.queue[i]])]
    } by {
        if i < len {
            assert(pre.flags.contains_key(node_of(pre.phases[pre.queue[i]])));
        }
    }
    assert forall|u: int|
        #![trigger post.phases[u]]
        post.phases.contains_key(u) && !(post.phases[u] is Idle) implies post.queue.contains(u) by {
        if u == t {
            assert(post.queue[len as int] == t);
        } else {
            assert(pre.queue.contains(u));
            let i = choose|i: int| 0 <= i < len && pre.queue[i] == u;
            assert(post.queue[i] == u);
        }
    }
    assert forall|i: int, j: int|
        #![trigger post.queue[i], post.queue[j]]
        0 <= i < j < post.queue.len() implies post.queue[i] != post.queue[j] && node_of(
            post.phases[post.queue[i]],
        ) != node_of(post.phases[post.queue[j]]) by {
        assert(pre.flags.contains_key(node_of(pre.phases[pre.queue[i]])));
        if j < len {
            assert(pre.queue[i] != pre.queue[j]);
        }
    }
    assert forall|i: int|
        #![trigger post.queue[i]]
        0 < i < post.queue.len() implies post.phases[post.queue[i]] is Waiting && pred_of(
            post.phases[post.queue[i]],
        ) == node_of(post.phases[post.queue[i - 1]]) by {
        if i < len {
            assert(pre.phases[pre.queue[i]] is Waiting);
        } else {
            assert(post.queue[i - 1] == pre.queue.last());
        }
    }
}

/// Entering keeps the invariant.
proof fn lemma_clh_enter_keeps_inv(pre: ClhProtocol, t: int)
    requires
        pre.inv(),
        pre.can_enter(t),
    ensures
        pre.enter(t).inv(),
{
    let post = pre.enter(t);
    lemma_clh_only_head_proceeds(pre, t);
    let len = pre.queue.len();
    assert forall|i: int| #![trigger post.queue[i]] 0 <= i < len implies node_of(
        post.phases[post.queue[i]],
    ) == node_of(pre.phases[pre.queue[i]]) by {
    }
    assert forall|i: int|
        #![trigger post.queue[i]]
        0 < i < post.queue.len() implies post.phases[post.queue[i]] is Waiting && pred_of(
            post.phases[post.queue[i]],
        ) == node_of(post.phases[post.queue[i - 1]]) by {
        assert(pre.queue[i] != pre.queue[0]);
        assert(pre.phases[pre.queue[i]] is Waiting);
    }
    assert forall|i: int, j: int|
        #![trigger post.queue[i], post.queue[j]]
        0 <= i < j < post.queue.len() implies post.queue[i] != post.queue[j] && node_of(
            post.phases[post.queue[i]],
        ) != node_of(post.phases[post.queue[j]]) by {
        assert(pre.queue[i] != pre.queue[j]);
    }
    assert forall|u: int|
        #![trigger post.phases[u]]
        post.phases.contains_key(u) && !(post.phases[u] is Idle) implies post.queue.contains(u) by {
        if u != t {
            assert(pre.phases[u] == post.phases[u]);
        } else {
            assert(post.queue[0] == t);
        }
    }
    if len > 0 {
        assert(node_of(post.phases[post.queue.last()]) == node_of(pre.phases[pre.queue.last()]));
    }
}

/// Releasing keeps the invariant.
proof fn lemma_clh_release_keeps_inv(pre: ClhProtocol, t: int)
    requires
        pre.inv(),
        pre.can_release(t),
    ensures
        pre.release(t).inv(),
{
    let post = pre.release(t);
    lemma_clh_only_head_proceeds(pre, t);
    let len = pre.queue.len();
    let n = node_of(pre.phases[t]);
    assert forall|i: int| #![trigger post.queue[i]] 0 <= i < post.queue.len() implies post.queue[i]
        == pre.queue[i + 1] && post.queue[i] != t && post.phases[post.queue[i]]
        == pre.phases[pre.queue[i + 1]] && node_of(pre.phases[pre.queue[i + 1]]) != n by {
        assert(pre.queue[0] != pre.queue[i + 1]);
    }
    assert forall|i: int|
        #![trigger post.queue[i]]
        0 <= i < post.queue.len() implies {
        &&& post.phases.contains_key(post.queue[i])
        &&& !(post.phases[post.queue[i]] is Idle)
        &&& post.flags.contains_key(node_of(post.phases[post.queue[i]]))
        &&& post.flags[node_of(post.phases[post.queue[i]])]
    } by {
        assert(pre.flags[node_of(pre.phases[pre.queue[i + 1]])]);
    }
    assert forall|u: int|
        #![trigger post.phases[u]]
        post.phases.contains_key(u) && !(post.phases[u] is Idle) implies post.queue.contains(u) by {
        assert(u != t);
        assert(pre.queue.contains(u));
        let i = choose|i: int| 0 <= i < len && pre.queue[i] == u;
        assert(i != 0);
        assert(post.queue[i - 1] == u);
    }
    assert forall|i: int, j: int|
        #![trigger post.queue[i], post.queue[j]]
        0 <= i < j < post.queue.len() implies post.queue[i] != post.queue[j] && node_of(
            post.phases[post.queue[i]],
        ) != node_of(post.phases[post.queue[j]]) by {
        assert(pre.queue[i + 1] != pre.queue[j + 1]);
    }
    assert forall|i: int|
        #![trigger post.queue[i]]
        0 < i < post.queue.len() implies post.phases[post.queue[i]] is Waiting && pred_of(
            post.phases[post.queue[i]],
        ) == node_of(post.phases[post.queue[i - 1]]) by {
        assert(pre.phases[pre.queue[i + 1]] is Waiting);
        assert(post.queue[i - 1] == pre.queue[i]);
    }
    if post.queue.len() > 0 {
        assert(post.queue.last() == pre.queue.last());
    } else {
        assert(pre.queue.last() == t);
    }
}

/// Every step of every thread keeps the invariant.
pub proof fn lemma_clh_step_keeps_inv(pre: ClhProtocol, post: ClhProtocol)
    requires
        pre.inv(),
        pre.step(post),
    ensures
        post.inv(),
{
    if exists|t: int, n: int| pre.can_enqueue(t, n) && post == pre.enqueue(t, n) {
        let (t, n) = choose|t: int, n: int| pre.can_enqueue(t, n) && post == pre.enqueue(t, n);
        lemma_clh_enqueue_keeps_inv(pre, t, n);
    } else if exists|t: int| pre.can_enter(t) && post == pre.enter(t) {
        let t = choose|t: int| pre.can_enter(t) && post == pre.enter(t);
        lemma_clh_enter_keeps_inv(pre, t);
    } else {
        let t = choose|t: int| pre.can_release(t) && post == pre.release(t);
        lemma_clh_release_keeps_inv(pre, t);
    }
}

/// Mutual exclusion: in any state satisfying the invariant, at most one
/// thread holds the lock.
pub proof fn lemma_clh_mutual_exclusion(s: ClhProtocol, a: int, b: int)
    requires
        s.inv(),
        s.holders().contains(a),
        s.holders().contains(b),
    ensures
        a == b,
{
    lemma_clh_only_head_proceeds(s, a);
    lemma_clh_only_head_proceeds(s, b);
}

} // verus!
