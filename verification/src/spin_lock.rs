//! A test-and-set spin lock: acquiring is a compare-exchange of the flag from
//! `false` to `true` with Acquire, releasing a Release store of `false`.
//!
//! Spinning waits for another thread to unlock, so the lock is offered here
//! as its non-blocking steps.  `SpinProtocol` models the protocol as atomic
//! steps under interleaving and proves the model exclusive; the proof is
//! about the model, not about runs of the code.

use vstd::prelude::*;
use loom::sync::atomic::{AtomicBool, Ordering};
use crate::primitives::atomic_bool_compare_exchange;
use crate::primitives::atomic_bool_initial;
use crate::primitives::atomic_bool_new;
use crate::primitives::atomic_bool_store;

verus! {

pub struct SpinLock {
    inner: AtomicBool,
}

impl SpinLock {
    /// Whether the lock was created held: the flag's first value.
    pub closed spec fn created_locked(&self) -> bool {
        atomic_bool_initial(self.inner)
    }

    /// A free lock: its flag starts out `false`, as in
    /// `SpinProtocol::initial`.
    pub fn new() -> (lock: Self)
        ensures
            !lock.created_locked(),
    {
        SpinLock { inner: atomic_bool_new(false) }
    }

    /// One attempt to acquire: compare-exchange the flag from `false` to
    /// `true`, with Acquire on success and Relaxed on failure.  Returns
    /// whether the exchange happened, that is whether the flag read was
    /// `false` and the caller now holds the lock.
    pub fn try_lock(&self) -> bool {
        let outcome = atomic_bool_compare_exchange(
            &self.inner,
            false,
            true,
            Ordering::Acquire,
            Ordering::Relaxed,
        );
        outcome.is_ok()
    }

    /// Releases the lock: stores `false` with Release.
    pub fn unlock(&self, _token: ()) {
        atomic_bool_store(&self.inner, false, Ordering::Release);
    }
}

impl Default for SpinLock {
    fn default() -> Self {
        Self::new()
    }
}

/// The spin lock's flag together with the threads in their critical
/// section: the state `try_lock` and `unlock` act on.
pub struct SpinProtocol {
    pub locked: bool,
    pub threads: Set<int>,
    pub holders: Set<int>,
}

impl SpinProtocol {
    /// A free lock used by the threads in `threads`.
    pub open spec fn initial(threads: Set<int>) -> SpinProtocol {
        SpinProtocol { locked: false, threads, holders: Set::empty() }
    }

    /// `try_lock` by `t`, which does not hold the lock: the exchange happens
    /// exactly when the flag is `false`.
    pub open spec fn attempt(self, t: int) -> SpinProtocol {
        if !self.locked {
            SpinProtocol { locked: true, holders: self.holders.insert(t), ..self }
        } else {
            self
        }
    }

    /// `unlock` by the holder `t`.
    pub open spec fn release(self, t: int) -> SpinProtocol {
        SpinProtocol { locked: false, holders: self.holders.remove(t), ..self }
    }

    /// One step of some thread.
    pub open spec fn step(self, post: SpinProtocol) -> bool {
        exists|t: int|
            {
                ||| self.threads.contains(t) && !self.holders.contains(t) && post == self.attempt(t)
                ||| self.holders.contains(t) && post == self.release(t)
            }
    }

    /// The flag is set exactly when some thread holds the lock, and no two
    /// threads hold it.
    pub open spec fn inv(self) -> bool {
        &&& self.holders.subset_of(self.threads)
        &&& self.locked <==> !self.holders.is_empty()
        &&& forall|a: int, b: int| self.holders.contains(a) && self.holders.contains(b) ==> a == b
    }
}

/// The lock starts out satisfying its invariant.
pub proof fn lemma_spin_initial(threads: Set<int>)
    ensures
        SpinProtocol::initial(threads).inv(),
{
}

/// Every step of every thread keeps the invariant.
pub proof fn lemma_spin_step_keeps_inv(pre: SpinProtocol, post: SpinProtocol)
    requires
        pre.inv(),
        pre.step(post),
    ensures
        post.inv(),
{
    let t = choose|t: int|
        {
            ||| pre.threads.contains(t) && !pre.holders.contains(t) && post == pre.attempt(t)
            ||| pre.holders.contains(t) && post == pre.release(t)
        };
    if pre.holders.contains(t) && post == pre.release(t) {
        assert(post.holders =~= Set::empty());
    } else if !pre.locked {
        assert(pre.holders =~= Set::empty());
        assert(post.holders.contains(t));
    }
}

/// Mutual exclusion: in any state satisfying the invariant, at most one
/// thread holds the lock, and while it is held every attempt fails and
/// leaves everything as it was.
pub proof fn lemma_spin_mutual_exclusion(s: SpinProtocol, a: int, b: int)
    requires
        s.inv(),
        s.holders.contains(a),
        s.holders.contains(b),
    ensures
        a == b,
        forall|t: int| s.attempt(t) == s,
{
}

} // verus!
