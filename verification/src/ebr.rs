//! Epoch-based reclamation after Fraser: threads pin the global epoch while
//! they hold references into a shared structure, unlinked objects are retired
//! into the list of the epoch in which they were retired, and the epoch only
//! advances once every pinned thread has caught up with it.  An object is
//! freed by the second advance after its retirement.
//!
//! The memory orderings follow the crossbeam relaxed-memory RFC:
//! `pin` loads the epoch relaxed, publishes it relaxed and issues a SeqCst
//! fence; `unpin` publishes the sentinel with Release; `retire` issues a
//! SeqCst fence before reading the epoch; `try_advance` reads the epoch,
//! issues a SeqCst fence, checks every thread, issues an Acquire fence and
//! publishes the next epoch with Release.

use vstd::prelude::*;
use std::collections::HashSet;
use loom::sync::atomic::{AtomicUsize, Ordering};
use loom::sync::Mutex;
use crate::primitives::atomic_fence;
use crate::primitives::atomic_usize_load;
use crate::primitives::atomic_usize_new;
use crate::primitives::atomic_usize_store;
use crate::primitives::locked_contains;
use crate::primitives::locked_file;
use crate::primitives::locked_reclaim;
use crate::primitives::mutex_new_freed;
use crate::primitives::mutex_new_retire_lists;
use crate::primitives::atomic_usize_initial;
use crate::primitives::freed_mutex_initial;
use crate::primitives::retire_lists_mutex_initial;

verus! {

broadcast use vstd::std_specs::hash::group_hash_axioms;

/// Number of retire lists; epochs are counted modulo this.
pub const EPOCHS: usize = 3;

/// Local epoch of a thread that is not pinned.
pub const SENTINEL: usize = usize::MAX;

/// The epoch that follows `g`.
pub open spec fn spec_next_epoch(g: int) -> int {
    (g + 1) % (EPOCHS as int)
}

/// The retire list emptied by the advance out of epoch `g`: the one of the
/// epoch before `g`, whose objects were retired two advances ago.
pub open spec fn spec_reclaim_epoch(g: int) -> int {
    (g + 2) % (EPOCHS as int)
}

/// A thread whose local epoch is `local` holds the global epoch `global`
/// back: it is pinned, and pinned at an older epoch.
pub open spec fn spec_blocks_advance(local: usize, global: usize) -> bool {
    local != SENTINEL && local != global
}

/// The retire lists after `obj` is retired in epoch `epoch`.
pub open spec fn lists_after_retire(lists: Seq<Seq<usize>>, epoch: int, obj: usize) -> Seq<Seq<usize>> {
    lists.update(epoch, lists[epoch].push(obj))
}

/// The retire lists after the list of epoch `epoch` is reclaimed.
pub open spec fn lists_after_reclaim(lists: Seq<Seq<usize>>, epoch: int) -> Seq<Seq<usize>> {
    lists.update(epoch, Seq::empty())
}

/// The freed set after the list of epoch `epoch` is reclaimed.
pub open spec fn freed_after_reclaim(freed: Set<usize>, lists: Seq<Seq<usize>>, epoch: int) -> Set<usize> {
    freed.union(lists[epoch].to_set())
}

/// The epoch that follows `g`.
pub fn next_epoch(g: usize) -> (next: usize)
    requires
        g < usize::MAX,
    ensures
        next == spec_next_epoch(g as int),
        next < EPOCHS,
{
    (g + 1) % EPOCHS
}

/// The epoch whose retire list the advance out of `g` frees.
pub fn reclaim_epoch(g: usize) -> (old: usize)
    requires
        g < usize::MAX - 1,
    ensures
        old == spec_reclaim_epoch(g as int),
        old < EPOCHS,
{
    (g + 2) % EPOCHS
}

/// Whether a thread with local epoch `local` prevents the global epoch
/// `global` from advancing.
pub fn blocks_advance(local: usize, global: usize) -> (blocks: bool)
    ensures
        blocks == spec_blocks_advance(local, global),
{
    local != SENTINEL && local != global
}

/// The retire-list slot of an epoch value read from the global epoch.  Every
/// value the collector stores there is below `EPOCHS`, for which the slot is
/// the value itself.
pub fn epoch_slot(raw: usize) -> (slot: usize)
    ensures
        slot == raw % EPOCHS,
        slot < EPOCHS,
        raw < EPOCHS ==> slot == raw,
{
    raw % EPOCHS
}

/// One list of retired objects per epoch.
pub struct RetireLists {
    lists: [Vec<usize>; 3],
}

impl View for RetireLists {
    type V = Seq<Seq<usize>>;

    closed spec fn view(&self) -> Seq<Seq<usize>> {
        seq![self.lists[0]@, self.lists[1]@, self.lists[2]@]
    }
}

impl RetireLists {
    /// The view always has one list per epoch.
    pub proof fn lemma_len(&self)
        ensures
            self@.len() == EPOCHS,
    {
    }

    /// Three empty lists.
    pub fn new() -> (r: RetireLists)
        ensures
            r@ == seq![Seq::<usize>::empty(), Seq::<usize>::empty(), Seq::<usize>::empty()],
    {
        RetireLists { lists: [Vec::new(), Vec::new(), Vec::new()] }
    }

    /// Appends `obj` to the list of `epoch`.
    pub fn push(&mut self, epoch: usize, obj: usize)
        requires
            epoch < EPOCHS,
        ensures
            final(self)@ == lists_after_retire(old(self)@, epoch as int, obj),
    {
        self.lists[epoch].push(obj);
        assert(final(self)@ =~= lists_after_retire(old(self)@, epoch as int, obj));
    }

    /// Empties the list of `epoch`, moving every object in it into `freed`.
    pub fn drain_into(&mut self, epoch: usize, freed: &mut HashSet<usize>)
        requires
            epoch < EPOCHS,
        ensures
            final(self)@ == lists_after_reclaim(old(self)@, epoch as int),
            final(freed)@ == freed_after_reclaim(old(freed)@, old(self)@, epoch as int),
    {
        let mut taken: Vec<usize> = Vec::new();
        std::mem::swap(&mut self.lists[epoch], &mut taken);
        assert(final(self)@ =~= lists_after_reclaim(old(self)@, epoch as int));
        let mut i: usize = 0;
        while i < taken.len()
            invariant
                taken@ == old(self)@[epoch as int],
                i <= taken.len(),
                freed@ == old(freed)@.union(taken@.take(i as int).to_set()),
            decreases taken.len() - i,
        {
            freed.insert(taken[i]);
            proof {
                assert(taken@.take(i + 1) =~= taken@.take(i as int).push(taken@[i as int]));
                assert(taken@.take(i + 1).to_set() =~= taken@.take(i as int).to_set().insert(taken@[i as int])) by {
                    broadcast use vstd::seq_lib::group_seq_properties;
                }
            }
            i = i + 1;
        }
        assert(taken@.take(taken.len() as int) =~= taken@);
    }
}

impl RetireLists {
    /// Files `obj` under the epoch value `raw` read from the global epoch:
    /// in the list `raw` when `raw` is an epoch, as every value the
    /// collector stores there is.
    pub fn file(&mut self, raw: usize, obj: usize)
        ensures
            final(self)@ == lists_after_retire(old(self)@, (raw % EPOCHS) as int, obj),
            raw < EPOCHS ==> final(self)@ == lists_after_retire(old(self)@, raw as int, obj),
    {
        self.push(epoch_slot(raw), obj);
    }

    /// The reclamation done by the advance out of epoch `g`: empties the list
    /// `reclaim_epoch(g)` into `freed`.
    pub fn reclaim(&mut self, g: usize, freed: &mut HashSet<usize>)
        requires
            g < EPOCHS,
        ensures
            final(self)@ == lists_after_reclaim(old(self)@, spec_reclaim_epoch(g as int)),
            final(freed)@ == freed_after_reclaim(
                old(freed)@,
                old(self)@,
                spec_reclaim_epoch(g as int),
            ),
    {
        self.drain_into(reclaim_epoch(g), freed);
    }
}

/// The garbage collector shared by up to `max_threads` threads, numbered
/// from 0.
pub struct Collector {
    global_epoch: AtomicUsize,
    max_threads: usize,
    local_epoch: Vec<AtomicUsize>,
    retire_lists: Mutex<RetireLists>,
    freed: Mutex<HashSet<usize>>,
}

/// Proof that a thread is pinned; handed back to `Collector::unpin`.
pub struct Guard {
    tid: usize,
}

impl Guard {
    /// The thread that pinned.
    pub closed spec fn thread(&self) -> usize {
        self.tid
    }
}

impl Collector {
    #[verifier::type_invariant]
    spec fn one_slot_per_thread(&self) -> bool {
        self.local_epoch@.len() == self.max_threads
    }

    /// The number of threads the collector was made for.
    pub closed spec fn thread_count(&self) -> nat {
        self.max_threads as nat
    }

    /// The global epoch the collector was created with.
    pub closed spec fn initial_epoch(&self) -> usize {
        atomic_usize_initial(self.global_epoch)
    }

    /// The local epoch thread `t` was created with.
    pub closed spec fn initial_local(&self, t: int) -> usize {
        atomic_usize_initial(self.local_epoch@[t])
    }

    /// The retire lists the collector was created with.
    pub closed spec fn initial_lists(&self) -> Seq<Seq<usize>> {
        retire_lists_mutex_initial(self.retire_lists)
    }

    /// The freed objects the collector was created with.
    pub closed spec fn initial_freed(&self) -> Set<usize> {
        freed_mutex_initial(self.freed)
    }

    /// A collector for `max_threads` threads: epoch 0, no thread pinned,
    /// nothing retired, nothing freed.
    pub fn new(max_threads: usize) -> (c: Collector)
        ensures
            c.thread_count() == max_threads,
            c.initial_epoch() == 0,
            forall|t: int| 0 <= t < max_threads ==> #[trigger] c.initial_local(t) == SENTINEL,
            c.initial_lists() == seq![Seq::<usize>::empty(), Seq::<usize>::empty(), Seq::<usize>::empty()],
            c.initial_freed() == Set::<usize>::empty(),
    {
        let mut local_epoch: Vec<AtomicUsize> = Vec::with_capacity(max_threads);
        let mut i: usize = 0;
        while i < max_threads
            invariant
                i <= max_threads,
                local_epoch@.len() == i,
                forall|t: int| 0 <= t < i ==> atomic_usize_initial(#[trigger] local_epoch@[t]) == SENTINEL,
            decreases max_threads - i,
        {
            local_epoch.push(atomic_usize_new(SENTINEL));
            i = i + 1;
        }
        Collector {
            global_epoch: atomic_usize_new(0),
            max_threads,
            local_epoch,
            retire_lists: mutex_new_retire_lists(RetireLists::new()),
            freed: mutex_new_freed(HashSet::new()),
        }
    }

    /// Thread `tid` enters a critical section: it publishes the global epoch
    /// it read as its local epoch, then issues a SeqCst fence.
    pub fn pin(&self, tid: usize) -> (guard: Guard)
        requires
            tid < self.thread_count(),
        ensures
            guard.thread() == tid,
    {
        proof {
            use_type_invariant(self);
        }
        let e = atomic_usize_load(&self.global_epoch, Ordering::Relaxed);
        atomic_usize_store(&self.local_epoch[tid], e, Ordering::Relaxed);
        atomic_fence(Ordering::SeqCst);
        Guard { tid }
    }

    /// The pinned thread leaves its critical section: it publishes the
    /// sentinel as its local epoch with Release.
    pub fn unpin(&self, guard: Guard)
        requires
            guard.thread() < self.thread_count(),
    {
        proof {
            use_type_invariant(self);
        }
        atomic_usize_store(&self.local_epoch[guard.tid], SENTINEL, Ordering::Release);
    }

    /// Retires `obj`: after a SeqCst fence it reads the global epoch and
    /// appends `obj` to that epoch's retire list.
    pub fn retire(&self, _tid: usize, obj: usize) {
        atomic_fence(Ordering::SeqCst);
        let epoch = atomic_usize_load(&self.global_epoch, Ordering::Relaxed);
        locked_file(&self.retire_lists, epoch, obj);
    }

    /// Whether `obj` has been freed.
    pub fn is_freed(&self, obj: usize) -> bool {
        locked_contains(&self.freed, obj)
    }

    /// Tries to advance the global epoch `g`.  It fails, returning `false`,
    /// as soon as it finds a thread that holds `g` back (see
    /// `blocks_advance`).  Otherwise it publishes the next epoch, frees every
    /// object of the list `reclaim_epoch(g)` and returns `true`.
    pub fn try_advance(&self) -> (advanced: bool)
        ensures
            self.thread_count() == 0 ==> advanced,
    {
        proof {
            use_type_invariant(self);
        }
        let g = atomic_usize_load(&self.global_epoch, Ordering::Relaxed);
        atomic_fence(Ordering::SeqCst);
        let mut tid: usize = 0;
        while tid < self.max_threads
            invariant
                tid <= self.max_threads,
                self.local_epoch@.len() == self.max_threads,
            decreases self.max_threads - tid,
        {
            let e = atomic_usize_load(&self.local_epoch[tid], Ordering::Relaxed);
            if blocks_advance(e, g) {
                return false;
            }
            tid = tid + 1;
        }
        atomic_fence(Ordering::Acquire);
        let current = epoch_slot(g);
        let next = next_epoch(current);
        atomic_usize_store(&self.global_epoch, next, Ordering::Release);
        locked_reclaim(&self.retire_lists, &self.freed, current);
        true
    }
}

/// The epochs rotate with period `EPOCHS`: three advances lead back to the
/// start, and no advance stays in place.
pub proof fn lemma_epochs_rotate(g: int)
    requires
        0 <= g < EPOCHS,
    ensures
        spec_next_epoch(g) != g,
        spec_next_epoch(spec_next_epoch(g)) != g,
        spec_next_epoch(spec_next_epoch(spec_next_epoch(g))) == g,
        0 <= spec_next_epoch(g) < EPOCHS,
{
}

/// An object retired in epoch `e` survives the advance out of `e` and is
/// freed by the advance after it.  Nothing freed is ever given back.
pub proof fn lemma_freed_by_second_advance(lists: Seq<Seq<usize>>, freed: Set<usize>, e: int, obj: usize)
    requires
        lists.len() == EPOCHS,
        0 <= e < EPOCHS,
        !freed.contains(obj),
        !lists[spec_reclaim_epoch(e)].contains(obj),
    ensures
        ({
            let retired = lists_after_retire(lists, e, obj);
            let first = spec_reclaim_epoch(e);
            let freed1 = freed_after_reclaim(freed, retired, first);
            let lists1 = lists_after_reclaim(retired, first);
            let second = spec_reclaim_epoch(spec_next_epoch(e));
            let freed2 = freed_after_reclaim(freed1, lists1, second);
            &&& !freed1.contains(obj)
            &&& freed2.contains(obj)
            &&& freed.subset_of(freed1)
            &&& freed1.subset_of(freed2)
        }),
{
    let retired = lists_after_retire(lists, e, obj);
    let first = spec_reclaim_epoch(e);
    let freed1 = freed_after_reclaim(freed, retired, first);
    let lists1 = lists_after_reclaim(retired, first);
    let second = spec_reclaim_epoch(spec_next_epoch(e));
    assert(first != e);
    assert(second == e);
    assert(retired[first] == lists[first]);
    assert(lists1[e] == retired[e]);
    assert(retired[e] == lists[e].push(obj));
    assert(retired[e][lists[e].len() as int] == obj);
    assert(lists1[second].contains(obj));
    assert(lists1[second].to_set().contains(obj));
}

/// A thread pinned at epoch `e` lets the global epoch advance out of `e`,
/// and then holds it at the next epoch until it unpins.
pub proof fn lemma_pinned_thread_holds_epoch(e: usize)
    requires
        e < EPOCHS,
    ensures
        !spec_blocks_advance(e, e),
        spec_blocks_advance(e, spec_next_epoch(e as int) as usize),
{
}

/// An advance that a pinned thread allows frees neither the list of that
/// thread's epoch nor that of the epoch after it: an object retired while
/// a thread stays pinned is not freed under it.
pub proof fn lemma_allowed_advance_spares_pinned(g: usize, local: usize)
    requires
        g < EPOCHS,
        local != SENTINEL,
        !spec_blocks_advance(local, g),
    ensures
        spec_reclaim_epoch(g as int) != local,
        spec_reclaim_epoch(g as int) != spec_next_epoch(local as int),
{
}

/// The collector's shared state together with each thread's view of it: the
/// state `pin`, `unpin`, `retire` and `try_advance` act on.  `retired_in`
/// records the epoch each retired object was filed under, `pending` the
/// object a thread has read the epoch for but not yet filed, and
/// `protected` the objects retired since a thread last pinned.
pub struct EbrProtocol {
    pub global: usize,
    pub locals: Map<int, usize>,
    pub lists: Seq<Seq<usize>>,
    pub freed: Set<usize>,
    pub retired_in: Map<usize, usize>,
    pub pending: Map<int, usize>,
    pub protected: Map<int, Set<usize>>,
}

/// Whether an object retired in epoch `retired_in` after a thread pinned at
/// `local` is where that thread's pin shields it, given the global epoch
/// `global`: while the global epoch equals the pinned one, in the pinned
/// epoch; one epoch later, in either of the two; two epochs later (the pin
/// was published with a stale epoch, and the global epoch cannot move
/// again), in the current one.
pub open spec fn shielded(local: usize, global: usize, retired_in: usize) -> bool {
    if global == local {
        retired_in == local
    } else if global as int == spec_next_epoch(local as int) {
        retired_in == local || retired_in == global
    } else {
        retired_in == global
    }
}

impl EbrProtocol {
    /// A fresh collector used by the threads in `threads`.
    pub open spec fn initial(threads: Set<int>) -> EbrProtocol {
        EbrProtocol {
            global: 0,
            locals: Map::new(|t: int| threads.contains(t), |t: int| SENTINEL),
            lists: seq![Seq::empty(), Seq::empty(), Seq::empty()],
            freed: Set::empty(),
            retired_in: Map::empty(),
            pending: Map::empty(),
            protected: Map::new(|t: int| threads.contains(t), |t: int| Set::empty()),
        }
    }

    pub open spec fn pinned(self, t: int) -> bool {
        self.locals.contains_key(t) && self.locals[t] != SENTINEL
    }

    /// `pin` by the unpinned thread `t`, publishing the epoch `e` it read,
    /// which may since have been left behind.
    pub open spec fn can_pin(self, t: int, e: usize) -> bool {
        &&& self.locals.contains_key(t)
        &&& self.locals[t] == SENTINEL
        &&& e < EPOCHS
    }

    pub open spec fn pin(self, t: int, e: usize) -> EbrProtocol {
        EbrProtocol {
            locals: self.locals.insert(t, e),
            protected: self.protected.insert(t, Set::empty()),
            ..self
        }
    }

    /// `unpin` by the pinned thread `t`.
    pub open spec fn unpin(self, t: int) -> EbrProtocol {
        EbrProtocol { locals: self.locals.insert(t, SENTINEL), ..self }
    }

    /// The first half of `retire` by `t`: it reads the global epoch for the
    /// fresh object `obj`.  Every pinned thread is now protected from it.
    pub open spec fn can_read_epoch(self, t: int, obj: usize) -> bool {
        &&& self.locals.contains_key(t)
        &&& !self.pending.contains_key(t)
        &&& !self.retired_in.contains_key(obj)
    }

    pub open spec fn read_epoch(self, t: int, obj: usize) -> EbrProtocol {
        EbrProtocol {
            retired_in: self.retired_in.insert(obj, self.global),
            pending: self.pending.insert(t, obj),
            protected: Map::new(
                |u: int| self.protected.contains_key(u),
                |u: int|
                    if self.pinned(u) {
                        self.protected[u].insert(obj)
                    } else {
                        self.protected[u]
                    },
            ),
            ..self
        }
    }

    /// The second half of `retire` by `t`: the object is filed in the list
    /// of the epoch read.
    pub open spec fn file(self, t: int) -> EbrProtocol {
        let obj = self.pending[t];
        EbrProtocol {
            lists: lists_after_retire(self.lists, self.retired_in[obj] as int, obj),
            pending: self.pending.remove(t),
            ..self
        }
    }

    /// `try_advance` succeeds: no thread holds the global epoch back.
    pub open spec fn can_advance(self) -> bool {
        forall|t: int| #[trigger]
            self.locals.contains_key(t) ==> !spec_blocks_advance(self.locals[t], self.global)
    }

    pub open spec fn advance(self) -> EbrProtocol {
        self.advance_from(self.global)
    }

    /// The second half of an advance that read the global epoch `g` and
    /// found no thread holding it back: it publishes the epoch after `g`
    /// and frees the list `spec_reclaim_epoch(g)`.
    pub open spec fn advance_from(self, g: usize) -> EbrProtocol {
        let old = spec_reclaim_epoch(g as int);
        EbrProtocol {
            global: spec_next_epoch(g as int) as usize,
            lists: lists_after_reclaim(self.lists, old),
            freed: freed_after_reclaim(self.freed, self.lists, old),
            ..self
        }
    }


    /// One step of some thread.  An advance is one step: no thread publishes
    /// a pin between the check of the local epochs and the publication of
    /// the next epoch.  `lemma_ebr_pin_inside_advance_frees_protected` shows
    /// a schedule with such a pin under which a protected object is freed.
    pub open spec fn step(self, post: EbrProtocol) -> bool {
        ||| exists|t: int, e: usize| self.can_pin(t, e) && post == self.pin(t, e)
        ||| exists|t: int| self.pinned(t) && post == self.unpin(t)
        ||| exists|t: int, obj: usize| self.can_read_epoch(t, obj) && post == self.read_epoch(t, obj)
        ||| exists|t: int| self.pending.contains_key(t) && post == self.file(t)
        ||| self.can_advance() && post == self.advance()
    }

    /// Objects in a list were filed under that list's epoch and are not
    /// freed; pending objects are in no list and not freed; every protected
    /// object of a pinned thread is shielded by its pin and not freed.
    pub open spec fn inv(self) -> bool {
        &&& self.global < EPOCHS
        &&& self.lists.len() == EPOCHS
        &&& self.locals.dom() == self.protected.dom()
        &&& forall|t: int| #[trigger]
            self.locals.contains_key(t) ==> self.locals[t] == SENTINEL || self.locals[t] < EPOCHS
        &&& forall|o: usize| #[trigger] self.retired_in.contains_key(o) ==> self.retired_in[o] < EPOCHS
        &&& forall|o: usize| #[trigger] self.freed.contains(o) ==> self.retired_in.contains_key(o)
        &&& forall|x: int, o: usize|
            0 <= x < EPOCHS && #[trigger] self.lists[x].contains(o) ==> {
                &&& self.retired_in.contains_key(o)
                &&& self.retired_in[o] == x
                &&& !self.freed.contains(o)
            }
        &&& forall|t: int| #[trigger]
            self.pending.contains_key(t) ==> {
                &&& self.retired_in.contains_key(self.pending[t])
                &&& !self.freed.contains(self.pending[t])
                &&& forall|x: int| 0 <= x < EPOCHS ==> !(#[trigger] self.lists[x].contains(self.pending[t]))
            }
        &&& forall|t: int, u: int|
            #![trigger self.pending[t], self.pending[u]]
            self.pending.contains_key(t) && self.pending.contains_key(u) && t != u ==> self.pending[t]
                != self.pending[u]
        &&& forall|t: int, o: usize|
            self.pinned(t) && #[trigger] self.protected[t].contains(o) ==> {
                &&& self.retired_in.contains_key(o)
                &&& !self.freed.contains(o)
                &&& shielded(self.locals[t], self.global, self.retired_in[o])
            }
    }
}

/// The collector starts out satisfying its invariant.
pub proof fn lemma_ebr_initial(threads: Set<int>)
    ensures
        EbrProtocol::initial(threads).inv(),
{
}

proof fn lemma_ebr_pin_keeps_inv(pre: EbrProtocol, t: int, e: usize)
    requires
        pre.inv(),
        pre.can_pin(t, e),
    ensures
        pre.pin(t, e).inv(),
{
    let post = pre.pin(t, e);
    assert(post.locals.dom() =~= post.protected.dom());
    assert forall|u: int, o: usize|
        post.pinned(u) && #[trigger] post.protected[u].contains(o) implies {
        &&& post.retired_in.contains_key(o)
        &&& !post.freed.contains(o)
        &&& shielded(post.locals[u], post.global, post.retired_in[o])
    } by {
        assert(u != t);
        assert(pre.pinned(u));
        assert(pre.protected[u].contains(o));
    }
}

proof fn lemma_ebr_unpin_keeps_inv(pre: EbrProtocol, t: int)
    requires
        pre.inv(),
        pre.pinned(t),
    ensures
        pre.unpin(t).inv(),
{
    let post = pre.unpin(t);
    assert(post.locals.dom() =~= post.protected.dom());
    assert forall|u: int, o: usize|
        post.pinned(u) && #[trigger] post.protected[u].contains(o) implies {
        &&& post.retired_in.contains_key(o)
        &&& !post.freed.contains(o)
        &&& shielded(post.locals[u], post.global, post.retired_in[o])
    } by {
        assert(u != t);
        assert(pre.pinned(u));
    }
}

proof fn lemma_ebr_read_epoch_keeps_inv(pre: EbrProtocol, t: int, obj: usize)
    requires
        pre.inv(),
        pre.can_read_epoch(t, obj),
    ensures
        pre.read_epoch(t, obj).inv(),
{
    let post = pre.read_epoch(t, obj);
    assert(post.locals.dom() =~= post.protected.dom());
    assert forall|x: int, o: usize|
        0 <= x < EPOCHS && #[trigger] post.lists[x].contains(o) implies {
        &&& post.retired_in.contains_key(o)
        &&& post.retired_in[o] == x
        &&& !post.freed.contains(o)
    } by {
        assert(pre.retired_in.contains_key(o));
    }
    assert forall|u: int| #[trigger]
        post.pending.contains_key(u) implies {
        &&& post.retired_in.contains_key(post.pending[u])
        &&& !post.freed.contains(post.pending[u])
        &&& forall|x: int| 0 <= x < EPOCHS ==> !(#[trigger] post.lists[x].contains(post.pending[u]))
    } by {
        if u == t {
            assert forall|x: int| 0 <= x < EPOCHS implies !(#[trigger] post.lists[x].contains(obj)) by {
                if pre.lists[x].contains(obj) {
                    assert(pre.retired_in.contains_key(obj));
                }
            }
        }
    }
    assert forall|u: int, v: int|
        #![trigger post.pending[u], post.pending[v]]
        post.pending.contains_key(u) && post.pending.contains_key(v) && u != v implies post.pending[u]
            != post.pending[v] by {
        if u == t {
            assert(pre.retired_in.contains_key(pre.pending[v]));
        } else if v == t {
            assert(pre.retired_in.contains_key(pre.pending[u]));
        }
    }
    assert forall|u: int, o: usize|
        post.pinned(u) && #[trigger] post.protected[u].contains(o) implies {
        &&& post.retired_in.contains_key(o)
        &&& !post.freed.contains(o)
        &&& shielded(post.locals[u], post.global, post.retired_in[o])
    } by {
        assert(pre.pinned(u));
        if o != obj {
            assert(pre.protected[u].contains(o));
        } else {
            lemma_pinned_epochs(pre.locals[u], pre.global);
        }
    }
}

/// With both epochs below `EPOCHS`, the global epoch is the pinned one, the
/// one after it, or the one after that.
proof fn lemma_pinned_epochs(local: usize, global: usize)
    requires
        local < EPOCHS,
        global < EPOCHS,
    ensures
        shielded(local, global, global),
        global != local && global as int != spec_next_epoch(local as int) ==> global as int
            == spec_reclaim_epoch(local as int),
{
}

proof fn lemma_ebr_file_keeps_inv(pre: EbrProtocol, t: int)
    requires
        pre.inv(),
        pre.pending.contains_key(t),
    ensures
        pre.file(t).inv(),
{
    let post = pre.file(t);
    let obj = pre.pending[t];
    let r = pre.retired_in[obj] as int;
    assert forall|x: int, o: usize|
        0 <= x < EPOCHS && #[trigger] post.lists[x].contains(o) implies {
        &&& post.retired_in.contains_key(o)
        &&& post.retired_in[o] == x
        &&& !post.freed.contains(o)
    } by {
        if x == r {
            if o != obj {
                assert(pre.lists[x].contains(o)) by {
                    let k = choose|k: int| 0 <= k < post.lists[x].len() && post.lists[x][k] == o;
                    assert(pre.lists[x][k] == o);
                }
            }
        } else {
            assert(post.lists[x] == pre.lists[x]);
        }
    }
    assert forall|u: int| #[trigger]
        post.pending.contains_key(u) implies {
        &&& post.retired_in.contains_key(post.pending[u])
        &&& !post.freed.contains(post.pending[u])
        &&& forall|x: int| 0 <= x < EPOCHS ==> !(#[trigger] post.lists[x].contains(post.pending[u]))
    } by {
        assert(u != t);
        assert(pre.pending.contains_key(u));
        let ou = pre.pending[u];
        assert(ou != obj);
        assert forall|x: int| 0 <= x < EPOCHS implies !(#[trigger] post.lists[x].contains(ou)) by {
            if x == r {
                assert(post.lists[x] == pre.lists[x].push(obj));
                if post.lists[x].contains(ou) {
                    let k = choose|k: int| 0 <= k < post.lists[x].len() && post.lists[x][k] == ou;
                    if k < pre.lists[x].len() {
                        assert(pre.lists[x][k] == ou);
                        assert(pre.lists[x].contains(pre.pending[u]));
                    } else {
                        assert(post.lists[x][k] == obj);
                    }
                }
            } else {
                assert(post.lists[x] == pre.lists[x]);
                assert(!pre.lists[x].contains(pre.pending[u]));
            }
        }
    }
    assert forall|u: int, v: int|
        #![trigger post.pending[u], post.pending[v]]
        post.pending.contains_key(u) && post.pending.contains_key(v) && u != v implies post.pending[u]
            != post.pending[v] by {
        assert(pre.pending[u] != pre.pending[v]);
    }
    assert forall|u: int, o: usize|
        post.pinned(u) && #[trigger] post.protected[u].contains(o) implies {
        &&& post.retired_in.contains_key(o)
        &&& !post.freed.contains(o)
        &&& shielded(post.locals[u], post.global, post.retired_in[o])
    } by {
        assert(pre.pinned(u));
    }
}

proof fn lemma_ebr_advance_keeps_inv(pre: EbrProtocol)
    requires
        pre.inv(),
        pre.can_advance(),
    ensures
        pre.advance().inv(),
{
    let post = pre.advance();
    let old = spec_reclaim_epoch(pre.global as int);
    assert forall|x: int, o: usize|
        0 <= x < EPOCHS && #[trigger] post.lists[x].contains(o) implies {
        &&& post.retired_in.contains_key(o)
        &&& post.retired_in[o] == x
        &&& !post.freed.contains(o)
    } by {
        assert(x != old);
        assert(post.lists[x] == pre.lists[x]);
        if pre.lists[old].contains(o) {
            assert(pre.retired_in[o] == old);
        }
    }
    assert forall|u: int| #[trigger]
        post.pending.contains_key(u) implies {
        &&& post.retired_in.contains_key(post.pending[u])
        &&& !post.freed.contains(post.pending[u])
        &&& forall|x: int| 0 <= x < EPOCHS ==> !(#[trigger] post.lists[x].contains(post.pending[u]))
    } by {
        let ou = pre.pending[u];
        assert(!pre.lists[old].contains(ou));
        assert forall|x: int| 0 <= x < EPOCHS implies !(#[trigger] post.lists[x].contains(ou)) by {
            if x != old {
                assert(post.lists[x] == pre.lists[x]);
            }
        }
    }
    assert forall|u: int, o: usize|
        post.pinned(u) && #[trigger] post.protected[u].contains(o) implies {
        &&& post.retired_in.contains_key(o)
        &&& !post.freed.contains(o)
        &&& shielded(post.locals[u], post.global, post.retired_in[o])
    } by {
        assert(pre.pinned(u));
        assert(pre.locals.contains_key(u));
        assert(pre.locals[u] == pre.global);
        assert(pre.retired_in[o] == pre.global);
        if pre.lists[old].contains(o) {
            assert(pre.retired_in[o] == old);
        }
    }
}

/// Every step of every thread keeps the invariant.
pub proof fn lemma_ebr_step_keeps_inv(pre: EbrProtocol, post: EbrProtocol)
    requires
        pre.inv(),
        pre.step(post),
    ensures
        post.inv(),
{
    if exists|t: int, e: usize| pre.can_pin(t, e) && post == pre.pin(t, e) {
        let (t, e) = choose|t: int, e: usize| pre.can_pin(t, e) && post == pre.pin(t, e);
        lemma_ebr_pin_keeps_inv(pre, t, e);
    } else if exists|t: int| pre.pinned(t) && post == pre.unpin(t) {
        let t = choose|t: int| pre.pinned(t) && post == pre.unpin(t);
        lemma_ebr_unpin_keeps_inv(pre, t);
    } else if exists|t: int, obj: usize| pre.can_read_epoch(t, obj) && post == pre.read_epoch(t, obj) {
        let (t, obj) = choose|t: int, obj: usize|
            pre.can_read_epoch(t, obj) && post == pre.read_epoch(t, obj);
        lemma_ebr_read_epoch_keeps_inv(pre, t, obj);
    } else if exists|t: int| pre.pending.contains_key(t) && post == pre.file(t) {
        let t = choose|t: int| pre.pending.contains_key(t) && post == pre.file(t);
        lemma_ebr_file_keeps_inv(pre, t);
    } else {
        lemma_ebr_advance_keeps_inv(pre);
    }
}

/// Safety: an object retired after a thread pinned is not freed while that
/// thread stays pinned.
pub proof fn lemma_ebr_pinned_objects_not_freed(s: EbrProtocol, t: int, obj: usize)
    requires
        s.inv(),
        s.pinned(t),
        s.protected[t].contains(obj),
    ensures
        !s.freed.contains(obj),
{
}

/// Pinning and unpinning touch neither the global epoch, nor the retire
/// lists, nor the freed objects.
pub proof fn lemma_ebr_pin_unpin_frame(s: EbrProtocol, t: int, e: usize)
    ensures
        s.pin(t, e).global == s.global,
        s.pin(t, e).lists == s.lists,
        s.pin(t, e).freed == s.freed,
        s.unpin(t).global == s.global,
        s.unpin(t).lists == s.lists,
        s.unpin(t).freed == s.freed,
{
}

/// Why an advance is one step of `EbrProtocol`: when the check and the
/// publication of an advance are split, with a pin published between them,
/// an object retired under that pin is freed while the pin stands.  Thread
/// 0 reads epoch 0 for its pin; two advances take the global epoch to 2; a
/// third advance reads 2 and finds thread 0 unpinned; thread 0 publishes
/// its pin at 0 and retires object 99, filed under 2; the third advance
/// publishes epoch 0 and frees list 1; a fourth advance finds thread 0
/// pinned at the current epoch 0 and frees list 2, and with it object 99.
pub proof fn lemma_ebr_pin_inside_advance_frees_protected()
    ensures
        ({
            let s0 = EbrProtocol::initial(set![0int]);
            let s1 = s0.advance();
            let s2 = s1.advance();
            let s3 = s2.pin(0, 0);
            let s4 = s3.read_epoch(0, 99);
            let s5 = s4.file(0);
            let s6 = s5.advance_from(s2.global);
            let s7 = s6.advance();
            &&& s0.can_advance() && s1.can_advance() && s2.can_advance()
            &&& s2.can_pin(0, 0) && s3.can_read_epoch(0, 99) && s4.pending.contains_key(0)
            &&& s6.can_advance()
            &&& s7.pinned(0)
            &&& s7.protected[0].contains(99)
            &&& s7.freed.contains(99)
        }),
{
    let s0 = EbrProtocol::initial(set![0int]);
    let s1 = s0.advance();
    let s2 = s1.advance();
    let s3 = s2.pin(0, 0);
    let s4 = s3.read_epoch(0, 99);
    let s5 = s4.file(0);
    let s6 = s5.advance_from(s2.global);
    let s7 = s6.advance();
    assert(s0.locals.contains_key(0));
    assert(s2.global == 2);
    assert(s2.locals[0] == SENTINEL);
    assert(s3.pinned(0));
    assert(s4.protected[0].contains(99));
    assert(s4.retired_in[99] == 2);
    assert(s5.lists[2] == seq![99usize]);
    assert(s6.global == 0);
    assert(s6.lists[2] == seq![99usize]);
    assert(s6.can_advance());
    assert(s7.lists[2].len() == 0);
    assert(seq![99usize][0] == 99);
    assert(seq![99usize].contains(99));
    assert(seq![99usize].to_set().contains(99)) by {
        broadcast use vstd::seq_lib::group_seq_properties;
    }
}

/// A thread pinned at an epoch other than the global one holds the epoch
/// back, wherever it stands among the threads: no advance can happen, and
/// whatever step any thread takes, the global epoch and the freed objects
/// stay as they are.
pub proof fn lemma_ebr_lagging_pin_blocks_advance(s: EbrProtocol, t: int)
    requires
        s.pinned(t),
        s.locals[t] != s.global,
    ensures
        !s.can_advance(),
        forall|post: EbrProtocol| #[trigger] s.step(post) ==> post.global == s.global && post.freed == s.freed,
{
    assert(spec_blocks_advance(s.locals[t], s.global));
    assert forall|post: EbrProtocol| #[trigger] s.step(post) implies post.global == s.global && post.freed
        == s.freed by {
        if exists|u: int, e: usize| s.can_pin(u, e) && post == s.pin(u, e) {
        } else if exists|u: int| s.pinned(u) && post == s.unpin(u) {
        } else if exists|u: int, obj: usize| s.can_read_epoch(u, obj) && post == s.read_epoch(u, obj) {
        } else if exists|u: int| s.pending.contains_key(u) && post == s.file(u) {
        } else {
            assert(s.can_advance());
        }
    }
}

/// Pinning and unpinning thread `t` publish into `t`'s slot alone: every
/// other thread's local epoch is left as it was, so one thread's unpin
/// never clears another's pin.
pub proof fn lemma_ebr_pin_unpin_own_slot(s: EbrProtocol, t: int, e: usize, u: int)
    requires
        s.locals.contains_key(t),
        u != t,
    ensures
        s.pin(t, e).locals[t] == e,
        s.unpin(t).locals[t] == SENTINEL,
        s.pin(t, e).locals[u] == s.locals[u],
        s.unpin(t).locals[u] == s.locals[u],
        s.pin(t, e).pinned(u) == s.pinned(u),
        s.unpin(t).pinned(u) == s.pinned(u),
{
}

/// Retiring files the object under the global epoch read, whatever the
/// retiring thread's own local epoch: the list of that epoch gains the
/// object, the other lists and the freed objects stay as they were, and
/// the object is freed by the second advance after, not the first.
pub proof fn lemma_ebr_retire_files_under_global(s: EbrProtocol, t: int, obj: usize)
    requires
        s.inv(),
        s.can_read_epoch(t, obj),
    ensures
        ({
            let filed = s.read_epoch(t, obj).file(t);
            &&& filed.lists[s.global as int] == s.lists[s.global as int].push(obj)
            &&& forall|x: int| 0 <= x < EPOCHS && x != s.global ==> #[trigger] filed.lists[x] == s.lists[x]
            &&& filed.freed == s.freed
            &&& !filed.advance().freed.contains(obj)
            &&& filed.advance().advance().freed.contains(obj)
        }),
{
    let filed = s.read_epoch(t, obj).file(t);
    let g = s.global as int;
    assert(s.read_epoch(t, obj).pending[t] == obj);
    assert(s.read_epoch(t, obj).retired_in[obj] == s.global);
    assert(!s.freed.contains(obj));
    if s.lists[spec_reclaim_epoch(g)].contains(obj) {
        assert(s.retired_in.contains_key(obj));
    }
    lemma_freed_by_second_advance(s.lists, s.freed, g, obj);
    assert(filed.advance().global as int == spec_next_epoch(g));
}

/// An advance out of epoch `g` frees the list two advances back and only
/// it: the lists of `g` and of the epoch after it keep every object, and
/// an object in neither the freed set nor the list two advances back stays
/// unfreed.
pub proof fn lemma_advance_spares_current_and_next(lists: Seq<Seq<usize>>, freed: Set<usize>, g: int, obj: usize)
    requires
        lists.len() == EPOCHS,
        0 <= g < EPOCHS,
    ensures
        lists_after_reclaim(lists, spec_reclaim_epoch(g))[g] == lists[g],
        lists_after_reclaim(lists, spec_reclaim_epoch(g))[spec_next_epoch(g)] == lists[spec_next_epoch(g)],
        lists_after_reclaim(lists, spec_reclaim_epoch(g))[spec_reclaim_epoch(g)].len() == 0,
        !freed.contains(obj) && !lists[spec_reclaim_epoch(g)].contains(obj) ==> !freed_after_reclaim(
            freed,
            lists,
            spec_reclaim_epoch(g),
        ).contains(obj),
        lists[spec_reclaim_epoch(g)].contains(obj) ==> freed_after_reclaim(
            freed,
            lists,
            spec_reclaim_epoch(g),
        ).contains(obj),
{
}

} // verus!
