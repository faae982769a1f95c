//! The shared-memory operations this crate is built from: loom's atomics,
//! fences and mutex.  Each function here performs one loom operation; the
//! value an operation reads from shared memory depends on what other threads
//! did, so a contract here states only what holds of every outcome.  loom
//! keeps its execution state only inside `loom::model`, so every operation
//! here must run there; outside it loom panics.

use vstd::prelude::*;
use loom::sync::atomic::{AtomicBool, AtomicUsize, Ordering};
use loom::sync::Mutex;
use std::collections::HashSet;
use crate::ebr::RetireLists;
use crate::ebr::EPOCHS;

verus! {

#[verifier::external_type_specification]
#[verifier::external_body]
pub struct ExLoomAtomicBool(AtomicBool);

#[verifier::external_type_specification]
#[verifier::external_body]
pub struct ExLoomAtomicUsize(AtomicUsize);

#[verifier::external_type_specification]
#[verifier::external_body]
#[verifier::reject_recursive_types(T)]
pub struct ExLoomMutex<T: ?Sized>(Mutex<T>);

/// The value an atomic bool was created with: the first entry of its
/// history, which no later store changes.
pub uninterp spec fn atomic_bool_initial(atomic: AtomicBool) -> bool;

/// The value an atomic usize was created with: the first entry of its
/// history, which no later store changes.
pub uninterp spec fn atomic_usize_initial(atomic: AtomicUsize) -> usize;

/// `loom::sync::atomic::AtomicBool::new`: a fresh atomic whose history
/// starts with `value`.
/// Left unsaid, as no argument shows it: the call panics outside
/// `loom::model` and when the model's branch limit is reached.
#[verifier::external_body]
pub(crate) fn atomic_bool_new(value: bool) -> (atomic: AtomicBool)
    ensures
        atomic_bool_initial(atomic) == value,
{
    AtomicBool::new(value)
}

/// `loom::sync::atomic::AtomicBool::compare_exchange`.  loom compares the
/// value it reads with `current`: on a match it writes `new` and returns
/// `Ok` of the value read, else `Err` of the value read.  So an `Ok` always
/// carries `current` and an `Err` always carries something else.
/// Left unsaid, as no argument shows it: the call panics outside
/// `loom::model` and when the model's branch limit is reached.
#[verifier::external_body]
pub(crate) fn atomic_bool_compare_exchange(
    atomic: &AtomicBool,
    current: bool,
    new: bool,
    success: Ordering,
    failure: Ordering,
) -> (outcome: Result<bool, bool>)
    ensures
        outcome matches Ok(v) ==> v == current,
        outcome matches Err(v) ==> v != current,
{
    atomic.compare_exchange(current, new, success, failure)
}

/// `loom::sync::atomic::AtomicBool::store`.
/// Left unsaid, as no argument shows it: the call panics outside
/// `loom::model` and when the model's branch limit is reached.
#[verifier::external_body]
pub(crate) fn atomic_bool_store(atomic: &AtomicBool, value: bool, order: Ordering) {
    atomic.store(value, order)
}

/// `loom::sync::atomic::AtomicUsize::new`: a fresh atomic whose history
/// starts with `value`.
/// Left unsaid, as no argument shows it: the call panics outside
/// `loom::model` and when the model's branch limit is reached.
#[verifier::external_body]
pub(crate) fn atomic_usize_new(value: usize) -> (atomic: AtomicUsize)
    ensures
        atomic_usize_initial(atomic) == value,
{
    AtomicUsize::new(value)
}

/// `loom::sync::atomic::AtomicUsize::load`.  Which stored value it returns
/// is decided by the schedule and the memory model, so nothing is stated.
/// Left unsaid, as no argument shows it: the call panics outside
/// `loom::model` and when the model's branch limit is reached.
#[verifier::external_body]
pub(crate) fn atomic_usize_load(atomic: &AtomicUsize, order: Ordering) -> usize {
    atomic.load(order)
}

/// `loom::sync::atomic::AtomicUsize::store`.
/// Left unsaid, as no argument shows it: the call panics outside
/// `loom::model` and when the model's branch limit is reached.
#[verifier::external_body]
pub(crate) fn atomic_usize_store(atomic: &AtomicUsize, value: usize, order: Ordering) {
    atomic.store(value, order)
}

/// `loom::sync::atomic::AtomicUsize::fetch_add`: adds `value` (wrapping)
/// and returns the previous value, which depends on the other threads.
/// Left unsaid, as no argument shows it: the call panics outside
/// `loom::model` and when the model's branch limit is reached.
#[verifier::external_body]
pub(crate) fn atomic_usize_fetch_add(atomic: &AtomicUsize, value: usize, order: Ordering) -> usize {
    atomic.fetch_add(value, order)
}

/// `loom::sync::atomic::fence`, which loom implements for the Acquire,
/// Release, AcqRel and SeqCst orderings and refuses, panicking, for the
/// others.
/// Left unsaid, as no argument shows it: the call panics outside
/// `loom::model` and when the model's branch limit is reached.
#[verifier::external_body]
pub(crate) fn atomic_fence(order: Ordering)
    requires
        order is Acquire || order is Release || order is AcqRel || order is SeqCst,
{
    loom::sync::atomic::fence(order)
}

/// The retire lists a mutex was created to guard.
pub uninterp spec fn retire_lists_mutex_initial(mutex: Mutex<RetireLists>) -> Seq<Seq<usize>>;

/// The set a mutex was created to guard.
pub uninterp spec fn freed_mutex_initial(mutex: Mutex<HashSet<usize>>) -> Set<usize>;

/// `loom::sync::Mutex::new` for retire lists: a mutex first guarding `lists`.
/// Left unsaid, as no argument shows it: the call panics outside
/// `loom::model` and when the model's branch limit is reached.
#[verifier::external_body]
pub(crate) fn mutex_new_retire_lists(lists: RetireLists) -> (mutex: Mutex<RetireLists>)
    ensures
        retire_lists_mutex_initial(mutex) == lists@,
{
    Mutex::new(lists)
}

/// `loom::sync::Mutex::new` for a set of freed objects: a mutex first
/// guarding `freed`.
/// Left unsaid, as no argument shows it: the call panics outside
/// `loom::model` and when the model's branch limit is reached.
#[verifier::external_body]
pub(crate) fn mutex_new_freed(freed: HashSet<usize>) -> (mutex: Mutex<HashSet<usize>>)
    ensures
        freed_mutex_initial(mutex) == freed@,
{
    Mutex::new(freed)
}

/// `loom::sync::Mutex::lock` on the retire lists, held only while the
/// verified `RetireLists::file` files `obj` under the epoch value `raw`; the
/// guard is dropped before it returns.  What the lists held depends on the
/// threads that held the mutex before, so nothing is stated of them.  loom's
/// `lock` always returns `Ok`; no guard leaves this function, so no thread
/// can lock a mutex it already holds.
/// Left unsaid, as no argument shows it: the call panics outside
/// `loom::model` and when the model's branch limit is reached.
#[verifier::external_body]
pub(crate) fn locked_file(lists: &Mutex<RetireLists>, raw: usize, obj: usize) {
    lists.lock().unwrap().file(raw, obj)
}

/// `loom::sync::Mutex::lock` on the freed set, held only while
/// `HashSet::contains` looks `obj` up.  What the set holds depends on the
/// threads that held the mutex before, so nothing is stated of the result.
/// Left unsaid, as no argument shows it: the call panics outside
/// `loom::model` and when the model's branch limit is reached.
#[verifier::external_body]
pub(crate) fn locked_contains(freed: &Mutex<HashSet<usize>>, obj: usize) -> bool {
    freed.lock().unwrap().contains(&obj)
}

/// `loom::sync::Mutex::lock` on the retire lists and then on the freed set,
/// both held only while the verified `RetireLists::reclaim` moves the list
/// the advance out of `g` frees into the set; the guards are dropped, the
/// freed set's first, before it returns.  The two mutexes guard values of
/// different types, so they are never one mutex, and no guard leaves this
/// function.
/// Left unsaid, as no argument shows it: the call panics outside
/// `loom::model` and when the model's branch limit is reached.
#[verifier::external_body]
pub(crate) fn locked_reclaim(lists: &Mutex<RetireLists>, freed: &Mutex<HashSet<usize>>, g: usize)
    requires
        g < EPOCHS,
{
    let mut lists = lists.lock().unwrap();
    let mut freed = freed.lock().unwrap();
    lists.reclaim(g, &mut freed)
}

} // verus!
