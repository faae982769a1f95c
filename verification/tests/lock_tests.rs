//! Loom model checks of the spin lock and the ticket lock: two threads each
//! increment a counter under the lock (no update is lost), and a value
//! written in one critical section is visible in the next.

use relaxed_memory_concurrency::spin_lock::SpinLock;
use relaxed_memory_concurrency::ticket_lock::TicketLock;

use loom::sync::atomic::{AtomicUsize, Ordering};
use loom::sync::Arc;
use loom::thread;

fn spin_acquire(lock: &SpinLock) {
    while !lock.try_lock() {
        loom::hint::spin_loop();
    }
}

fn ticket_acquire(lock: &TicketLock) -> usize {
    let ticket = lock.take_ticket();
    while !lock.is_serving(ticket) {
        loom::hint::spin_loop();
    }
    ticket
}

#[test]
fn spin_lock_mutual_exclusion() {
    loom::model(|| {
        let lock = Arc::new(SpinLock::default());
        let counter = Arc::new(AtomicUsize::new(0));

        let l1 = lock.clone();
        let c1 = counter.clone();
        let t1 = thread::spawn(move || {
            spin_acquire(&l1);
            c1.store(c1.load(Ordering::Relaxed) + 1, Ordering::Relaxed);
            l1.unlock(());
        });

        let l2 = lock.clone();
        let c2 = counter.clone();
        let t2 = thread::spawn(move || {
            spin_acquire(&l2);
            c2.store(c2.load(Ordering::Relaxed) + 1, Ordering::Relaxed);
            l2.unlock(());
        });

        t1.join().unwrap();
        t2.join().unwrap();

        assert_eq!(counter.load(Ordering::Acquire), 2,
            "mutual exclusion: each increment is preserved, no lost updates");
    });
}

#[test]
fn spin_lock_message_passing() {
    loom::model(|| {
        let lock = Arc::new(SpinLock::default());
        let data = Arc::new(AtomicUsize::new(0));
        let ready = Arc::new(AtomicUsize::new(0));

        let l1 = lock.clone();
        let d1 = data.clone();
        let r1 = ready.clone();
        let t1 = thread::spawn(move || {
            spin_acquire(&l1);
            d1.store(42, Ordering::Relaxed);
            l1.unlock(());
            r1.store(1, Ordering::Release);
        });

        let l2 = lock.clone();
        let d2 = data.clone();
        let r2 = ready.clone();
        let t2 = thread::spawn(move || {
            while r2.load(Ordering::Acquire) == 0 {
                loom::hint::spin_loop();
            }
            spin_acquire(&l2);
            let val = d2.load(Ordering::Relaxed);
            assert_eq!(val, 42,
                "Release unlock + Acquire lock: critical section write is visible");
            l2.unlock(());
        });

        t1.join().unwrap();
        t2.join().unwrap();
    });
}

#[test]
fn ticket_lock_mutual_exclusion() {
    loom::model(|| {
        let lock = Arc::new(TicketLock::default());
        let counter = Arc::new(AtomicUsize::new(0));

        let l1 = lock.clone();
        let c1 = counter.clone();
        let t1 = thread::spawn(move || {
            let tok = ticket_acquire(&l1);
            c1.store(c1.load(Ordering::Relaxed) + 1, Ordering::Relaxed);
            l1.unlock(tok);
        });

        let l2 = lock.clone();
        let c2 = counter.clone();
        let t2 = thread::spawn(move || {
            let tok = ticket_acquire(&l2);
            c2.store(c2.load(Ordering::Relaxed) + 1, Ordering::Relaxed);
            l2.unlock(tok);
        });

        t1.join().unwrap();
        t2.join().unwrap();

        assert_eq!(counter.load(Ordering::Acquire), 2,
            "mutual exclusion: each increment is preserved, no lost updates");
    });
}

#[test]
fn ticket_lock_message_passing() {
    loom::model(|| {
        let lock = Arc::new(TicketLock::default());
        let data = Arc::new(AtomicUsize::new(0));
        let ready = Arc::new(AtomicUsize::new(0));

        let l1 = lock.clone();
        let d1 = data.clone();
        let r1 = ready.clone();
        let t1 = thread::spawn(move || {
            let tok = ticket_acquire(&l1);
            d1.store(42, Ordering::Relaxed);
            l1.unlock(tok);
            r1.store(1, Ordering::Release);
        });

        let l2 = lock.clone();
        let d2 = data.clone();
        let r2 = ready.clone();
        let t2 = thread::spawn(move || {
            while r2.load(Ordering::Acquire) == 0 {
                loom::hint::spin_loop();
            }
            let tok = ticket_acquire(&l2);
            let val = d2.load(Ordering::Relaxed);
            assert_eq!(val, 42,
                "Release unlock + Acquire lock: critical section write is visible");
            l2.unlock(tok);
        });

        t1.join().unwrap();
        t2.join().unwrap();
    });
}

#[test]
fn ticket_lock_serves_tickets_in_order() {
    loom::model(|| {
        let lock = TicketLock::new();
        let first = lock.take_ticket();
        let second = lock.take_ticket();
        assert_eq!(first, 0);
        assert_eq!(second, 1);
        assert!(lock.is_serving(first));
        assert!(!lock.is_serving(second));
        lock.unlock(first);
        assert!(!lock.is_serving(first));
        assert!(lock.is_serving(second));
    });
}

#[test]
fn spin_lock_second_attempt_fails_until_unlock() {
    loom::model(|| {
        let lock = SpinLock::new();
        assert!(lock.try_lock());
        assert!(!lock.try_lock());
        lock.unlock(());
        assert!(lock.try_lock());
    });
}
