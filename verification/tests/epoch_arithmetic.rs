//! Plain-value parts of the collector: the epoch arithmetic, the advance
//! check and the retire lists.

use relaxed_memory_concurrency::ebr::{blocks_advance, epoch_slot, next_epoch, reclaim_epoch};
use relaxed_memory_concurrency::ebr::{RetireLists, EPOCHS, SENTINEL};
use relaxed_memory_concurrency::ticket_lock::{serves, successor};
use std::collections::HashSet;

#[test]
fn epochs_rotate_through_three() {
    assert_eq!(next_epoch(0), 1);
    assert_eq!(next_epoch(1), 2);
    assert_eq!(next_epoch(2), 0);
    assert_eq!(EPOCHS, 3);
}

#[test]
fn advance_reclaims_the_epoch_before() {
    assert_eq!(reclaim_epoch(0), 2);
    assert_eq!(reclaim_epoch(1), 0);
    assert_eq!(reclaim_epoch(2), 1);
}

#[test]
fn retired_object_freed_by_second_advance() {
    for e in 0..EPOCHS {
        assert_ne!(reclaim_epoch(e), e);
        assert_eq!(reclaim_epoch(next_epoch(e)), e);
    }
}

#[test]
fn only_pinned_threads_behind_block() {
    assert!(!blocks_advance(SENTINEL, 1));
    assert!(!blocks_advance(1, 1));
    assert!(blocks_advance(0, 1));
    assert!(blocks_advance(2, 1));
}

#[test]
fn epoch_slot_keeps_valid_epochs() {
    assert_eq!(epoch_slot(0), 0);
    assert_eq!(epoch_slot(2), 2);
    assert!(epoch_slot(7) < EPOCHS);
}

#[test]
fn drain_moves_one_list_into_freed() {
    let mut lists = RetireLists::new();
    lists.push(0, 10);
    lists.push(0, 11);
    lists.push(1, 20);
    let mut freed: HashSet<usize> = HashSet::new();
    freed.insert(5);
    lists.drain_into(0, &mut freed);
    assert!(freed.contains(&10));
    assert!(freed.contains(&11));
    assert!(freed.contains(&5));
    assert!(!freed.contains(&20));
    lists.drain_into(0, &mut freed);
    assert_eq!(freed.len(), 3);
    lists.drain_into(1, &mut freed);
    assert!(freed.contains(&20));
    assert_eq!(freed.len(), 4);
}

#[test]
fn ticket_successor_wraps() {
    assert_eq!(successor(0), 1);
    assert_eq!(successor(41), 42);
    assert_eq!(successor(usize::MAX), 0);
}

#[test]
fn file_uses_the_epoch_read() {
    let mut lists = RetireLists::new();
    lists.file(1, 7);
    lists.file(4, 8);
    let mut freed: HashSet<usize> = HashSet::new();
    lists.reclaim(2, &mut freed);
    assert!(freed.contains(&7));
    assert!(freed.contains(&8));
    assert_eq!(freed.len(), 2);
}

#[test]
fn reclaim_frees_the_list_two_advances_back() {
    let mut lists = RetireLists::new();
    lists.file(0, 1);
    lists.file(1, 2);
    lists.file(2, 3);
    let mut freed: HashSet<usize> = HashSet::new();
    lists.reclaim(0, &mut freed);
    assert!(freed.contains(&3));
    assert_eq!(freed.len(), 1);
    lists.reclaim(1, &mut freed);
    assert!(freed.contains(&1));
    assert!(!freed.contains(&2));
}

#[test]
fn serves_only_the_ticket_read() {
    assert!(serves(3, 3));
    assert!(!serves(3, 4));
}
