//! The collector's laws on concrete schedules, run inside loom.

use relaxed_memory_concurrency::ebr::Collector;

#[test]
fn pinned_thread_lets_one_advance_then_holds() {
    loom::model(|| {
        let c = Collector::new(2);
        let g = c.pin(1);
        assert!(c.try_advance(), "pinned at 0: 0 -> 1 allowed");
        assert!(!c.try_advance(), "pinned at 0: 1 -> 2 held back");
        assert!(!c.try_advance(), "still held back");
        c.unpin(g);
        assert!(c.try_advance(), "unpinned: 1 -> 2");
    });
}

#[test]
fn object_retired_while_pinned_survives_until_unpin() {
    loom::model(|| {
        let c = Collector::new(2);
        let g = c.pin(0);
        c.retire(0, 7);
        assert!(c.try_advance());
        assert!(!c.try_advance());
        assert!(!c.is_freed(7), "freed while the retiring thread was pinned");
        c.unpin(g);
        assert!(c.try_advance());
        assert!(c.is_freed(7), "freed two advances after its retirement");
    });
}

#[test]
fn unpinned_collector_advances_freely() {
    loom::model(|| {
        let c = Collector::new(3);
        for _ in 0..6 {
            assert!(c.try_advance());
        }
        assert!(!c.is_freed(1));
    });
}
