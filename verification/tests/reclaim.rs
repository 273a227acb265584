use queue::epoch::Reclaimer;
use queue::linked::AtomicQueue;

#[test]
fn collect_without_guards_releases_everything() {
    let mut r = Reclaimer::new();
    r.retire(4);
    r.retire(7);
    r.retire(9);
    assert_eq!(r.retired_count(), 3);
    let freed = r.collect();
    assert_eq!(freed, vec![4, 7, 9]);
    assert_eq!(r.retired_count(), 0);
}

#[test]
fn pinned_guard_defers_release() {
    let mut r = Reclaimer::new();
    let g = r.register();
    assert_eq!(r.guard_count(), 1);
    r.pin(g);
    r.retire(11);
    // the guard was pinned at the retirement epoch, so the sweep must
    // keep the index back
    let freed = r.collect();
    assert!(freed.is_empty());
    assert_eq!(r.retired_count(), 1);
    r.unpin(g);
    let freed = r.collect();
    assert_eq!(freed, vec![11]);
    assert_eq!(r.retired_count(), 0);
}

#[test]
fn repinned_guard_does_not_block_old_retirements() {
    let mut r = Reclaimer::new();
    let g = r.register();
    r.pin(g);
    r.retire(3);
    // the guard catches up with the epoch, the epoch advances, and the
    // guard re-pins afterwards: the old retirement becomes releasable
    assert!(r.try_advance());
    r.pin(g);
    let freed = r.collect();
    assert_eq!(freed, vec![3]);
    assert_eq!(r.retired_count(), 0);
}

#[test]
fn lagging_guard_blocks_the_epoch() {
    let mut r = Reclaimer::new();
    let g = r.register();
    r.pin(g);
    assert!(r.try_advance());
    // the guard is still pinned at the old epoch, so the epoch cannot
    // move again until it unpins
    assert!(!r.try_advance());
    r.unpin(g);
    assert!(r.try_advance());
}

#[test]
fn delayed_reader_keeps_retired_nodes_alive() {
    // one participant pins its guard and stalls, as a reader that has
    // loaded a node but not yet moved past it; another runs removals
    // that retire nodes. No retired node may be handed out for reuse
    // until the stalled reader unpins.
    let mut q: AtomicQueue<u32> = AtomicQueue::new();
    let reader = q.register_guard();
    q.pin_guard(reader);
    q.enqueue(1);
    q.enqueue(2);
    q.enqueue(3);
    assert_eq!(q.dequeue(), Some(1));
    assert_eq!(q.dequeue(), Some(2));
    // two dummies were retired while the reader was pinned; neither may
    // be reused yet
    assert_eq!(q.deferred_count(), 2);
    assert_eq!(q.reusable_count(), 0);
    q.enqueue(4);
    assert_eq!(q.deferred_count(), 2);
    assert_eq!(q.reusable_count(), 0);
    // the reader finishes and unpins: the next removal's sweep releases
    // the backlog, and later inserts reuse the released slots
    q.unpin_guard(reader);
    assert_eq!(q.dequeue(), Some(3));
    assert_eq!(q.deferred_count(), 0);
    assert_eq!(q.reusable_count(), 3);
    q.enqueue(5);
    assert_eq!(q.reusable_count(), 2);
    assert_eq!(q.dequeue(), Some(4));
    assert_eq!(q.dequeue(), Some(5));
    assert_eq!(q.dequeue(), None);
}

#[test]
fn churn_reuses_released_slots() {
    // with no guard pinned, each removal's sweep releases the dummy it
    // retired, and the next insert takes the slot back: the arena does
    // not grow with churn
    let mut q: AtomicQueue<u64> = AtomicQueue::new();
    for round in 0..50u64 {
        q.enqueue(round);
        assert_eq!(q.dequeue(), Some(round));
        assert_eq!(q.dequeue(), None);
    }
    assert_eq!(q.deferred_count(), 0);
    assert_eq!(q.reusable_count(), 1);
}
