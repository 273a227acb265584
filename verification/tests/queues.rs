use queue::linked::AtomicQueue;
use queue::seg::{IntoIter, SegQueue, BLOCK_CAP};

#[test]
fn linked_concrete_scenario() {
    let mut q: AtomicQueue<i32> = AtomicQueue::new();
    q.enqueue(1);
    q.enqueue(2);
    assert_eq!(q.dequeue(), Some(1));
    q.enqueue(3);
    assert_eq!(q.dequeue(), Some(2));
    assert_eq!(q.dequeue(), Some(3));
    assert_eq!(q.dequeue(), None);
}

#[test]
fn seg_concrete_scenario() {
    let mut q: SegQueue<i32> = SegQueue::new();
    q.push(1);
    q.push(2);
    assert_eq!(q.pop(), Some(1));
    q.push(3);
    assert_eq!(q.pop(), Some(2));
    assert_eq!(q.pop(), Some(3));
    assert_eq!(q.pop(), None);
}

#[test]
fn linked_fifo_order() {
    let mut q: AtomicQueue<usize> = AtomicQueue::new();
    for i in 0..50usize {
        q.enqueue(i);
    }
    for i in 0..50usize {
        assert_eq!(q.dequeue(), Some(i));
    }
    assert_eq!(q.dequeue(), None);
    assert!(q.is_empty());
}

#[test]
fn seg_fifo_order() {
    let mut q: SegQueue<usize> = SegQueue::new();
    for i in 0..50usize {
        q.push(i);
    }
    for i in 0..50usize {
        assert_eq!(q.pop(), Some(i));
    }
    assert_eq!(q.pop(), None);
    assert!(q.is_empty());
}

#[test]
fn seg_boundary_crossing() {
    // three full blocks and a bit more, so every block boundary is
    // crossed by both the pushing and the popping side
    let count = 3 * BLOCK_CAP + 5;
    let mut q: SegQueue<usize> = SegQueue::new();
    for i in 0..count {
        q.push(i);
        assert_eq!(q.len(), i + 1);
    }
    let mut popped = 0usize;
    for i in 0..count {
        assert_eq!(q.pop(), Some(i));
        popped += 1;
        assert_eq!(q.len(), count - popped);
    }
    assert_eq!(popped, count);
    assert_eq!(q.pop(), None);
    assert!(q.is_empty());
    assert_eq!(q.len(), 0);
}

#[test]
fn seg_conservation_multiset() {
    // two producers' disjoint tagged ranges, interleaved; the drained
    // multiset is exactly their union
    let mut q: SegQueue<u64> = SegQueue::new();
    let a: Vec<u64> = (0..40).map(|i| 1000 + i).collect();
    let b: Vec<u64> = (0..40).map(|i| 2000 + i).collect();
    for i in 0..40 {
        q.push(a[i]);
        q.push(b[i]);
    }
    let mut out = Vec::new();
    while let Some(v) = q.pop() {
        out.push(v);
    }
    assert_eq!(out.len(), 80);
    let mut expected: Vec<u64> = a.iter().chain(b.iter()).copied().collect();
    expected.sort();
    out.sort();
    assert_eq!(out, expected);
}

#[test]
fn linked_conservation_multiset() {
    let mut q: AtomicQueue<u64> = AtomicQueue::new();
    for i in 0..30 {
        q.enqueue(100 + i);
        q.enqueue(500 + i);
    }
    let mut out = Vec::new();
    while let Some(v) = q.dequeue() {
        out.push(v);
    }
    assert_eq!(out.len(), 60);
    let mut expected: Vec<u64> = (0..30).map(|i| 100 + i).chain((0..30).map(|i| 500 + i)).collect();
    expected.sort();
    out.sort();
    assert_eq!(out, expected);
}

#[test]
fn seg_quiescent_consistency() {
    let mut q: SegQueue<i32> = SegQueue::new();
    assert_eq!(q.is_empty(), q.len() == 0);
    q.push(7);
    assert_eq!(q.is_empty(), q.len() == 0);
    for i in 0..BLOCK_CAP as i32 {
        q.push(i);
    }
    assert_eq!(q.is_empty(), q.len() == 0);
    while q.pop().is_some() {}
    assert_eq!(q.is_empty(), q.len() == 0);
    assert!(q.is_empty());
}

#[test]
fn seg_into_iter_drains_in_order() {
    let mut q: SegQueue<usize> = SegQueue::new();
    for i in 0..(BLOCK_CAP + 3) {
        q.push(i);
    }
    let mut it: IntoIter<usize> = q.into_iter();
    for i in 0..(BLOCK_CAP + 3) {
        assert_eq!(it.next(), Some(i));
    }
    assert_eq!(it.next(), None);
}

#[test]
fn default_queues_are_empty() {
    let mut lq: AtomicQueue<u8> = AtomicQueue::default();
    assert!(lq.is_empty());
    assert_eq!(lq.dequeue(), None);
    let mut sq: SegQueue<u8> = SegQueue::default();
    assert!(sq.is_empty());
    assert_eq!(sq.len(), 0);
    assert_eq!(sq.pop(), None);
}

#[test]
fn queues_carry_owned_values() {
    // values are moved in and out, never copied
    let mut q: SegQueue<String> = SegQueue::new();
    q.push(String::from("first"));
    q.push(String::from("second"));
    assert_eq!(q.pop().as_deref(), Some("first"));
    assert_eq!(q.pop().as_deref(), Some("second"));
    assert_eq!(q.pop(), None);
}

#[test]
fn seg_interleaved_across_boundaries() {
    // keep values in flight while the head and tail walk through
    // several blocks, so pops repeatedly cross behind a farther tail
    let mut q: SegQueue<usize> = SegQueue::new();
    let mut next_in = 0usize;
    let mut next_out = 0usize;
    for _ in 0..200 {
        q.push(next_in);
        next_in += 1;
        q.push(next_in);
        next_in += 1;
        assert_eq!(q.pop(), Some(next_out));
        next_out += 1;
        assert_eq!(q.len(), next_in - next_out);
    }
    while let Some(v) = q.pop() {
        assert_eq!(v, next_out);
        next_out += 1;
    }
    assert_eq!(next_out, next_in);
    assert!(q.is_empty());
}
