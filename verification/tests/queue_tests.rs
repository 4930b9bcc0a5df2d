use netstring::queue::BoundedQueue;

#[test]
fn push_until_capacity_then_reject() {
    let mut q: BoundedQueue<u32> = BoundedQueue::new(3);
    assert_eq!(q.push(1), Ok(()));
    assert_eq!(q.push(2), Ok(()));
    assert_eq!(q.push(3), Ok(()));
    // The full-queue policy is rejection: the item comes back and nothing
    // already queued is dropped or overwritten.
    assert_eq!(q.push(4), Err(4));
    assert_eq!(q.drain(), vec![1, 2, 3]);
}

#[test]
fn drain_returns_in_insertion_order_and_empties() {
    let mut q: BoundedQueue<&str> = BoundedQueue::new(8);
    q.push("a").unwrap();
    q.push("b").unwrap();
    q.push("c").unwrap();
    assert_eq!(q.drain(), vec!["a", "b", "c"]);
    assert_eq!(q.len(), 0);
}

#[test]
fn drain_on_empty_returns_empty_without_waiting() {
    let mut q: BoundedQueue<u8> = BoundedQueue::new(4);
    assert_eq!(q.drain(), Vec::<u8>::new());
}

#[test]
fn queue_is_reusable_after_drain() {
    let mut q: BoundedQueue<u32> = BoundedQueue::new(2);
    q.push(1).unwrap();
    q.push(2).unwrap();
    assert_eq!(q.push(3), Err(3));
    assert_eq!(q.drain(), vec![1, 2]);
    assert_eq!(q.push(3), Ok(()));
    assert_eq!(q.drain(), vec![3]);
}

#[test]
fn zero_capacity_rejects_every_push() {
    let mut q: BoundedQueue<u32> = BoundedQueue::new(0);
    assert_eq!(q.push(7), Err(7));
    assert_eq!(q.drain(), Vec::<u32>::new());
}

#[test]
fn capacity_is_fixed() {
    let mut q: BoundedQueue<u32> = BoundedQueue::new(5);
    assert_eq!(q.cap(), 5);
    q.push(1).unwrap();
    let _ = q.drain();
    assert_eq!(q.cap(), 5);
}

#[test]
fn interleaved_producers_keep_per_producer_order() {
    // Two producers' pushes interleaved under mutual exclusion: the drain
    // holds every successfully pushed item exactly once, and each producer's
    // items appear in its own insertion order.
    let mut q: BoundedQueue<(u8, u32)> = BoundedQueue::new(16);
    let producer_a = [(1u8, 10u32), (1, 11), (1, 12)];
    let producer_b = [(2u8, 20u32), (2, 21), (2, 22)];
    for i in 0..3 {
        q.push(producer_a[i]).unwrap();
        q.push(producer_b[i]).unwrap();
    }
    let drained = q.drain();
    assert_eq!(drained.len(), 6);
    let from_a: Vec<u32> = drained.iter().filter(|t| t.0 == 1).map(|t| t.1).collect();
    let from_b: Vec<u32> = drained.iter().filter(|t| t.0 == 2).map(|t| t.1).collect();
    assert_eq!(from_a, vec![10, 11, 12]);
    assert_eq!(from_b, vec![20, 21, 22]);
}
