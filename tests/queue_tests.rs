use lockfree_queue::Queue;

#[test]
fn test_single_thread() {
    let mut queue = Queue::new();
    queue.enqueue(10);
    assert_eq!(queue.dequeue(), Some(10));
    assert_eq!(queue.dequeue(), None);

    queue.enqueue(11);
    queue.enqueue(12);
    queue.enqueue(13);
    assert_eq!(queue.dequeue(), Some(11));
    assert_eq!(queue.dequeue(), Some(12));
    assert_eq!(queue.dequeue(), Some(13));
    assert_eq!(queue.dequeue(), None);

    queue.enqueue(14);
    queue.enqueue(15);
    assert_eq!(queue.dequeue(), Some(14));
    queue.enqueue(16);
    assert_eq!(queue.dequeue(), Some(15));
    assert_eq!(queue.dequeue(), Some(16));
    assert_eq!(queue.dequeue(), None);
}

#[test]
fn one_value_then_empty() {
    let mut queue = Queue::new();
    queue.enqueue(10);
    assert_eq!(queue.dequeue(), Some(10));
    assert_eq!(queue.dequeue(), None);
}

#[test]
fn three_values_in_order() {
    let mut queue = Queue::new();
    queue.enqueue(11);
    queue.enqueue(12);
    queue.enqueue(13);
    assert_eq!(queue.dequeue(), Some(11));
    assert_eq!(queue.dequeue(), Some(12));
    assert_eq!(queue.dequeue(), Some(13));
    assert_eq!(queue.dequeue(), None);
}

#[test]
fn enqueue_between_dequeues() {
    let mut queue = Queue::new();
    queue.enqueue(14);
    queue.enqueue(15);
    assert_eq!(queue.dequeue(), Some(14));
    queue.enqueue(16);
    assert_eq!(queue.dequeue(), Some(15));
    assert_eq!(queue.dequeue(), Some(16));
    assert_eq!(queue.dequeue(), None);
}

#[test]
fn new_queue_is_empty() {
    let mut queue: Queue<u32> = Queue::new();
    assert_eq!(queue.dequeue(), None);
    assert_eq!(queue.slot_count(), 1);
}

#[test]
fn empty_stays_empty_until_enqueue() {
    let mut queue = Queue::new();
    queue.enqueue(1u8);
    queue.enqueue(2u8);
    assert_eq!(queue.dequeue(), Some(1));
    assert_eq!(queue.dequeue(), Some(2));
    for _ in 0..100 {
        assert_eq!(queue.dequeue(), None);
    }
    queue.enqueue(3u8);
    assert_eq!(queue.dequeue(), Some(3));
    assert_eq!(queue.dequeue(), None);
}

#[test]
fn single_producer_order_kept() {
    let mut queue = Queue::new();
    for i in 0..1000u32 {
        queue.enqueue(i);
    }
    for i in 0..1000u32 {
        assert_eq!(queue.dequeue(), Some(i));
    }
    assert_eq!(queue.dequeue(), None);
}

#[test]
fn freed_slots_are_reused() {
    let mut queue = Queue::new();
    queue.enqueue(14);
    queue.enqueue(15);
    assert_eq!(queue.slot_count(), 3);
    assert_eq!(queue.dequeue(), Some(14));
    queue.enqueue(16);
    assert_eq!(queue.slot_count(), 3);
    assert_eq!(queue.dequeue(), Some(15));
    assert_eq!(queue.dequeue(), Some(16));
    for round in 0..1000u32 {
        queue.enqueue(round);
        queue.enqueue(round + 1);
        assert_eq!(queue.dequeue(), Some(round));
        assert_eq!(queue.dequeue(), Some(round + 1));
    }
    assert_eq!(queue.slot_count(), 3);
}

#[test]
fn owned_values_move_through() {
    let mut queue = Queue::new();
    queue.enqueue(String::from("a"));
    queue.enqueue(String::from("bc"));
    assert_eq!(queue.dequeue(), Some(String::from("a")));
    assert_eq!(queue.dequeue(), Some(String::from("bc")));
    assert_eq!(queue.dequeue(), None);
}

#[test]
fn interleaved_producers_lose_nothing() {
    // Two producers hand in 0..100_000 and 100_000..1_000_000 in turns, and a
    // consumer takes values out between their steps.
    let mut queue = Queue::new();
    let mut first: u64 = 0;
    let mut second: u64 = 100_000;
    let mut collected: Vec<u64> = Vec::new();
    let mut step: u64 = 0;
    while first < 100_000 || second < 1_000_000 {
        if step % 3 != 2 && first < 100_000 {
            queue.enqueue(first);
            first += 1;
        } else if second < 1_000_000 {
            queue.enqueue(second);
            second += 1;
        }
        if step % 2 == 0 {
            if let Some(v) = queue.dequeue() {
                collected.push(v);
            }
        }
        step += 1;
    }
    while let Some(v) = queue.dequeue() {
        collected.push(v);
    }
    assert_eq!(queue.dequeue(), None);
    assert_eq!(collected.len(), 1_000_000);
    let mut last_first: Option<u64> = None;
    let mut last_second: Option<u64> = None;
    for &v in collected.iter() {
        if v < 100_000 {
            assert!(last_first.map_or(true, |p| p < v));
            last_first = Some(v);
        } else {
            assert!(last_second.map_or(true, |p| p < v));
            last_second = Some(v);
        }
    }
    collected.sort();
    for i in 0..1_000_000usize {
        assert_eq!(collected[i], i as u64);
    }
}
