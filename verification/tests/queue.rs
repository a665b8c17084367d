use algokit::data_structures::queue::Queue;

#[test]
fn test_create() {
    let queue: Queue<i32> = Queue::new();
    assert_eq!(queue.capacity(), 5);
}

#[test]
fn test_enqueue_dequeue() {
    let mut queue: Queue<i32> = Queue::new();

    queue.enqueue(1);
    queue.enqueue(2);

    assert_eq!(queue.dequeue(), Some(1));
    assert_eq!(queue.dequeue(), Some(2));
    assert_eq!(queue.dequeue(), None);
}

#[test]
fn test_is_empty() {
    let mut queue: Queue<i32> = Queue::new();

    assert!(queue.is_empty());

    queue.enqueue(1);

    assert!(!queue.is_empty());
}

#[test]
fn test_enqueue_grow_when_full() {
    let mut queue: Queue<i32> = Queue::new();

    queue.enqueue(1);
    queue.enqueue(2);
    queue.enqueue(3);
    queue.enqueue(4);
    queue.enqueue(5);

    assert_eq!(queue.capacity(), 10);
}

#[test]
fn queue_keeps_order_across_wraparound_and_growth() {
    let mut queue: Queue<u32> = Queue::new();
    for v in 0..3 {
        queue.enqueue(v);
    }
    assert_eq!(queue.dequeue(), Some(0));
    assert_eq!(queue.dequeue(), Some(1));
    for v in 3..20 {
        queue.enqueue(v);
    }
    assert_eq!(queue.capacity(), 20);
    for v in 2..20 {
        assert_eq!(queue.dequeue(), Some(v));
    }
    assert_eq!(queue.dequeue(), None);
    assert!(queue.is_empty());
    assert_eq!(queue.capacity(), 20);
}

#[test]
fn queue_is_full_with_one_free_slot() {
    let mut queue: Queue<u8> = Queue::new();
    for v in 0..3 {
        queue.enqueue(v);
        assert!(!queue.is_full());
    }
    queue.enqueue(3);
    assert!(queue.is_full());
    assert_eq!(queue.capacity(), 5);
}
