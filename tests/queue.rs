use rack_runtime::allocator::LinkedListAllocator;
use rack_runtime::queue::{queue, DequeueError, EnqueueError, Queue, QueueRx, QueueTx};

fn arena() -> LinkedListAllocator<256> {
    LinkedListAllocator::<256>::new(0, 256 * 64)
}

#[test]
fn create_queue() {
    let q = queue::<u8, 256>(arena());
    assert!(q.is_ok());
}

#[test]
fn enqueue() {
    let mut q = queue::<i32, 256>(arena()).unwrap();

    assert!(q.try_enqueue(13).is_ok());
}

#[test]
fn enqueue_more_buffers() {
    let mut q = queue::<i32, 256>(arena()).unwrap();

    for i in 0..100 {
        assert!(q.try_enqueue(i).is_ok());
    }
}

#[test]
fn dequeue_empty() {
    let mut q = queue::<u8, 256>(arena()).unwrap();

    assert_eq!(q.try_dequeue(), Err(DequeueError::Empty));
}

#[test]
fn enqueue_dequeue() {
    let mut q = queue::<i32, 256>(arena()).unwrap();

    q.try_enqueue(13).unwrap();

    let res = q.try_dequeue().unwrap();
    assert_eq!(13, res);
}

#[test]
fn enqueue_dequeue_buffers() {
    let mut q = queue::<i32, 256>(arena()).unwrap();

    for i in 0..100 {
        q.try_enqueue(i).unwrap();
    }

    for i in 0..100 {
        assert_eq!(Ok(i), q.try_dequeue());
    }
    assert_eq!(Err(DequeueError::Empty), q.try_dequeue());
}

#[test]
fn segments_are_given_back() {
    let mut q = queue::<u32, 256>(LinkedListAllocator::<256>::new(0, 256 * 3)).unwrap();
    for round in 0..10u32 {
        for i in 0..8 {
            assert!(q.try_enqueue(round * 8 + i).is_ok());
        }
        for i in 0..8 {
            assert_eq!(q.try_dequeue(), Ok(round * 8 + i));
        }
    }
}

#[test]
fn full_arena_hands_the_item_back() {
    let mut q = queue::<u8, 256>(LinkedListAllocator::<256>::new(0, 256)).unwrap();
    for i in 0..4 {
        assert!(q.try_enqueue(i).is_ok());
    }
    assert_eq!(q.try_enqueue(9), Err((9, EnqueueError::OutOfMemory)));
}

#[test]
fn producers_keep_their_order() {
    let mut q: Queue<(u8, u32), 256> = queue(arena()).unwrap();
    for i in 0..10u32 {
        QueueTx::try_enqueue(&mut q, (1, i)).unwrap();
        QueueTx::try_enqueue(&mut q, (2, 100 + i)).unwrap();
    }
    let mut from_one = vec![];
    let mut from_two = vec![];
    while let Ok((p, v)) = QueueRx::try_dequeue(&mut q) {
        if p == 1 { from_one.push(v) } else { from_two.push(v) }
    }
    assert_eq!(from_one, (0..10).collect::<Vec<u32>>());
    assert_eq!(from_two, (100..110).collect::<Vec<u32>>());
}

#[test]
fn no_block_for_a_first_segment() {
    let r = queue::<u8, 256>(LinkedListAllocator::<256>::new(0, 100));
    assert!(matches!(r, Err(EnqueueError::OutOfMemory)));
}

#[test]
fn ending_the_queue_gives_every_block_back() {
    let allocator = LinkedListAllocator::<256>::new(0, 256 * 16);
    let before = allocator.free_len();
    let mut q = queue::<u32, 256>(allocator).unwrap();
    for i in 0..30 {
        q.try_enqueue(i).unwrap();
    }
    for i in 0..9 {
        assert_eq!(q.try_dequeue(), Ok(i));
    }
    let allocator = q.into_allocator();
    assert_eq!(allocator.free_len(), before);
}
