use rack_runtime::allocator::{AllocError, LinkedListAllocator};

const INT: usize = core::mem::size_of::<i32>();
const INT_ALIGN: usize = core::mem::align_of::<i32>();

#[test]
fn create_alloc() {
    let allocator = LinkedListAllocator::<256>::new(0, 1024);
    assert_eq!(allocator.free_len(), 4);
}

#[test]
fn alloc_dealloc_box() {
    let mut allocator = LinkedListAllocator::<256>::new(0, 1024);

    let boxed = allocator.allocate(INT, INT_ALIGN).expect("13 fits a block");
    assert_eq!(allocator.deallocate(boxed, INT), Ok(()));
}

#[test]
fn exhaustive_allocations() {
    let mut allocator = LinkedListAllocator::<256>::new(0, 1024);

    let boxed1 = allocator.allocate(INT, INT_ALIGN).unwrap();
    let boxed2 = allocator.allocate(INT, INT_ALIGN).unwrap();
    let boxed3 = allocator.allocate(INT, INT_ALIGN).unwrap();
    let boxed4 = allocator.allocate(INT, INT_ALIGN).unwrap();

    assert_eq!(allocator.deallocate(boxed4, INT), Ok(()));
    assert_eq!(allocator.deallocate(boxed3, INT), Ok(()));
    assert_eq!(allocator.deallocate(boxed2, INT), Ok(()));
    assert_eq!(allocator.deallocate(boxed1, INT), Ok(()));
}

#[test]
fn fifth_allocation_is_refused() {
    let mut allocator = LinkedListAllocator::<256>::new(0, 1024);
    for _ in 0..4 {
        allocator.allocate(INT, INT_ALIGN).unwrap();
    }
    assert_eq!(allocator.allocate(INT, INT_ALIGN), Err(AllocError::Exhausted));
}

#[test]
fn big_allocation_double() {
    let mut allocator = LinkedListAllocator::<256>::new(0, 1024);

    assert_eq!(allocator.allocate(300, 1), Err(AllocError::TooLarge));
}

#[test]
fn blocks_are_handed_out_from_the_start() {
    let mut allocator = LinkedListAllocator::<64>::new(1000, 1200);
    assert_eq!(allocator.free_len(), 3);
    assert_eq!(allocator.allocate(8, 8), Ok(1000));
    assert_eq!(allocator.allocate(8, 8), Ok(1064));
    assert_eq!(allocator.deallocate(1000, 8), Ok(()));
    assert_eq!(allocator.allocate(8, 8), Ok(1000));
}

#[test]
fn bad_frees_are_refused() {
    let mut allocator = LinkedListAllocator::<128>::new(0, 512);
    let a = allocator.allocate(1, 1).unwrap();
    assert_eq!(allocator.deallocate(a + 1, 1), Err(AllocError::InvalidPointer));
    assert_eq!(allocator.deallocate(1024, 1), Err(AllocError::InvalidPointer));
    assert_eq!(allocator.deallocate(256, 1), Err(AllocError::DoubleFree));
    assert_eq!(allocator.deallocate(a, 129), Err(AllocError::TooLarge));
}

#[test]
fn balanced_pairs_restore_the_free_list() {
    let mut allocator = LinkedListAllocator::<512>::new(0, 4096);
    let before = allocator.free_len();
    let a = allocator.allocate(10, 1).unwrap();
    let b = allocator.allocate(10, 1).unwrap();
    let c = allocator.allocate(10, 1).unwrap();
    assert_eq!(allocator.free_len(), before - 3);
    allocator.deallocate(b, 10).unwrap();
    allocator.deallocate(a, 10).unwrap();
    allocator.deallocate(c, 10).unwrap();
    assert_eq!(allocator.free_len(), before);
}
