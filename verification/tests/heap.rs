use mini_kernel::memory::heap::{init, KernelAllocator, LinkedListAllocator, Node};
use mini_kernel::memory::MemoryError;

fn heap(start: usize, size: usize) -> LinkedListAllocator {
    let mut heap = LinkedListAllocator::new();
    assert_eq!(heap.init(start, size), Ok(()));
    heap
}

#[test]
fn heap_starts_as_one_region() {
    let heap = heap(0x1000, 0x4000);
    assert_eq!(heap.regions(), &vec![Node::new(0x1000, 0x4000)]);
    assert_eq!(heap.regions()[0].start_addr(), 0x1000);
    assert_eq!(heap.regions()[0].end_addr(), 0x5000);
}

#[test]
fn heap_init_skips_the_first_1024_bytes() {
    let shared = KernelAllocator::new(LinkedListAllocator::new());
    assert_eq!(init(&shared, 0x10000, 0x7000), Ok(()));
    // the one region spans the bytes from 0x10400 on
    assert_eq!(shared.allocate(0x7001, 8), None);
    assert_eq!(shared.allocate(0x7000, 8), Some(0x10400));
    assert_eq!(shared.allocate(16, 8), None);
}

#[test]
fn heap_init_rejects_a_region_that_cannot_hold_a_header() {
    let shared = KernelAllocator::new(LinkedListAllocator::new());
    assert_eq!(
        init(&shared, 0x10001, 0x7000),
        Err(MemoryError::MisalignedAddress)
    );
    assert_eq!(init(&shared, 0x10000, 8), Err(MemoryError::MisalignedAddress));
    assert_eq!(
        init(&shared, usize::MAX - 8, 0x7000),
        Err(MemoryError::MisalignedAddress)
    );
    assert_eq!(shared.allocate(1, 1), None);
}

#[test]
fn shared_heap_serves_through_its_lock() {
    let mut heap = LinkedListAllocator::new();
    assert_eq!(heap.init(0x8000, 4096), Ok(()));
    let shared = KernelAllocator::new(heap);
    assert_eq!(shared.allocate(100, 64), Some(0x8000));
    assert_eq!(shared.allocate(4096, 8), None);
    assert_eq!(shared.allocate(8, 12), None);
    assert_eq!(shared.allocate(24, 8), Some(0x8080));
    assert_eq!(shared.deallocate(0x8000, 100, 64), Ok(()));
    assert_eq!(
        shared.deallocate(0x8004, 100, 64),
        Err(MemoryError::MisalignedAddress)
    );
    // the region freed last is the first to be looked at
    assert_eq!(shared.allocate(128, 8), Some(0x8000));
}

#[test]
fn free_region_needs_room_and_alignment_for_a_header() {
    let mut heap = LinkedListAllocator::new();
    assert_eq!(
        heap.add_free_region(0x1004, 64),
        Err(MemoryError::MisalignedAddress)
    );
    assert_eq!(
        heap.add_free_region(0x1000, 15),
        Err(MemoryError::MisalignedAddress)
    );
    assert_eq!(
        heap.add_free_region(usize::MAX - 7, 16),
        Err(MemoryError::MisalignedAddress)
    );
    assert!(heap.regions().is_empty());
    assert_eq!(heap.add_free_region(0x1000, 16), Ok(()));
    assert_eq!(heap.add_free_region(0x2000, 32), Ok(()));
    // the region added last is the head
    assert_eq!(
        heap.regions(),
        &vec![Node::new(0x2000, 32), Node::new(0x1000, 16)]
    );
}

#[test]
fn request_is_rounded_up_to_a_header() {
    assert_eq!(LinkedListAllocator::size_align(1, 1), Some((16, 8)));
    assert_eq!(LinkedListAllocator::size_align(0, 8), Some((16, 8)));
    assert_eq!(LinkedListAllocator::size_align(16, 8), Some((16, 8)));
    assert_eq!(LinkedListAllocator::size_align(17, 8), Some((24, 8)));
    assert_eq!(LinkedListAllocator::size_align(4096, 8), Some((4096, 8)));
    assert_eq!(LinkedListAllocator::size_align(100, 64), Some((128, 64)));
    assert_eq!(LinkedListAllocator::size_align(40, 4096), Some((4096, 4096)));
    // an alignment that is no multiple of that of a header
    assert_eq!(LinkedListAllocator::size_align(40, 12), None);
    // a size that cannot be rounded up
    assert_eq!(LinkedListAllocator::size_align(usize::MAX - 2, 8), None);
}

#[test]
fn region_fits_at_its_first_aligned_address() {
    let region = Node::new(0x1008, 0x100);
    assert_eq!(
        LinkedListAllocator::alloc_from_region(&region, 0x100, 8),
        Some(0x1008)
    );
    assert_eq!(
        LinkedListAllocator::alloc_from_region(&region, 16, 64),
        Some(0x1040)
    );
    // the bytes would end behind the region
    assert_eq!(LinkedListAllocator::alloc_from_region(&region, 0x101, 8), None);
    assert_eq!(LinkedListAllocator::alloc_from_region(&region, 0xd0, 64), None);
    // the rest would be too small for a header
    assert_eq!(LinkedListAllocator::alloc_from_region(&region, 0xf8, 8), None);
    assert_eq!(
        LinkedListAllocator::alloc_from_region(&region, 0xf0, 8),
        Some(0x1008)
    );
    // the first aligned address lies behind the region
    assert_eq!(
        LinkedListAllocator::alloc_from_region(&region, 16, 0x1000),
        None
    );
    assert_eq!(
        LinkedListAllocator::alloc_from_region(&region, usize::MAX, 8),
        None
    );
}

#[test]
fn allocate_then_deallocate_restores_the_one_region() {
    let mut heap = heap(0x8000, 4096);
    let before = heap.regions().clone();
    assert_eq!(heap.allocate(4096, 8), Some(0x8000));
    assert!(heap.regions().is_empty());
    assert_eq!(heap.deallocate(0x8000, 4096, 8), Ok(()));
    assert_eq!(heap.regions(), &before);
}

#[test]
fn allocate_then_deallocate_leaves_a_larger_region_in_two_parts() {
    let mut heap = heap(0x8000, 0x4000);
    assert_eq!(heap.allocate(4096, 8), Some(0x8000));
    assert_eq!(heap.regions(), &vec![Node::new(0x9000, 0x3000)]);
    assert_eq!(heap.deallocate(0x8000, 4096, 8), Ok(()));
    // side by side, and not merged
    assert_eq!(
        heap.regions(),
        &vec![Node::new(0x8000, 0x1000), Node::new(0x9000, 0x3000)]
    );
}

#[test]
fn allocate_takes_the_first_region_that_fits() {
    let mut heap = LinkedListAllocator::new();
    assert_eq!(heap.add_free_region(0x3000, 0x100), Ok(()));
    assert_eq!(heap.add_free_region(0x2000, 0x40), Ok(()));
    assert_eq!(heap.add_free_region(0x1000, 0x20), Ok(()));
    // 0x30 bytes: the head is too small, the second fits though the third
    // would fit as well
    assert_eq!(heap.allocate(0x30, 8), Some(0x2000));
    assert_eq!(
        heap.regions(),
        &vec![
            Node::new(0x2030, 0x10),
            Node::new(0x1000, 0x20),
            Node::new(0x3000, 0x100)
        ]
    );
}

#[test]
fn allocate_skips_a_region_whose_rest_cannot_hold_a_header() {
    let mut heap = LinkedListAllocator::new();
    assert_eq!(heap.add_free_region(0x2000, 0x40), Ok(()));
    assert_eq!(heap.add_free_region(0x1000, 0x28), Ok(()));
    // 0x20 bytes would leave 8 bytes of the head
    assert_eq!(heap.allocate(0x20, 8), Some(0x2000));
    assert_eq!(
        heap.regions(),
        &vec![Node::new(0x2020, 0x20), Node::new(0x1000, 0x28)]
    );
}

#[test]
fn allocate_aligns_and_loses_the_bytes_before() {
    let mut heap = heap(0x1008, 0x1000);
    assert_eq!(heap.allocate(0x100, 0x100), Some(0x1100));
    // the bytes from 0x1008 to 0x1100 are in no region
    assert_eq!(heap.regions(), &vec![Node::new(0x1200, 0xe08)]);
}

#[test]
fn allocate_fails_without_a_region_that_fits() {
    let mut heap = heap(0x1000, 0x100);
    let before = heap.regions().clone();
    assert_eq!(heap.allocate(0x101, 8), None);
    assert_eq!(heap.allocate(16, 12), None);
    assert_eq!(heap.regions(), &before);
    assert_eq!(LinkedListAllocator::new().allocate(1, 1), None);
}

#[test]
fn small_requests_take_a_header_each() {
    let mut heap = heap(0x1000, 0x40);
    assert_eq!(heap.allocate(1, 1), Some(0x1000));
    assert_eq!(heap.allocate(1, 1), Some(0x1010));
    assert_eq!(heap.allocate(1, 1), Some(0x1020));
    assert_eq!(heap.allocate(1, 1), Some(0x1030));
    assert_eq!(heap.allocate(1, 1), None);
}

#[test]
fn deallocate_puts_the_region_at_the_head() {
    let mut heap = heap(0x1000, 0x100);
    assert_eq!(heap.allocate(0x20, 8), Some(0x1000));
    assert_eq!(heap.allocate(0x20, 8), Some(0x1020));
    assert_eq!(heap.deallocate(0x1000, 0x20, 8), Ok(()));
    assert_eq!(heap.deallocate(0x1020, 0x19, 8), Ok(()));
    assert_eq!(
        heap.regions(),
        &vec![
            Node::new(0x1020, 0x20),
            Node::new(0x1000, 0x20),
            Node::new(0x1040, 0xc0)
        ]
    );
}

#[test]
fn deallocate_rejects_an_address_where_no_header_can_lie() {
    let mut heap = heap(0x1000, 0x100);
    let before = heap.regions().clone();
    assert_eq!(
        heap.deallocate(0x1004, 0x20, 8),
        Err(MemoryError::MisalignedAddress)
    );
    assert_eq!(
        heap.deallocate(0x1000, 0x20, 12),
        Err(MemoryError::MisalignedAddress)
    );
    assert_eq!(heap.regions(), &before);
}

#[test]
fn find_region_removes_the_region_it_finds() {
    let mut heap = LinkedListAllocator::new();
    assert_eq!(heap.add_free_region(0x2000, 0x80), Ok(()));
    assert_eq!(heap.add_free_region(0x1000, 0x20), Ok(()));
    assert_eq!(
        heap.find_region(0x40, 8),
        Some((Node::new(0x2000, 0x80), 0x2000))
    );
    assert_eq!(heap.regions(), &vec![Node::new(0x1000, 0x20)]);
    assert_eq!(heap.find_region(0x40, 8), None);
    assert_eq!(heap.regions(), &vec![Node::new(0x1000, 0x20)]);
}
