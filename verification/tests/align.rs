use mini_kernel::memory::arena::PhysicalMemory;
use mini_kernel::memory::consts::{FRAME_SIZE, HEAP_END, KIB, NUM_VPNS, TEXT_START};
use mini_kernel::memory::{align_order, align_up, MemoryError};

#[test]
fn align_order_rounds_up_to_a_power_of_two() {
    assert_eq!(align_order(0, 12), 0);
    assert_eq!(align_order(1, 12), 0x1000);
    assert_eq!(align_order(0x1000, 12), 0x1000);
    assert_eq!(align_order(0x1001, 12), 0x2000);
    assert_eq!(align_order(0x4000, 21), 0x20_0000);
    assert_eq!(align_order(5, 0), 5);
    assert_eq!(align_order(5, 1), 6);
}

#[test]
fn align_up_rounds_up_to_a_multiple() {
    assert_eq!(align_up(0, 8), 0);
    assert_eq!(align_up(1, 8), 8);
    assert_eq!(align_up(8, 8), 8);
    assert_eq!(align_up(9, 8), 16);
    assert_eq!(align_up(10, 3), 12);
    assert_eq!(align_up(usize::MAX - 7, 8), usize::MAX - 7);
    assert_eq!(align_up(13, 8), 16);
    assert_eq!(align_up(16, 8), 16);
    assert_eq!(align_up(7, 3), 9);
    // the result is the largest number, and the sum with the alignment
    // would not fit
    assert_eq!(align_up(usize::MAX - 2, 3), usize::MAX);
}

#[test]
fn constants_of_the_layout() {
    assert_eq!(FRAME_SIZE, 4096);
    assert_eq!(KIB, 1024);
    assert_eq!(NUM_VPNS, 3);
    assert_eq!(TEXT_START, 0);
    assert_eq!(HEAP_END, 0x40000);
}

#[test]
fn memory_starts_cleared() {
    let memory = PhysicalMemory::new(0x4000, 0x2000).unwrap();
    assert_eq!(memory.start(), 0x4000);
    assert_eq!(memory.size(), 0x2000);
    assert_eq!(memory.as_words().len(), 0x400);
    assert!(memory.as_words().iter().all(|word| *word == 0));
    assert!(memory.has_frame(0x4000));
    assert!(memory.has_frame(0x5000));
    assert!(!memory.has_frame(0x6000));
    assert!(!memory.has_frame(0x3000));
    assert!(!memory.has_frame(0x4008));
}

#[test]
fn memory_must_start_on_a_frame_and_end_in_the_address_space() {
    assert_eq!(
        PhysicalMemory::new(0x4008, 0x2000).err(),
        Some(MemoryError::MisalignedAddress)
    );
    assert_eq!(
        PhysicalMemory::new(usize::MAX - 0xfff, 0x2000).err(),
        Some(MemoryError::MisalignedAddress)
    );
}

#[test]
fn memory_keeps_what_is_written() {
    let mut memory = PhysicalMemory::new(0x4000, 0x2000).unwrap();
    memory.write(0x4010, 0xdead_beef);
    memory.write(0x5ff8, 42);
    assert_eq!(memory.read(0x4010), 0xdead_beef);
    assert_eq!(memory.read(0x5ff8), 42);
    assert_eq!(memory.read(0x4018), 0);
    memory.zero(0x4010, 8);
    assert_eq!(memory.read(0x4010), 0);
    assert_eq!(memory.read(0x5ff8), 42);
}
