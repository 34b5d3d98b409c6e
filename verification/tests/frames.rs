use mini_kernel::memory::arena::PhysicalMemory;
use mini_kernel::memory::frames::BitmapAllocator;
use mini_kernel::memory::init_frames_allocation;
use mini_kernel::memory::paging::PageEntryLevel;
use mini_kernel::memory::MemoryError;

const BASE: usize = 0x10_0000;
const SIZE: usize = 0x80_0000;

fn region(frames: usize) -> BitmapAllocator {
    let mut allocator = BitmapAllocator::new();
    assert_eq!(allocator.init(BASE, BASE + frames * 0x1000), Ok(()));
    allocator
}

#[test]
fn new_allocator_tracks_nothing() {
    let mut allocator = BitmapAllocator::new();
    assert_eq!(allocator.bitmap_slice().len(), 0);
    assert_eq!(allocator.frame_count(), 0);
    assert_eq!(
        allocator.allocate(1, PageEntryLevel::KiB4),
        Err(MemoryError::AllocationExhausted)
    );
}

#[test]
fn init_reserves_the_frames_of_the_bitmap() {
    let allocator = region(2048);
    assert_eq!(allocator.region_start(), BASE);
    assert_eq!(allocator.region_end(), BASE + SIZE);
    assert_eq!(allocator.frame_count(), 2048);
    // 2048 frames take 32 words, and one word more
    assert_eq!(allocator.bitmap_slice().len(), 33);
    // 33 words are 264 bytes: one frame
    assert_eq!(allocator.bitmap_slice()[0], 1);
    for word in &allocator.bitmap_slice()[1..] {
        assert_eq!(*word, 0);
    }
    assert!(allocator.is_used(BASE));
    assert!(!allocator.is_used(BASE + 0x1000));
}

#[test]
fn init_reserves_a_frame_for_each_512_words() {
    // 64 * 512 frames take 512 words and one more: 4104 bytes, two frames
    let allocator = region(64 * 512);
    assert_eq!(allocator.bitmap_slice().len(), 513);
    assert_eq!(allocator.bitmap_slice()[0], 0b11);
}

#[test]
fn init_rejects_a_start_off_the_frame_boundary() {
    let mut allocator = BitmapAllocator::new();
    assert_eq!(
        allocator.init(BASE + 8, BASE + SIZE),
        Err(MemoryError::MisalignedAddress)
    );
    assert_eq!(allocator.bitmap_slice().len(), 0);
}

#[test]
fn init_rejects_an_end_below_the_start() {
    let mut allocator = BitmapAllocator::new();
    assert_eq!(
        allocator.init(BASE, BASE - 0x1000),
        Err(MemoryError::MisalignedAddress)
    );
}

#[test]
fn init_frames_allocation_rounds_the_start_up_to_64() {
    let allocator = init_frames_allocation(BASE - 40, SIZE).unwrap();
    assert_eq!(allocator.region_start(), BASE);
    assert_eq!(allocator.region_end(), BASE + SIZE);
    assert_eq!(
        init_frames_allocation(BASE + 1, SIZE).err(),
        Some(MemoryError::MisalignedAddress)
    );
}

#[test]
fn single_frames_come_lowest_first() {
    let mut allocator = region(2048);
    assert_eq!(allocator.allocate(1, PageEntryLevel::KiB4), Ok(BASE + 0x1000));
    assert_eq!(allocator.allocate(1, PageEntryLevel::KiB4), Ok(BASE + 0x2000));
    assert_eq!(allocator.bitmap_slice()[0], 0b111);
}

#[test]
fn single_frame_is_aligned_and_two_never_overlap() {
    let mut allocator = region(2048);
    for level in [PageEntryLevel::KiB4, PageEntryLevel::MiB2] {
        let first = allocator.allocate(1, level).unwrap();
        let second = allocator.allocate(1, level).unwrap();
        assert_eq!(first % level.size(), 0);
        assert_eq!(second % level.size(), 0);
        assert!(first + level.size() <= second || second + level.size() <= first);
    }
}

#[test]
fn single_frame_skips_full_words() {
    let mut allocator = region(2048);
    // fill the first word but for the reserved frame
    assert_eq!(allocator.allocate(63, PageEntryLevel::KiB4), Ok(BASE + 0x1000));
    assert_eq!(allocator.bitmap_slice()[0], u64::MAX);
    assert_eq!(allocator.allocate(1, PageEntryLevel::KiB4), Ok(BASE + 64 * 0x1000));
}

#[test]
fn large_page_takes_eight_words_from_a_page_boundary() {
    let mut allocator = region(2048);
    // the first 2 MiB boundary behind 0x10_0000
    assert_eq!(allocator.allocate(1, PageEntryLevel::MiB2), Ok(0x20_0000));
    let words = allocator.bitmap_slice();
    assert_eq!(words[0], 1);
    for index in 4..12 {
        assert_eq!(words[index], u64::MAX);
    }
    assert_eq!(words[3], 0);
    assert_eq!(words[12], 0);
    assert_eq!(allocator.allocate(1, PageEntryLevel::MiB2), Ok(0x40_0000));
}

#[test]
fn large_pages_need_words_on_page_boundaries() {
    let mut allocator = BitmapAllocator::new();
    assert_eq!(allocator.init(BASE + 0x1000, BASE + SIZE), Ok(()));
    assert_eq!(
        allocator.allocate(1, PageEntryLevel::MiB2),
        Err(MemoryError::MisalignedAddress)
    );
    assert_eq!(
        allocator.allocate(2, PageEntryLevel::GiB1),
        Err(MemoryError::MisalignedAddress)
    );
}

#[test]
fn single_huge_page_is_unsupported() {
    let mut allocator = region(2048);
    let before = allocator.bitmap_slice().to_vec();
    assert_eq!(
        allocator.allocate(1, PageEntryLevel::GiB1),
        Err(MemoryError::UnsupportedOperation)
    );
    assert_eq!(
        allocator.dealloc(BASE, 1, PageEntryLevel::GiB1),
        Err(MemoryError::UnsupportedOperation)
    );
    assert_eq!(allocator.bitmap_slice(), &before[..]);
}

#[test]
fn several_huge_pages_do_not_fit_a_small_region() {
    let mut allocator = region(2048);
    assert_eq!(
        allocator.allocate(2, PageEntryLevel::GiB1),
        Err(MemoryError::AllocationExhausted)
    );
}

#[test]
fn run_within_a_word_starts_at_the_first_free_window() {
    let mut allocator = region(2048);
    assert_eq!(allocator.allocate(5, PageEntryLevel::KiB4), Ok(BASE + 0x1000));
    assert_eq!(allocator.bitmap_slice()[0], 0b11_1111);
    assert_eq!(allocator.allocate(3, PageEntryLevel::KiB4), Ok(BASE + 6 * 0x1000));
}

#[test]
fn run_within_a_word_needs_contiguous_frames() {
    let mut allocator = region(2048);
    // use every second frame of the first word
    for frame in 1..64 {
        assert_eq!(
            allocator.allocate(1, PageEntryLevel::KiB4),
            Ok(BASE + frame * 0x1000)
        );
    }
    for frame in (1..64).step_by(2) {
        assert_eq!(
            allocator.dealloc(BASE + frame * 0x1000, 1, PageEntryLevel::KiB4),
            Ok(())
        );
    }
    // 32 frames of the word are free, but no two lie side by side
    assert_eq!(allocator.allocate(2, PageEntryLevel::KiB4), Ok(BASE + 64 * 0x1000));
}

#[test]
fn run_within_a_word_does_not_cross_into_the_next() {
    let mut allocator = region(2048);
    assert_eq!(allocator.allocate(60, PageEntryLevel::KiB4), Ok(BASE + 0x1000));
    // three frames are left in the first word: a run of five starts the second
    assert_eq!(allocator.allocate(5, PageEntryLevel::KiB4), Ok(BASE + 64 * 0x1000));
    assert_eq!(allocator.allocate(3, PageEntryLevel::KiB4), Ok(BASE + 61 * 0x1000));
}

#[test]
fn run_of_a_whole_word_takes_an_empty_word() {
    let mut allocator = region(2048);
    assert_eq!(allocator.allocate(64, PageEntryLevel::KiB4), Ok(BASE + 64 * 0x1000));
    assert_eq!(allocator.bitmap_slice()[1], u64::MAX);
}

#[test]
fn long_run_takes_whole_words_and_the_first_bits_of_the_next() {
    let mut allocator = region(2048);
    // 100 frames: one whole word and 36 frames. Word 0 holds the reserved
    // frame, so the run starts with word 1.
    assert_eq!(allocator.allocate(100, PageEntryLevel::KiB4), Ok(BASE + 64 * 0x1000));
    let words = allocator.bitmap_slice();
    assert_eq!(words[0], 1);
    assert_eq!(words[1], u64::MAX);
    assert_eq!(words[2], (1u64 << 36) - 1);
    assert_eq!(words[3], 0);
}

#[test]
fn long_run_steps_by_its_whole_words() {
    let mut allocator = region(2048);
    // 130 frames need two whole words and two frames. The search looks at
    // word 0, finds it in use, and goes on to word 2.
    assert_eq!(allocator.allocate(130, PageEntryLevel::KiB4), Ok(BASE + 128 * 0x1000));
    let words = allocator.bitmap_slice();
    assert_eq!(words[1], 0);
    assert_eq!(words[2], u64::MAX);
    assert_eq!(words[3], u64::MAX);
    assert_eq!(words[4], 0b11);
}

#[test]
fn long_run_does_not_take_frames_in_use_behind_its_words() {
    let mut allocator = region(2048);
    // frames 64 to 191 go, then 128 comes back: word 2 is free but for none
    assert_eq!(allocator.allocate(128, PageEntryLevel::KiB4), Ok(BASE + 128 * 0x1000));
    assert_eq!(allocator.allocate(64, PageEntryLevel::KiB4), Ok(BASE + 64 * 0x1000));
    assert_eq!(allocator.dealloc(BASE + 64 * 0x1000, 64, PageEntryLevel::KiB4), Ok(()));
    // a run of 65 from word 1 on would need frame 128, which is in use
    assert_eq!(allocator.allocate(65, PageEntryLevel::KiB4), Ok(BASE + 256 * 0x1000));
}

#[test]
fn alloc_then_dealloc_restores_the_bitmap() {
    let cases = [
        (1, PageEntryLevel::KiB4),
        (5, PageEntryLevel::KiB4),
        (64, PageEntryLevel::KiB4),
        (100, PageEntryLevel::KiB4),
        (128, PageEntryLevel::KiB4),
        (1, PageEntryLevel::MiB2),
        (2, PageEntryLevel::MiB2),
    ];
    for (count, level) in cases {
        let mut allocator = region(2048);
        assert_eq!(allocator.allocate(3, PageEntryLevel::KiB4), Ok(BASE + 0x1000));
        let before = allocator.bitmap_slice().to_vec();
        let address = allocator.allocate(count, level).unwrap();
        assert_ne!(allocator.bitmap_slice(), &before[..]);
        assert_eq!(allocator.dealloc(address, count, level), Ok(()));
        assert_eq!(allocator.bitmap_slice(), &before[..]);
    }
}

#[test]
fn second_dealloc_is_a_double_free() {
    let cases = [
        (1, PageEntryLevel::KiB4),
        (7, PageEntryLevel::KiB4),
        (64, PageEntryLevel::KiB4),
        (70, PageEntryLevel::KiB4),
        (1, PageEntryLevel::MiB2),
        (3, PageEntryLevel::MiB2),
    ];
    for (count, level) in cases {
        let mut allocator = region(2048);
        let address = allocator.allocate(count, level).unwrap();
        assert_eq!(allocator.dealloc(address, count, level), Ok(()));
        let after = allocator.bitmap_slice().to_vec();
        assert_eq!(
            allocator.dealloc(address, count, level),
            Err(MemoryError::DoubleFree)
        );
        assert_eq!(allocator.bitmap_slice(), &after[..]);
    }
}

#[test]
fn dealloc_of_a_partly_free_run_changes_nothing() {
    let mut allocator = region(2048);
    let address = allocator.allocate(4, PageEntryLevel::KiB4).unwrap();
    let before = allocator.bitmap_slice().to_vec();
    // the run of six reaches two frames that are free
    assert_eq!(
        allocator.dealloc(address, 6, PageEntryLevel::KiB4),
        Err(MemoryError::DoubleFree)
    );
    assert_eq!(allocator.bitmap_slice(), &before[..]);
}

#[test]
fn dealloc_outside_the_region_is_a_double_free() {
    let mut allocator = region(16);
    assert_eq!(
        allocator.dealloc(BASE - 0x1000, 1, PageEntryLevel::KiB4),
        Err(MemoryError::DoubleFree)
    );
    assert_eq!(
        allocator.dealloc(BASE + 16 * 0x1000, 1, PageEntryLevel::KiB4),
        Err(MemoryError::DoubleFree)
    );
    assert_eq!(
        allocator.dealloc(BASE + 8 * 0x1000, usize::MAX, PageEntryLevel::MiB2),
        Err(MemoryError::DoubleFree)
    );
}

#[test]
fn dealloc_takes_the_frame_that_holds_the_address() {
    let mut allocator = region(2048);
    let address = allocator.allocate(1, PageEntryLevel::KiB4).unwrap();
    assert_eq!(allocator.dealloc(address + 0x123, 1, PageEntryLevel::KiB4), Ok(()));
    assert!(!allocator.is_used(address));
}

#[test]
fn exhausted_region_yields_no_address() {
    let mut allocator = region(16);
    // frame 0 holds the bitmap: fifteen are left
    for frame in 1..16 {
        assert_eq!(
            allocator.allocate(1, PageEntryLevel::KiB4),
            Ok(BASE + frame * 0x1000)
        );
    }
    let full = allocator.bitmap_slice().to_vec();
    assert_eq!(
        allocator.allocate(1, PageEntryLevel::KiB4),
        Err(MemoryError::AllocationExhausted)
    );
    assert_eq!(
        allocator.allocate(2, PageEntryLevel::KiB4),
        Err(MemoryError::AllocationExhausted)
    );
    assert_eq!(
        allocator.allocate(65, PageEntryLevel::KiB4),
        Err(MemoryError::AllocationExhausted)
    );
    assert_eq!(
        allocator.allocate(1, PageEntryLevel::MiB2),
        Err(MemoryError::AllocationExhausted)
    );
    assert_eq!(allocator.bitmap_slice(), &full[..]);
}

#[test]
fn run_must_end_within_the_region() {
    let mut allocator = region(16);
    // the word has 63 bits free, but the region ends behind frame 15
    assert_eq!(
        allocator.allocate(16, PageEntryLevel::KiB4),
        Err(MemoryError::AllocationExhausted)
    );
    assert_eq!(allocator.allocate(15, PageEntryLevel::KiB4), Ok(BASE + 0x1000));
}

#[test]
fn set_used_and_set_unused_mark_one_frame() {
    let mut allocator = region(2048);
    allocator.set_used(BASE + 70 * 0x1000);
    assert_eq!(allocator.bitmap_slice()[1], 1 << 6);
    assert_eq!(allocator.bitmap_entry_index_bit(BASE + 70 * 0x1000), (1, 6));
    assert!(allocator.is_used(BASE + 70 * 0x1000));
    allocator.set_unused(BASE + 70 * 0x1000);
    assert_eq!(allocator.bitmap_slice()[1], 0);
}

#[test]
fn intra_and_inter_allocations_can_be_asked_for_directly() {
    let mut allocator = region(2048);
    assert_eq!(allocator.intra_alloc_contigous_4k_frames(8), Ok(BASE + 0x1000));
    assert_eq!(
        allocator.inter_alloc_contigous_4k_frames(65),
        Ok(BASE + 64 * 0x1000)
    );
}

#[test]
fn zero_alloc_clears_the_frames_it_hands_out() {
    let mut memory = PhysicalMemory::new(BASE, 64 * 0x1000).unwrap();
    let mut allocator = region(64);
    for offset in (0..64 * 0x1000).step_by(8) {
        memory.write(BASE + offset, u64::MAX);
    }
    let address = allocator
        .zero_alloc(&mut memory, 2, PageEntryLevel::KiB4)
        .unwrap();
    assert_eq!(address, BASE + 0x1000);
    assert_eq!(memory.read(BASE + 0xff8), u64::MAX);
    for offset in (0..0x2000).step_by(8) {
        assert_eq!(memory.read(address + offset), 0);
    }
    assert_eq!(memory.read(address + 0x2000), u64::MAX);
}

#[test]
fn zero_alloc_that_fails_leaves_the_memory() {
    let mut memory = PhysicalMemory::new(BASE, 16 * 0x1000).unwrap();
    let mut allocator = region(16);
    memory.write(BASE + 0x1000, 7);
    assert_eq!(
        allocator.zero_alloc(&mut memory, 16, PageEntryLevel::KiB4),
        Err(MemoryError::AllocationExhausted)
    );
    assert_eq!(memory.read(BASE + 0x1000), 7);
}

#[test]
fn can_take_counts_up_to_two_free_frames() {
    let mut allocator = region(4);
    // frame 0 holds the bitmap: three are left
    assert!(allocator.can_take(0));
    assert!(allocator.can_take(1));
    assert!(allocator.can_take(2));
    assert_eq!(allocator.allocate(2, PageEntryLevel::KiB4), Ok(BASE + 0x1000));
    let before = allocator.bitmap_slice().to_vec();
    assert!(allocator.can_take(1));
    assert!(!allocator.can_take(2));
    assert_eq!(allocator.allocate(1, PageEntryLevel::KiB4), Ok(BASE + 0x3000));
    assert!(allocator.can_take(0));
    assert!(!allocator.can_take(1));
    assert!(!allocator.can_take(2));
    assert_eq!(allocator.dealloc(BASE + 0x1000, 1, PageEntryLevel::KiB4), Ok(()));
    assert_eq!(allocator.dealloc(BASE + 0x3000, 1, PageEntryLevel::KiB4), Ok(()));
    // two free frames that do not lie side by side
    assert!(allocator.can_take(2));
    assert_ne!(allocator.bitmap_slice(), &before[..]);
    assert_eq!(allocator.bitmap_slice()[0], 0b0101);
}
