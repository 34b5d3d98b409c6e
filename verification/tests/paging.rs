use mini_kernel::memory::arena::PhysicalMemory;
use mini_kernel::memory::frames::BitmapAllocator;
use mini_kernel::memory::{identity_map_range, map_kernel};
use mini_kernel::memory::paging::{
    create_root_table, unmap, virtual_to_physical, PageEntry, PageEntryFlags,
    PageEntryLevel, PageEntryType, PageTable,
};
use mini_kernel::memory::MemoryError;

const BASE: usize = 0x10_0000;
const SIZE: usize = 0x80_0000;

fn machine() -> (PhysicalMemory, BitmapAllocator, PageTable) {
    let mut memory = PhysicalMemory::new(BASE, SIZE).unwrap();
    let mut frames = BitmapAllocator::new();
    assert_eq!(frames.init(BASE, BASE + SIZE), Ok(()));
    let root = create_root_table(&mut memory, &mut frames).unwrap();
    (memory, frames, root)
}

fn entry(memory: &PhysicalMemory, table: usize, index: usize) -> PageEntry {
    PageEntry(memory.read(table + 8 * index))
}

#[test]
fn flags_have_their_bits() {
    assert_eq!(PageEntryFlags::valid().val(), 1 << 0);
    assert_eq!(PageEntryFlags::read().val(), 1 << 1);
    assert_eq!(PageEntryFlags::write().val(), 1 << 2);
    assert_eq!(PageEntryFlags::execute().val(), 1 << 3);
    assert_eq!(PageEntryFlags::user().val(), 1 << 4);
    assert_eq!(PageEntryFlags::global().val(), 1 << 5);
    assert_eq!(PageEntryFlags::accessed().val(), 1 << 6);
    assert_eq!(PageEntryFlags::dirty().val(), 1 << 7);
    assert_eq!(PageEntryFlags::read_write().val(), 0b0110);
    assert_eq!(PageEntryFlags::read_execute().val(), 0b1010);
    assert_eq!(PageEntryFlags::read_write_execute().val(), 0b1110);
    assert_eq!(PageEntryFlags::accessed_dirty().val(), 0b1100_0000);
    assert_eq!(PageEntryFlags::user_read_write().val(), 0b1_0110);
    assert_eq!(PageEntryFlags::user_read_execute().val(), 0b1_1010);
    assert_eq!(PageEntryFlags::user_read_write_execute().val(), 0b1_1110);
}

#[test]
fn flags_combine_and_tell_leaves_from_branches() {
    let flags = PageEntryFlags::read() | PageEntryFlags::accessed_dirty();
    assert_eq!(flags, PageEntryFlags(0b1100_0010));
    assert_eq!((flags & PageEntryFlags::read_write()).val(), 0b10);
    assert!(flags.contains(PageEntryFlags::read()));
    assert!(flags.contains(PageEntryFlags::read_write()));
    assert!(!flags.contains(PageEntryFlags::write()));
    assert!(flags.is_leaf());
    assert!(PageEntryFlags::execute().is_leaf());
    assert!(!PageEntryFlags::valid().is_leaf());
    assert!(!(PageEntryFlags::user() | PageEntryFlags::dirty()).is_leaf());
}

#[test]
fn levels_have_their_sizes() {
    assert_eq!(PageEntryLevel::top(), PageEntryLevel::GiB1);
    assert_eq!(PageEntryLevel::KiB4.val(), 0);
    assert_eq!(PageEntryLevel::MiB2.val(), 1);
    assert_eq!(PageEntryLevel::GiB1.val(), 2);
    assert_eq!(PageEntryLevel::KiB4.size(), 4096);
    assert_eq!(PageEntryLevel::MiB2.size(), 512 * 4096);
    assert_eq!(PageEntryLevel::GiB1.size(), 512 * 512 * 4096);
    assert_eq!(PageEntryLevel::KiB4.frame_count(), 1);
    assert_eq!(PageEntryLevel::MiB2.frame_count(), 512);
    assert_eq!(PageEntryLevel::GiB1.frame_count(), 512 * 512);
    assert_eq!(PageEntryLevel::KiB4.order(), 12);
    assert_eq!(PageEntryLevel::MiB2.order(), 21);
    assert_eq!(PageEntryLevel::GiB1.order(), 30);
    assert_eq!(PageEntryLevel::GiB1.next_level(), Some(PageEntryLevel::MiB2));
    assert_eq!(PageEntryLevel::MiB2.next_level(), Some(PageEntryLevel::KiB4));
    assert_eq!(PageEntryLevel::KiB4.next_level(), None);
}

#[test]
fn level_from_size_takes_the_largest_smaller_page() {
    assert_eq!(PageEntryLevel::from_size(0), PageEntryLevel::KiB4);
    assert_eq!(PageEntryLevel::from_size(0x4000), PageEntryLevel::KiB4);
    assert_eq!(PageEntryLevel::from_size(0x20_0000), PageEntryLevel::KiB4);
    assert_eq!(PageEntryLevel::from_size(0x20_0001), PageEntryLevel::MiB2);
    assert_eq!(PageEntryLevel::from_size(0x4000_0000), PageEntryLevel::MiB2);
    assert_eq!(PageEntryLevel::from_size(0x4000_0001), PageEntryLevel::GiB1);
}

#[test]
fn level_checks_alignment() {
    assert_eq!(PageEntryLevel::KiB4.assert_aligned(0x3000), Ok(()));
    assert_eq!(
        PageEntryLevel::KiB4.assert_aligned(0x3008),
        Err(MemoryError::MisalignedAddress)
    );
    assert_eq!(PageEntryLevel::MiB2.assert_aligned(0x40_0000), Ok(()));
    assert_eq!(
        PageEntryLevel::MiB2.assert_aligned(0x3000),
        Err(MemoryError::MisalignedAddress)
    );
    assert_eq!(
        PageEntryLevel::GiB1.assert_aligned(0x40_0000),
        Err(MemoryError::MisalignedAddress)
    );
}

#[test]
fn entry_packs_flags_and_page_number_bit_by_bit() {
    // physical address 0x8765_4000: page number 0x87654 in bits 10 and up
    let entry = PageEntry::encode(&PageEntryFlags(0b1100_0111), 0x8765_4000);
    assert_eq!(entry.0, (0x87654 << 10) | 0b1100_0111);
    assert_eq!(entry.decode(), (PageEntryFlags(0b1100_0111), 0x8765_4000));
    assert_eq!(entry.get_ppn(), 0x8765_4000);
    assert!(entry.valid());
    assert!(entry.read());
    assert!(entry.write());
    assert!(!entry.execute());
}

#[test]
fn entry_splits_the_page_number_into_three_fields() {
    // bits 12 to 20 fill entry bits 10 to 18, bits 21 to 29 fill entry bits
    // 19 to 27, and bits 30 to 55 fill entry bits 28 to 53
    let mut entry = PageEntry::new();
    entry.set_ppn(0x1ff << 12);
    assert_eq!(entry.0, 0x1ff << 10);
    entry.set_ppn(0x1ff << 21);
    assert_eq!(entry.0, 0x1ff << 19);
    entry.set_ppn(0x3ff_ffff << 30);
    assert_eq!(entry.0, 0x3ff_ffff << 28);
    assert_eq!(entry.get_ppn(), 0x3ff_ffff << 30);
}

#[test]
fn entry_drops_the_page_offset_and_the_bits_above_55() {
    let mut entry = PageEntry::new();
    entry.set_ppn(0xff00_0000_0000_1fff);
    assert_eq!(entry.0, 1 << 10);
    assert_eq!(entry.get_ppn(), 0x1000);
}

#[test]
fn entry_keeps_its_other_bits() {
    let mut entry = PageEntry(u64::MAX);
    entry.set_flags(&PageEntryFlags(0));
    assert_eq!(entry.0, u64::MAX & !0xff);
    entry.set_ppn(0);
    // the two reserved bits 8 and 9 and the ten bits from 54 up stay
    assert_eq!(entry.0, 0xffc0_0000_0000_0300);
    entry.set_flags(&PageEntryFlags::read_write());
    assert_eq!(entry.0, 0xffc0_0000_0000_0306);
    let mut other = PageEntry::new();
    other.set_ppn(0x5000);
    other.copy_flags(entry);
    assert_eq!(other.0, (5 << 10) | 0x06);
}

#[test]
fn entry_kinds() {
    assert_eq!(PageEntry(0).get_type(), PageEntryType::Invalid);
    // read and write without valid: invalid all the same
    assert_eq!(PageEntry(0b110).get_type(), PageEntryType::Invalid);
    assert_eq!(PageEntry(0b011).get_type(), PageEntryType::Leaf);
    assert_eq!(PageEntry(0b1001).get_type(), PageEntryType::Leaf);
    assert_eq!(
        PageEntry((0x123 << 10) | 1).get_type(),
        PageEntryType::Branch(0x12_3000)
    );
    let branch = PageEntry((0x123 << 10) | 0xf1);
    assert!(branch.is_valid());
    assert!(!branch.is_invalid());
    assert!(branch.is_branch());
    assert!(!branch.is_leaf());
    let leaf = PageEntry(0b101);
    assert!(leaf.is_leaf());
    assert!(!leaf.is_branch());
    assert!(PageEntry(0).is_invalid());
}

#[test]
fn virtual_address_splits_into_three_indices() {
    let address = (0x155 << 30) | (0x0aa << 21) | (0x1ff << 12) | 0xabc;
    assert_eq!(PageEntry::extract_vpns(address), [0x1ff, 0x0aa, 0x155]);
    assert_eq!(PageEntry::extract_vpns(0), [0, 0, 0]);
    // bits from 39 up are ignored
    assert_eq!(PageEntry::extract_vpns(1 << 39), [0, 0, 0]);
}

#[test]
fn root_table_is_a_cleared_frame() {
    let (memory, frames, root) = machine();
    // frame 0 holds the bitmap, frame 1 the root
    assert_eq!(root.address(), BASE + 0x1000);
    assert!(frames.is_used(root.address()));
    for index in 0..512 {
        assert_eq!(entry(&memory, root.address(), index).0, 0);
    }
    assert_eq!(virtual_to_physical(&memory, &root, 0x4000), None);
}

#[test]
fn root_table_needs_a_frame() {
    let mut memory = PhysicalMemory::new(BASE, 0x2000).unwrap();
    let mut frames = BitmapAllocator::new();
    assert_eq!(frames.init(BASE, BASE + 0x2000), Ok(()));
    assert!(create_root_table(&mut memory, &mut frames).is_ok());
    assert_eq!(
        create_root_table(&mut memory, &mut frames).err(),
        Some(MemoryError::AllocationExhausted)
    );
}

#[test]
fn map_then_translate_returns_the_frame_at_each_level() {
    let flags = PageEntryFlags::read_write();
    let cases = [
        (PageEntryLevel::KiB4, 0x0012_3456_7000usize, 0x8765_4000usize),
        (PageEntryLevel::MiB2, 0x0012_3460_0000, 0x8760_0000),
        (PageEntryLevel::GiB1, 0x0012_4000_0000, 0x8000_0000),
    ];
    for (level, to, from) in cases {
        let (mut memory, mut frames, mut root) = machine();
        assert_eq!(virtual_to_physical(&memory, &root, to), None);
        assert_eq!(
            mini_kernel::memory::paging::map(&mut memory, &mut frames, &mut root, from, to, &flags, level),
            Ok(())
        );
        assert_eq!(virtual_to_physical(&memory, &root, to), Some(from));
        // every address of the page leads to the frame
        assert_eq!(
            virtual_to_physical(&memory, &root, to + level.size() - 1),
            Some(from)
        );
        // the page behind it is not mapped
        assert_eq!(virtual_to_physical(&memory, &root, to + level.size()), None);
    }
}

#[test]
fn map_of_a_small_page_creates_two_tables() {
    let (mut memory, mut frames, mut root) = machine();
    let to = (3 << 30) | (5 << 21) | (7 << 12);
    assert_eq!(
        mini_kernel::memory::paging::map(
            &mut memory,
            &mut frames,
            &mut root,
            0xabc000,
            to,
            &PageEntryFlags::read_execute(),
            PageEntryLevel::KiB4
        ),
        Ok(())
    );
    let middle = BASE + 0x2000;
    let low = BASE + 0x3000;
    assert!(frames.is_used(middle));
    assert!(frames.is_used(low));
    assert!(!frames.is_used(BASE + 0x4000));
    // branches hold the valid bit and the address of the table below
    assert_eq!(
        entry(&memory, root.address(), 3).0,
        ((middle as u64 >> 12) << 10) | 1
    );
    assert_eq!(entry(&memory, middle, 5).0, ((low as u64 >> 12) << 10) | 1);
    // the leaf holds the flags, the valid bit and the page number
    assert_eq!(entry(&memory, low, 7).0, (0xabc << 10) | 0b1011);
    assert_eq!(virtual_to_physical(&memory, &root, to), Some(0xabc000));
}

#[test]
fn map_shares_the_tables_that_exist() {
    let (mut memory, mut frames, mut root) = machine();
    let flags = PageEntryFlags::read();
    let first = (3 << 30) | (5 << 21) | (7 << 12);
    let second = (3 << 30) | (5 << 21) | (8 << 12);
    let third = (3 << 30) | (6 << 21) | (7 << 12);
    for (to, from) in [(first, 0x1000), (second, 0x2000), (third, 0x3000)] {
        assert_eq!(
            mini_kernel::memory::paging::map(
                &mut memory,
                &mut frames,
                &mut root,
                from,
                to,
                &flags,
                PageEntryLevel::KiB4
            ),
            Ok(())
        );
    }
    // bitmap, root, middle, low, and one more low table
    assert!(frames.is_used(BASE + 0x4000));
    assert!(!frames.is_used(BASE + 0x5000));
    assert_eq!(virtual_to_physical(&memory, &root, first), Some(0x1000));
    assert_eq!(virtual_to_physical(&memory, &root, second), Some(0x2000));
    assert_eq!(virtual_to_physical(&memory, &root, third), Some(0x3000));
}

#[test]
fn map_twice_is_already_mapped() {
    for level in [
        PageEntryLevel::KiB4,
        PageEntryLevel::MiB2,
        PageEntryLevel::GiB1,
    ] {
        let (mut memory, mut frames, mut root) = machine();
        let flags = PageEntryFlags::read_write();
        let to = 0x8000_0000;
        assert_eq!(
            mini_kernel::memory::paging::map(&mut memory, &mut frames, &mut root, 0x4000_0000, to, &flags, level),
            Ok(())
        );
        let words = memory.as_words().clone();
        let bitmap = frames.bitmap_slice().to_vec();
        assert_eq!(
            mini_kernel::memory::paging::map(&mut memory, &mut frames, &mut root, 0x4000_0000, to, &flags, level),
            Err(MemoryError::AlreadyMapped)
        );
        assert_eq!(
            mini_kernel::memory::paging::map(
                &mut memory,
                &mut frames,
                &mut root,
                0xc000_0000,
                to,
                &PageEntryFlags::execute(),
                level
            ),
            Err(MemoryError::AlreadyMapped)
        );
        assert_eq!(memory.as_words(), &words);
        assert_eq!(frames.bitmap_slice(), &bitmap[..]);
        assert_eq!(virtual_to_physical(&memory, &root, to), Some(0x4000_0000));
    }
}

#[test]
fn map_rejects_addresses_off_the_page_boundary() {
    let (mut memory, mut frames, mut root) = machine();
    let flags = PageEntryFlags::read();
    assert_eq!(
        mini_kernel::memory::paging::map(
            &mut memory,
            &mut frames,
            &mut root,
            0x1000,
            0x2008,
            &flags,
            PageEntryLevel::KiB4
        ),
        Err(MemoryError::MisalignedAddress)
    );
    assert_eq!(
        mini_kernel::memory::paging::map(
            &mut memory,
            &mut frames,
            &mut root,
            0x1000,
            0x20_0000,
            &flags,
            PageEntryLevel::MiB2
        ),
        Err(MemoryError::MisalignedAddress)
    );
    assert!(!frames.is_used(BASE + 0x2000));
}

#[test]
fn map_rejects_the_flags_of_a_branch() {
    let (mut memory, mut frames, mut root) = machine();
    assert_eq!(
        mini_kernel::memory::paging::map(
            &mut memory,
            &mut frames,
            &mut root,
            0x1000,
            0x2000,
            &(PageEntryFlags::valid() | PageEntryFlags::user()),
            PageEntryLevel::KiB4
        ),
        Err(MemoryError::StructuralInconsistency)
    );
    assert_eq!(virtual_to_physical(&memory, &root, 0x2000), None);
}

#[test]
fn map_does_not_go_through_a_leaf() {
    let (mut memory, mut frames, mut root) = machine();
    let flags = PageEntryFlags::read();
    assert_eq!(
        mini_kernel::memory::paging::map(
            &mut memory,
            &mut frames,
            &mut root,
            0x4000_0000,
            0x8000_0000,
            &flags,
            PageEntryLevel::GiB1
        ),
        Ok(())
    );
    assert_eq!(
        mini_kernel::memory::paging::map(
            &mut memory,
            &mut frames,
            &mut root,
            0x1000,
            0x8000_3000,
            &flags,
            PageEntryLevel::KiB4
        ),
        Err(MemoryError::StructuralInconsistency)
    );
    assert_eq!(
        virtual_to_physical(&memory, &root, 0x8000_3000),
        Some(0x4000_0000)
    );
}

#[test]
fn map_fails_when_no_frame_is_left_for_a_table() {
    let mut memory = PhysicalMemory::new(BASE, 0x3000).unwrap();
    let mut frames = BitmapAllocator::new();
    assert_eq!(frames.init(BASE, BASE + 0x3000), Ok(()));
    let mut root = create_root_table(&mut memory, &mut frames).unwrap();
    let words = memory.as_words().clone();
    let bitmap = frames.bitmap_slice().to_vec();
    // one frame is left, and a small page needs two tables
    assert_eq!(
        mini_kernel::memory::paging::map(
            &mut memory,
            &mut frames,
            &mut root,
            0x1000,
            0x2000,
            &PageEntryFlags::read(),
            PageEntryLevel::KiB4
        ),
        Err(MemoryError::AllocationExhausted)
    );
    // no table is hung in for a walk that cannot be finished
    assert!(!frames.is_used(BASE + 0x2000));
    assert_eq!(frames.bitmap_slice(), &bitmap[..]);
    assert_eq!(memory.as_words(), &words);
    assert_eq!(entry(&memory, root.address(), 0).0, 0);
    assert_eq!(virtual_to_physical(&memory, &root, 0x2000), None);
    // a page of 2 MiB needs one table only
    assert_eq!(
        mini_kernel::memory::paging::map(
            &mut memory,
            &mut frames,
            &mut root,
            0x20_0000,
            0x20_0000,
            &PageEntryFlags::read(),
            PageEntryLevel::MiB2
        ),
        Ok(())
    );
    assert_eq!(virtual_to_physical(&memory, &root, 0x20_0000), Some(0x20_0000));
}

#[test]
fn map_sets_the_valid_bit() {
    let (mut memory, mut frames, mut root) = machine();
    assert_eq!(
        mini_kernel::memory::paging::map(
            &mut memory,
            &mut frames,
            &mut root,
            0x4000_0000,
            0,
            &PageEntryFlags::read_write(),
            PageEntryLevel::GiB1
        ),
        Ok(())
    );
    let leaf = entry(&memory, root.address(), 0);
    assert_eq!(leaf.0, ((0x4000_0000u64 >> 12) << 10) | 0b111);
    assert_eq!(leaf.get_type(), PageEntryType::Leaf);
}

#[test]
fn identity_map_of_the_data_region_resolves_each_page_to_itself() {
    let (mut memory, mut frames, mut root) = machine();
    let level = PageEntryLevel::from_size(0x8000 - 0x4000);
    assert_eq!(level, PageEntryLevel::KiB4);
    assert_eq!(
        identity_map_range(
            &mut memory,
            &mut frames,
            &mut root,
            0x4000,
            0x8000,
            PageEntryFlags::read_write(),
            level
        ),
        Ok(())
    );
    for address in [0x4000, 0x5000, 0x6000, 0x7000] {
        assert_eq!(virtual_to_physical(&memory, &root, address), Some(address));
    }
    assert_eq!(virtual_to_physical(&memory, &root, 0x3000), None);
    assert_eq!(virtual_to_physical(&memory, &root, 0x8000), None);
}

#[test]
fn identity_map_rounds_its_bounds_up() {
    let (mut memory, mut frames, mut root) = machine();
    assert_eq!(
        identity_map_range(
            &mut memory,
            &mut frames,
            &mut root,
            0x4001,
            0x6001,
            PageEntryFlags::read(),
            PageEntryLevel::KiB4
        ),
        Ok(())
    );
    assert_eq!(virtual_to_physical(&memory, &root, 0x4000), None);
    assert_eq!(virtual_to_physical(&memory, &root, 0x5000), Some(0x5000));
    assert_eq!(virtual_to_physical(&memory, &root, 0x6000), Some(0x6000));
    assert_eq!(virtual_to_physical(&memory, &root, 0x7000), None);
}

#[test]
fn identity_map_stops_at_the_page_that_is_taken() {
    let (mut memory, mut frames, mut root) = machine();
    let flags = PageEntryFlags::read();
    assert_eq!(
        mini_kernel::memory::paging::map(
            &mut memory,
            &mut frames,
            &mut root,
            0x9000,
            0x6000,
            &flags,
            PageEntryLevel::KiB4
        ),
        Ok(())
    );
    assert_eq!(
        identity_map_range(
            &mut memory,
            &mut frames,
            &mut root,
            0x4000,
            0x8000,
            flags,
            PageEntryLevel::KiB4
        ),
        Err(MemoryError::AlreadyMapped)
    );
    assert_eq!(virtual_to_physical(&memory, &root, 0x4000), Some(0x4000));
    assert_eq!(virtual_to_physical(&memory, &root, 0x5000), Some(0x5000));
    assert_eq!(virtual_to_physical(&memory, &root, 0x6000), Some(0x9000));
    assert_eq!(virtual_to_physical(&memory, &root, 0x7000), None);
}

#[test]
fn kernel_regions_are_mapped_to_themselves() {
    let (mut memory, mut frames, mut root) = machine();
    assert_eq!(map_kernel(&mut memory, &mut frames, &mut root), Ok(()));
    for address in (0..0x40000).step_by(0x1000) {
        assert_eq!(virtual_to_physical(&memory, &root, address), Some(address));
    }
    assert_eq!(virtual_to_physical(&memory, &root, 0x40000), None);
    // bitmap, root, one middle table and one low table
    assert!(frames.is_used(BASE + 0x3000));
    assert!(!frames.is_used(BASE + 0x4000));
    let low = BASE + 0x3000;
    // text: read, execute, accessed, dirty, valid
    assert_eq!(entry(&memory, low, 0).0, 0b1100_1011);
    assert_eq!(entry(&memory, low, 1).0, (1 << 10) | 0b1100_1011);
    // constants: read
    assert_eq!(entry(&memory, low, 2).0, (2 << 10) | 0b1100_0011);
    // data, zeroed data, stack and heap: read and write
    assert_eq!(entry(&memory, low, 4).0, (4 << 10) | 0b1100_0111);
    assert_eq!(entry(&memory, low, 8).0, (8 << 10) | 0b1100_0111);
    assert_eq!(entry(&memory, low, 0x10).0, (0x10 << 10) | 0b1100_0111);
    assert_eq!(entry(&memory, low, 0x3f).0, (0x3f << 10) | 0b1100_0111);
    assert_eq!(entry(&memory, low, 0x40).0, 0);
}

#[test]
fn kernel_cannot_be_mapped_twice() {
    let (mut memory, mut frames, mut root) = machine();
    assert_eq!(map_kernel(&mut memory, &mut frames, &mut root), Ok(()));
    assert_eq!(
        map_kernel(&mut memory, &mut frames, &mut root),
        Err(MemoryError::AlreadyMapped)
    );
}

#[test]
fn unmap_of_an_empty_table_releases_nothing() {
    let (memory, mut frames, root) = machine();
    let before = frames.bitmap_slice().to_vec();
    assert_eq!(unmap(&memory, &mut frames, &root), Ok(()));
    assert_eq!(frames.bitmap_slice(), &before[..]);
}

#[test]
fn unmap_releases_the_lowest_tables_and_then_fails_on_a_lone_middle_table() {
    let (mut memory, mut frames, mut root) = machine();
    assert_eq!(
        mini_kernel::memory::paging::map(
            &mut memory,
            &mut frames,
            &mut root,
            0x1000,
            0x2000,
            &PageEntryFlags::read(),
            PageEntryLevel::KiB4
        ),
        Ok(())
    );
    let middle = BASE + 0x2000;
    let low = BASE + 0x3000;
    let words = memory.as_words().clone();
    // the table below the middle one goes as one frame; the middle one is
    // released as a page of 2 MiB, whose 512 frames are not all in use
    assert_eq!(
        unmap(&memory, &mut frames, &root),
        Err(MemoryError::DoubleFree)
    );
    assert!(!frames.is_used(low));
    assert!(frames.is_used(middle));
    assert!(frames.is_used(root.address()));
    // no entry is cleared
    assert_eq!(memory.as_words(), &words);
}

#[test]
fn unmap_releases_the_run_of_a_middle_table() {
    let (mut memory, mut frames, mut root) = machine();
    assert_eq!(
        mini_kernel::memory::paging::map(
            &mut memory,
            &mut frames,
            &mut root,
            0x20_0000,
            0x20_0000,
            &PageEntryFlags::read(),
            PageEntryLevel::MiB2
        ),
        Ok(())
    );
    // bitmap, root and middle table are in use: take the frames up to 512
    assert_eq!(frames.allocate(61, PageEntryLevel::KiB4), Ok(BASE + 0x3000));
    for word in 1..8 {
        assert_eq!(
            frames.allocate(64, PageEntryLevel::KiB4),
            Ok(BASE + word * 64 * 0x1000)
        );
    }
    assert_eq!(unmap(&memory, &mut frames, &root), Ok(()));
    for word in &frames.bitmap_slice()[0..8] {
        assert_eq!(*word, 0);
    }
}

#[test]
fn map_of_a_large_leaf_writes_one_word() {
    let (mut memory, mut frames, mut root) = machine();
    let bitmap = frames.bitmap_slice().to_vec();
    assert_eq!(
        mini_kernel::memory::paging::map(
            &mut memory,
            &mut frames,
            &mut root,
            0x4000_0000,
            0x8000_0000,
            &PageEntryFlags::read_write(),
            PageEntryLevel::GiB1
        ),
        Ok(())
    );
    for index in 0..512 {
        let expected = if index == 2 { 0x1000_0007 } else { 0 };
        assert_eq!(entry(&memory, root.address(), index).0, expected);
    }
    assert_eq!(frames.bitmap_slice(), &bitmap[..]);
    // every word outside the root is what it was
    for (place, word) in memory.as_words().iter().enumerate() {
        if place != (root.address() - BASE) / 8 + 2 {
            assert_eq!(*word, 0);
        }
    }
}

#[test]
fn map_keeps_the_reserved_bits_of_the_slots_it_writes() {
    let (mut memory, mut frames, mut root) = machine();
    // reserved bits in two empty slots of the root
    memory.write(root.address() + 8 * 2, (1 << 8) | (1 << 63));
    memory.write(root.address() + 8 * 3, 1 << 9);
    assert_eq!(
        mini_kernel::memory::paging::map(
            &mut memory,
            &mut frames,
            &mut root,
            0x4000_0000,
            0x8000_0000,
            &PageEntryFlags::read_write(),
            PageEntryLevel::GiB1
        ),
        Ok(())
    );
    assert_eq!(
        entry(&memory, root.address(), 2).0,
        0x1000_0007 | (1 << 8) | (1 << 63)
    );
    assert_eq!(
        mini_kernel::memory::paging::map(
            &mut memory,
            &mut frames,
            &mut root,
            0x20_0000,
            0xc020_0000,
            &PageEntryFlags::execute(),
            PageEntryLevel::MiB2
        ),
        Ok(())
    );
    let middle = BASE + 0x2000;
    assert_eq!(
        entry(&memory, root.address(), 3).0,
        ((middle as u64 >> 12) << 10) | 1 | (1 << 9)
    );
    assert_eq!(entry(&memory, middle, 1).0, (0x200 << 10) | 0b1001);
}

#[test]
fn map_of_a_small_page_leaves_every_other_slot_empty() {
    let (mut memory, mut frames, mut root) = machine();
    let to = (3 << 30) | (5 << 21) | (7 << 12);
    assert_eq!(
        mini_kernel::memory::paging::map(
            &mut memory,
            &mut frames,
            &mut root,
            0xabc000,
            to,
            &PageEntryFlags::read_execute(),
            PageEntryLevel::KiB4
        ),
        Ok(())
    );
    let tables = [(root.address(), 3), (BASE + 0x2000, 5), (BASE + 0x3000, 7)];
    for (table, used) in tables {
        for index in 0..512 {
            if index != used {
                assert_eq!(entry(&memory, table, index).0, 0);
            }
        }
    }
    // the frames taken are those of the two tables, and no other
    assert_eq!(frames.bitmap_slice()[0], 0b1111);
}

#[test]
fn map_that_fails_writes_nothing() {
    let (mut memory, mut frames, mut root) = machine();
    let flags = PageEntryFlags::read_write();
    assert_eq!(
        mini_kernel::memory::paging::map(
            &mut memory,
            &mut frames,
            &mut root,
            0x4000_0000,
            0x8000_0000,
            &flags,
            PageEntryLevel::GiB1
        ),
        Ok(())
    );
    let words = memory.as_words().clone();
    let bitmap = frames.bitmap_slice().to_vec();
    let calls = [
        // off the page boundary
        (0x1000, 0x20_0000, flags, PageEntryLevel::MiB2, MemoryError::MisalignedAddress),
        // the flags of a branch
        (
            0x1000,
            0x2000,
            PageEntryFlags::valid() | PageEntryFlags::global(),
            PageEntryLevel::KiB4,
            MemoryError::StructuralInconsistency,
        ),
        // below a leaf of 1 GiB
        (0x5000, 0x8000_1000, flags, PageEntryLevel::KiB4, MemoryError::StructuralInconsistency),
        // the slot is taken
        (0xc000_0000, 0x8000_0000, flags, PageEntryLevel::GiB1, MemoryError::AlreadyMapped),
    ];
    for (from, to, with, level, error) in calls {
        assert_eq!(
            mini_kernel::memory::paging::map(
                &mut memory,
                &mut frames,
                &mut root,
                from,
                to,
                &with,
                level
            ),
            Err(error)
        );
        assert_eq!(memory.as_words(), &words);
        assert_eq!(frames.bitmap_slice(), &bitmap[..]);
    }
}

#[test]
fn root_table_clears_its_frame_and_no_other() {
    let mut memory = PhysicalMemory::new(BASE, 0x4000).unwrap();
    let mut frames = BitmapAllocator::new();
    assert_eq!(frames.init(BASE, BASE + 0x4000), Ok(()));
    for offset in (0..0x4000).step_by(8) {
        memory.write(BASE + offset, u64::MAX);
    }
    let root = create_root_table(&mut memory, &mut frames).unwrap();
    assert_eq!(root.address(), BASE + 0x1000);
    for offset in (0..0x4000).step_by(8) {
        let expected = if (0x1000..0x2000).contains(&offset) { 0 } else { u64::MAX };
        assert_eq!(memory.read(BASE + offset), expected);
    }
}

#[test]
fn identity_map_writes_the_slots_on_its_paths_and_no_other_word() {
    let (mut memory, mut frames, mut root) = machine();
    // bits that the table format leaves alone, set in a slot that will be filled
    let high: u64 = 0x3ff << 54;
    memory.write(root.address(), high);
    assert_eq!(
        identity_map_range(
            &mut memory,
            &mut frames,
            &mut root,
            0x4000,
            0x8000,
            PageEntryFlags::read_write(),
            PageEntryLevel::KiB4
        ),
        Ok(())
    );
    let middle = BASE + 0x2000;
    let low = BASE + 0x3000;
    assert_eq!(frames.bitmap_slice()[0], 0b1111);
    for (place, word) in memory.as_words().iter().enumerate() {
        let address = BASE + 8 * place;
        let expected: u64 = if address == root.address() {
            high | ((middle as u64 >> 12) << 10) | 0x01
        } else if address == middle {
            ((low as u64 >> 12) << 10) | 0x01
        } else if address >= low + 8 * 4 && address < low + 8 * 8 {
            let page = ((address - low) / 8) as u64;
            (page << 10) | 0x07
        } else {
            0
        };
        assert_eq!(*word, expected, "word at {address:#x}");
    }
}

#[test]
fn identity_map_that_stops_leaves_the_pages_before_it_and_takes_no_frame_back() {
    let (mut memory, mut frames, mut root) = machine();
    let flags = PageEntryFlags::read();
    assert_eq!(
        mini_kernel::memory::paging::map(
            &mut memory,
            &mut frames,
            &mut root,
            0x9000,
            0x6000,
            &flags,
            PageEntryLevel::KiB4
        ),
        Ok(())
    );
    let bitmap = frames.bitmap_slice().to_vec();
    assert_eq!(
        identity_map_range(
            &mut memory,
            &mut frames,
            &mut root,
            0x4000,
            0x8000,
            flags,
            PageEntryLevel::KiB4
        ),
        Err(MemoryError::AlreadyMapped)
    );
    assert_eq!(frames.bitmap_slice(), &bitmap[..]);
    let low = BASE + 0x3000;
    assert_eq!(entry(&memory, low, 4).0, (4 << 10) | 0x03);
    assert_eq!(entry(&memory, low, 5).0, (5 << 10) | 0x03);
    assert_eq!(entry(&memory, low, 6).0, (9 << 10) | 0x03);
    assert_eq!(entry(&memory, low, 7).0, 0);
}
